//! Fingerprints as bit vectors: how many bits two of them share, and a
//! fingerprint given bit by bit as text.

use super::bitvector::{bit, lemma_ones_bound, ones, ones_below, total_ones, BitVector};
use vstd::prelude::*;
use vstd::string::StringExecFns;

verus! {

/// The number of bits set in both of two sequences of words, as far as the
/// shorter one reaches.
pub open spec fn shared_ones(a: Seq<u64>, b: Seq<u64>, upto: nat) -> nat
    decreases upto,
{
    if upto == 0 {
        0
    } else {
        shared_ones(a, b, (upto - 1) as nat) + ones(a[upto - 1] & b[upto - 1])
    }
}

/// The number of words that both of two sequences have.
pub open spec fn common_len(a: Seq<u64>, b: Seq<u64>) -> nat {
    if a.len() <= b.len() {
        a.len()
    } else {
        b.len()
    }
}

/// Returns the number of bits in the intersection of `a` and `b`.
pub fn intersect(a: &BitVector, b: &BitVector) -> (shared: usize)
    requires
        64 * common_len(a@, b@) <= u32::MAX,
    ensures
        shared == shared_ones(a@, b@, common_len(a@, b@)),
{
    let n = if a.len() <= b.len() {
        a.len()
    } else {
        b.len()
    };
    let mut shared: u32 = 0;
    let mut i: usize = 0;
    while i < n
        invariant
            i <= n,
            n == common_len(a@, b@),
            64 * n <= u32::MAX,
            shared == shared_ones(a@, b@, i as nat),
            shared <= 64 * i,
        decreases n - i,
    {
        let word = *a.index(i) & *b.index(i);
        proof {
            lemma_ones_bound(word, 64);
        }
        shared = shared + word.count_ones();
        i = i + 1;
    }
    shared as usize
}

/// Two words share no more bits than the first of them has.
proof fn lemma_shared_bits(a: u64, b: u64, n: nat)
    requires
        n <= 64,
    ensures
        ones_below(a & b, n) <= ones_below(a, n),
    decreases n,
{
    if n > 0 {
        lemma_shared_bits(a, b, (n - 1) as nat);
        let k = (n - 1) as u64;
        assert((((a & b) >> k) & 1 == 1) ==> ((a >> k) & 1 == 1)) by (bit_vector);
    }
}

/// Two sequences of words share no more bits than the first of them has.
pub proof fn lemma_shared_ones_bound(a: Seq<u64>, b: Seq<u64>, upto: nat)
    requires
        upto <= a.len(),
        upto <= b.len(),
    ensures
        shared_ones(a, b, upto) <= total_ones(a),
{
    lemma_shared_prefix(a, b, upto);
    lemma_total_ones_take(a, upto);
}

/// The set bits of the first words of a sequence are among the set bits of
/// the sequence.
proof fn lemma_total_ones_take(a: Seq<u64>, upto: nat)
    requires
        upto <= a.len(),
    ensures
        total_ones(a.take(upto as int)) <= total_ones(a),
    decreases a.len() - upto,
{
    if upto < a.len() {
        assert(a.take(upto as int + 1).drop_last() =~= a.take(upto as int));
        lemma_total_ones_take(a, (upto + 1) as nat);
    } else {
        assert(a.take(upto as int) =~= a);
    }
}

/// The first words of two sequences share no more bits than those of the
/// first sequence have.
proof fn lemma_shared_prefix(a: Seq<u64>, b: Seq<u64>, upto: nat)
    requires
        upto <= a.len(),
        upto <= b.len(),
    ensures
        shared_ones(a, b, upto) <= total_ones(a.take(upto as int)),
    decreases upto,
{
    if upto > 0 {
        lemma_shared_prefix(a, b, (upto - 1) as nat);
        lemma_shared_bits(a[upto - 1], b[upto - 1], 64);
        assert(a.take(upto as int).drop_last() =~= a.take(upto - 1));
    }
}

/// The two counts whose ratio is the Tanimoto similarity of `a` and `b`: the
/// bits set in both, and the bits set in either.
pub fn tanimoto_counts(a: &BitVector, b: &BitVector) -> (counts: (usize, usize))
    requires
        64 * common_len(a@, b@) <= u32::MAX,
        64 * (a@.len() + b@.len()) <= usize::MAX,
    ensures
        counts.0 == shared_ones(a@, b@, common_len(a@, b@)),
        counts.1 == total_ones(a@) + total_ones(b@) - shared_ones(a@, b@, common_len(a@, b@)),
{
    let num = intersect(a, b);
    proof {
        lemma_shared_ones_bound(a@, b@, common_len(a@, b@));
        lemma_total_ones_all(a@);
        lemma_total_ones_all(b@);
    }
    let den: usize = a.count() + b.count() - num;
    (num, den)
}

/// A sequence of words has at most 64 set bits for each word.
proof fn lemma_total_ones_all(words: Seq<u64>)
    ensures
        total_ones(words) <= 64 * words.len(),
    decreases words.len(),
{
    if words.len() > 0 {
        lemma_total_ones_all(words.drop_last());
        lemma_ones_bound(words.last(), 64);
    }
}

/// The character of a decimal digit.
pub open spec fn digit_char(digit: nat) -> char {
    if digit == 0 {
        '0'
    } else if digit == 1 {
        '1'
    } else if digit == 2 {
        '2'
    } else if digit == 3 {
        '3'
    } else if digit == 4 {
        '4'
    } else if digit == 5 {
        '5'
    } else if digit == 6 {
        '6'
    } else if digit == 7 {
        '7'
    } else if digit == 8 {
        '8'
    } else {
        '9'
    }
}

/// A number written in decimal, without leading zeros.
pub open spec fn decimal(n: nat) -> Seq<char>
    decreases n,
{
    if n < 10 {
        seq![digit_char(n)]
    } else {
        decimal(n / 10).push(digit_char(n % 10))
    }
}

/// The text of the first `n` entries of a fingerprint: each entry in
/// decimal, a blank before every group of four, a line break after every
/// 64th entry.
pub open spec fn rows_text(bv: Seq<usize>, n: nat) -> Seq<char>
    decreases n,
{
    if n == 0 {
        Seq::empty()
    } else {
        let i = (n - 1) as nat;
        rows_text(bv, i) + (if i % 4 == 0 {
            seq![' ']
        } else {
            Seq::empty()
        }) + decimal(bv[i as int] as nat) + (if i % 64 == 63 {
            seq!['\n']
        } else {
            Seq::empty()
        })
    }
}

/// The text of a fingerprint: its entries in rows of 16 groups of 4, every
/// row ended by a line break, the last one too where it is not full.
pub open spec fn bit_vec_text(bv: Seq<usize>) -> Seq<char> {
    rows_text(bv, bv.len()) + (if bv.len() % 64 != 0 {
        seq!['\n']
    } else {
        Seq::empty()
    })
}

/// The text of one decimal digit.
fn digit_text(digit: usize) -> (text: &'static str)
    requires
        digit < 10,
    ensures
        text@ == seq![digit_char(digit as nat)],
{
    proof {
        reveal_strlit("0");
        reveal_strlit("1");
        reveal_strlit("2");
        reveal_strlit("3");
        reveal_strlit("4");
        reveal_strlit("5");
        reveal_strlit("6");
        reveal_strlit("7");
        reveal_strlit("8");
        reveal_strlit("9");
    }
    let text = if digit == 0 {
        "0"
    } else if digit == 1 {
        "1"
    } else if digit == 2 {
        "2"
    } else if digit == 3 {
        "3"
    } else if digit == 4 {
        "4"
    } else if digit == 5 {
        "5"
    } else if digit == 6 {
        "6"
    } else if digit == 7 {
        "7"
    } else if digit == 8 {
        "8"
    } else {
        "9"
    };
    assert(text@ =~= seq![digit_char(digit as nat)]);
    text
}

/// Appends a number, written in decimal, to a text.
fn append_decimal(text: &mut String, n: usize)
    ensures
        final(text)@ == old(text)@ + decimal(n as nat),
{
    // the digits of `n`, the least significant first
    let mut digits: Vec<usize> = Vec::new();
    digits.push(n % 10);
    let mut rest = n / 10;
    while rest > 0
        invariant
            digits.len() >= 1,
            forall|k: int| 0 <= k < digits.len() ==> digits[k] < 10,
            decimal(n as nat) == (if rest > 0 {
                decimal(rest as nat)
            } else {
                Seq::empty()
            }) + Seq::new(
                digits.len() as nat,
                |k: int| digit_char(digits[digits.len() - 1 - k] as nat),
            ),
        decreases rest,
    {
        let ghost before = digits@;
        digits.push(rest % 10);
        proof {
            let old_tail = Seq::new(
                before.len() as nat,
                |k: int| digit_char(before[before.len() - 1 - k] as nat),
            );
            let new_tail = Seq::new(
                digits.len() as nat,
                |k: int| digit_char(digits[digits.len() - 1 - k] as nat),
            );
            assert(new_tail =~= seq![digit_char((rest % 10) as nat)] + old_tail);
            if rest >= 10 {
                assert(decimal(rest as nat) == decimal((rest / 10) as nat).push(
                    digit_char((rest % 10) as nat),
                ));
                assert(decimal(n as nat) =~= decimal((rest / 10) as nat) + new_tail);
            } else {
                assert(decimal(n as nat) =~= Seq::<char>::empty() + new_tail);
            }
        }
        rest = rest / 10;
    }
    let ghost start = text@;
    let ghost all = Seq::new(
        digits.len() as nat,
        |k: int| digit_char(digits[digits.len() - 1 - k] as nat),
    );
    assert(decimal(n as nat) =~= all);
    let mut k: usize = digits.len();
    while k > 0
        invariant
            k <= digits.len(),
            forall|j: int| 0 <= j < digits.len() ==> digits[j] < 10,
            all == Seq::new(
                digits.len() as nat,
                |j: int| digit_char(digits[digits.len() - 1 - j] as nat),
            ),
            text@ == start + all.take(digits.len() - k),
        decreases k,
    {
        k = k - 1;
        let ghost so_far = text@;
        text.append(digit_text(digits[k]));
        assert(all.take(digits.len() - k) =~= all.take(digits.len() - k - 1).push(
            all[digits.len() - k - 1],
        ));
        assert(text@ =~= start + all.take(digits.len() - k));
    }
    assert(all.take(digits.len() as int) =~= all);
}

/// Writes a fingerprint, given entry by entry, as text in rows of 16 groups
/// of 4 entries.
pub fn format_bit_vec(bv: &[usize]) -> (text: String)
    ensures
        text@ == bit_vec_text(bv@),
{
    let mut text = String::new();
    let mut i: usize = 0;
    proof {
        reveal_strlit(" ");
        reveal_strlit("\n");
    }
    while i < bv.len()
        invariant
            i <= bv.len(),
            text@ == rows_text(bv@, i as nat),
            " "@ =~= seq![' '],
            "\n"@ =~= seq!['\n'],
        decreases bv.len() - i,
    {
        let ghost before = text@;
        if i % 4 == 0 {
            text.append(" ");
        }
        append_decimal(&mut text, bv[i]);
        if i % 64 == 63 {
            text.append("\n");
        }
        assert(text@ =~= rows_text(bv@, (i + 1) as nat));
        i = i + 1;
    }
    if bv.len() % 64 != 0 {
        text.append("\n");
    }
    assert(text@ =~= bit_vec_text(bv@));
    text
}

} // verus!
