//! A vector of bits packed into 64-bit words.

use vstd::prelude::*;
use vstd::std_specs::iter::IteratorSpec;
use vstd::string::StringExecFns;

verus! {

/// Whether bit `k` of a word is set, bit 0 being the least significant.
pub open spec fn bit(word: u64, k: nat) -> bool {
    (word >> (k as u64)) & 1 == 1
}

/// The number of set bits among the lowest `n` bits of a word.
pub open spec fn ones_below(word: u64, n: nat) -> nat
    decreases n,
{
    if n == 0 {
        0
    } else {
        ones_below(word, (n - 1) as nat) + if bit(word, (n - 1) as nat) {
            1nat
        } else {
            0nat
        }
    }
}

/// The number of set bits of a word.
pub open spec fn ones(word: u64) -> nat {
    ones_below(word, 64)
}

/// The number of set bits of a sequence of words.
pub open spec fn total_ones(words: Seq<u64>) -> nat
    decreases words.len(),
{
    if words.len() == 0 {
        0
    } else {
        total_ones(words.drop_last()) + ones(words.last())
    }
}

/// Whether bit `i` of a sequence of words is set: bit `i % 64` of word
/// `i / 64`.
pub open spec fn bit_at(words: Seq<u64>, i: int) -> bool {
    bit(words[i / 64], (i % 64) as nat)
}

/// Whether `words` packs `bits`: it has just enough words to hold them, bit
/// `i` of the words is `bits[i]`, and the bits behind the last one are
/// clear.
pub open spec fn packs(bits: Seq<bool>, words: Seq<u64>) -> bool {
    &&& words.len() == (bits.len() + 63) / 64
    &&& forall|i: int| 0 <= i < bits.len() ==> bit_at(words, i) == #[trigger] bits[i]
    &&& forall|i: int| bits.len() <= i < 64 * words.len() ==> !#[trigger] bit_at(words, i)
}

/// `u64::count_ones` of the standard library: the number of ones in the
/// binary representation of the word.
pub assume_specification[ u64::count_ones ](word: u64) -> (count: u32)
    ensures
        count == ones(word),
;

/// A word has at most 64 set bits.
pub proof fn lemma_ones_bound(word: u64, n: nat)
    ensures
        ones_below(word, n) <= n,
    decreases n,
{
    if n > 0 {
        lemma_ones_bound(word, (n - 1) as nat);
    }
}

/// A bit vector stored as a sequence of 64-bit words, least significant bit
/// first within each word.
pub struct BitVector {
    data: Vec<u64>,
}

impl View for BitVector {
    type V = Seq<u64>;

    /// The words of the vector, in order.
    closed spec fn view(&self) -> Seq<u64> {
        self.data@
    }
}

impl BitVector {
    /// The empty bit vector.
    pub fn new() -> (bv: Self)
        ensures
            bv@ == Seq::<u64>::empty(),
    {
        Self { data: Vec::new() }
    }

    /// An iterator over the words of the vector, in order.
    pub fn iter(&self) -> (words: std::slice::Iter<'_, u64>)
        ensures
            IteratorSpec::remaining(&words) == self@.as_ref(),
            IteratorSpec::decrease(&words) is Some,
            IteratorSpec::initial_value_relation(&words, &words),
    {
        self.data.as_slice().iter()
    }

    /// The number of 64-bit words held.
    pub fn len(&self) -> (n: usize)
        ensures
            n == self@.len(),
    {
        self.data.len()
    }

    /// Whether the vector holds no word at all.
    #[must_use]
    pub fn is_empty(&self) -> (b: bool)
        ensures
            b == (self@.len() == 0),
    {
        self.len() == 0
    }

    /// The number of set bits.
    pub fn count(&self) -> (n: usize)
        requires
            64 * self@.len() <= usize::MAX,
        ensures
            n == total_ones(self@),
    {
        let mut n: usize = 0;
        let mut i: usize = 0;
        while i < self.data.len()
            invariant
                i <= self.data.len(),
                64 * self.data@.len() <= usize::MAX,
                n == total_ones(self.data@.take(i as int)),
                n <= 64 * i,
            decreases self.data.len() - i,
        {
            proof {
                assert(self.data@.take(i + 1).drop_last() =~= self.data@.take(i as int));
                lemma_ones_bound(self.data@[i as int], 64);
            }
            n = n + self.data[i].count_ones() as usize;
            i = i + 1;
        }
        assert(self.data@.take(i as int) =~= self.data@);
        n
    }

    /// The word at the given place.
    pub fn index(&self, index: usize) -> (word: &u64)
        requires
            index < self@.len(),
        ensures
            *word == self@[index as int],
    {
        &self.data[index]
    }
}

/// A clear word has no bit set, and setting bit `j` of a word changes that
/// bit and no other.
proof fn lemma_set_bit(word: u64, j: u64, k: u64)
    requires
        j < 64,
        k < 64,
    ensures
        !bit(0, k as nat),
        bit(word | (1u64 << j), k as nat) == (bit(word, k as nat) || k == j),
{
    assert((0u64 >> k) & 1 != 1) by (bit_vector);
    assert((((word | (1u64 << j)) >> k) & 1 == 1) == (((word >> k) & 1 == 1) || k == j))
        by (bit_vector)
        requires
            j < 64,
            k < 64,
    ;
}

impl From<&[bool]> for BitVector {
    /// Packs a sequence of bits into words: bit `i` of the result is
    /// `value[i]`.
    fn from(value: &[bool]) -> (bv: Self)
        ensures
            packs(value@, bv@),
    {
        let mut data: Vec<u64> = Vec::new();
        let mut i: usize = 0;
        while i < value.len()
            invariant
                i <= value.len(),
                packs(value@.take(i as int), data@),
            decreases value.len() - i,
        {
            let ghost before = data@;
            if data.len() < i / 64 + 1 {
                data.push(0);
            }
            let ghost padded = data@;
            let place = i / 64;
            let shift = (i % 64) as u64;
            if value[i] {
                let word = data[place];
                data[place] = word | (1u64 << shift);
            }
            proof {
                let done = value@.take(i as int);
                let next = value@.take(i + 1);
                assert forall|k: int| 0 <= k < 64 * padded.len() implies bit_at(padded, k) == (k
                    < i && value@[k]) by {
                    if k < 64 * before.len() {
                        assert(padded[k / 64] == before[k / 64]);
                        if k < i {
                            assert(done[k] == value@[k]);
                        }
                    } else {
                        lemma_set_bit(0, 0, (k % 64) as u64);
                    }
                }
                assert forall|k: int| 0 <= k < 64 * data@.len() implies bit_at(data@, k) == (k
                    < i + 1 && value@[k]) by {
                    assert(bit_at(padded, k) == (k < i && value@[k]));
                    if k / 64 == place {
                        lemma_set_bit(padded[place as int], shift, (k % 64) as u64);
                    }
                }
                assert forall|k: int| 0 <= k < next.len() implies bit_at(data@, k)
                    == #[trigger] next[k] by {
                    assert(bit_at(data@, k) == (k < i + 1 && value@[k]));
                }
                assert forall|k: int| next.len() <= k < 64 * data@.len() implies !#[trigger] bit_at(
                    data@,
                    k,
                ) by {
                    assert(bit_at(data@, k) == (k < i + 1 && value@[k]));
                }
            }
            i = i + 1;
        }
        assert(value@.take(i as int) =~= value@);
        BitVector { data }
    }
}

/// The conversion is specified by its own contract.
impl vstd::std_specs::convert::FromSpecImpl<&[bool]> for BitVector {
    open spec fn obeys_from_spec() -> bool {
        false
    }

    open spec fn from_spec(value: &[bool]) -> Self {
        arbitrary()
    }
}

/// The 64 binary digits of a word, the most significant first.
pub open spec fn binary_digits(word: u64) -> Seq<char> {
    Seq::new(
        64,
        |k: int|
            if bit(word, (63 - k) as nat) {
                '1'
            } else {
                '0'
            },
    )
}

/// The words of a bit vector as text: one line of 64 binary digits for
/// each word.
pub open spec fn binary_text(words: Seq<u64>) -> Seq<char>
    decreases words.len(),
{
    if words.len() == 0 {
        Seq::empty()
    } else {
        binary_text(words.drop_last()) + binary_digits(words.last()) + seq!['\n']
    }
}

impl BitVector {
    /// The vector as text: one line of 64 binary digits for each word, the
    /// most significant bit first.
    pub fn to_binary_text(&self) -> (text: String)
        ensures
            text@ == binary_text(self@),
    {
        let mut text = String::new();
        let mut i: usize = 0;
        proof {
            reveal_strlit("0");
            reveal_strlit("1");
            reveal_strlit("\n");
        }
        while i < self.data.len()
            invariant
                i <= self.data.len(),
                text@ == binary_text(self.data@.take(i as int)),
                "0"@ =~= seq!['0'],
                "1"@ =~= seq!['1'],
                "\n"@ =~= seq!['\n'],
            decreases self.data.len() - i,
        {
            let word = self.data[i];
            let ghost line = text@;
            let mut k: u64 = 0;
            while k < 64
                invariant
                    k <= 64,
                    text@ == line + binary_digits(word).take(k as int),
                    "0"@ =~= seq!['0'],
                    "1"@ =~= seq!['1'],
                decreases 64 - k,
            {
                let ghost so_far = text@;
                if (word >> (63 - k)) & 1 == 1 {
                    text.append("1");
                } else {
                    text.append("0");
                }
                assert(text@ =~= so_far.push(binary_digits(word)[k as int]));
                assert(binary_digits(word).take(k + 1) =~= binary_digits(word).take(k as int).push(
                    binary_digits(word)[k as int],
                ));
                k = k + 1;
            }
            text.append("\n");
            proof {
                assert(binary_digits(word).take(64) =~= binary_digits(word));
                assert(self.data@.take(i + 1).drop_last() =~= self.data@.take(i as int));
                assert(text@ =~= line + binary_digits(word) + seq!['\n']);
            }
            i = i + 1;
        }
        assert(self.data@.take(i as int) =~= self.data@);
        text
    }
}

impl Default for BitVector {
    fn default() -> (bv: Self)
        ensures
            bv@ == Seq::<u64>::empty(),
    {
        Self::new()
    }
}

} // verus!
