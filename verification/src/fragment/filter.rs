//! The fragment filter: which products of a bond cleavage are worth keeping.
//!
//! A fragment is judged by its canonical identity string and its atom count
//! alone. With a positive size threshold, the fragment must have at least that
//! many real atoms (attachment placeholders do not count). Without one, the
//! fragment must not be one of a few trivial carbon chains.

use vstd::prelude::*;

verus! {

/// The character that marks, in an identity string, a place where a bond was
/// cut.
pub const PLACEHOLDER: char = '*';

/// The number of attachment placeholders in an identity string.
pub open spec fn placeholders_in(identity: Seq<char>) -> nat {
    identity.filter(|c: char| c == '*').len()
}

/// The identity string with every attachment placeholder taken out.
pub open spec fn without_placeholders(identity: Seq<char>) -> Seq<char> {
    identity.filter(|c: char| c != '*')
}

/// The text with every empty branch `()` taken out, scanning once from the
/// left: what remains is not scanned again.
pub open spec fn without_empty_branches(text: Seq<char>) -> Seq<char>
    decreases text.len(),
{
    if text.len() < 2 {
        text
    } else if text[0] == '(' && text[1] == ')' {
        without_empty_branches(text.skip(2))
    } else {
        seq![text[0]] + without_empty_branches(text.skip(1))
    }
}

/// What is left of an identity string once the placeholders, and then the
/// empty branches they leave behind, are gone.
pub open spec fn skeleton(identity: Seq<char>) -> Seq<char> {
    without_empty_branches(without_placeholders(identity))
}

/// Whether the text is one of the trivial fragments: nothing at all, or a
/// chain of one, two or three aliphatic carbons.
pub open spec fn is_denied(text: Seq<char>) -> bool {
    ||| text =~= Seq::<char>::empty()
    ||| text =~= seq!['C']
    ||| text =~= seq!['C', 'C']
    ||| text =~= seq!['C', 'C', 'C']
}

/// Whether a fragment is trivial: its skeleton is on the denylist.
pub open spec fn is_trivial(identity: Seq<char>) -> bool {
    is_denied(skeleton(identity))
}

/// The filter itself. With `min_fragment_size > 0` a fragment passes when its
/// atom count less its placeholders reaches the threshold; with
/// `min_fragment_size == 0` it passes when it is not trivial.
pub open spec fn passes(min_fragment_size: nat, atom_count: nat, identity: Seq<char>) -> bool {
    if min_fragment_size > 0 {
        atom_count - placeholders_in(identity) >= min_fragment_size
    } else {
        !is_trivial(identity)
    }
}

/// The characters of a string, as a vector.
fn chars_of(text: &str) -> (chars: Vec<char>)
    ensures
        chars@ == text@,
{
    let mut chars: Vec<char> = Vec::new();
    for c in it: text.chars()
        invariant
            it.seq() == text@,
            chars@ =~= it.seq().take(it.index()),
    {
        chars.push(c);
    }
    assert(chars@ =~= text@);
    chars
}

/// Counts the attachment placeholders of an identity string.
pub fn count_placeholders(identity: &str) -> (n: usize)
    ensures
        n == placeholders_in(identity@),
{
    let chars = chars_of(identity);
    let mut n: usize = 0;
    let mut i: usize = 0;
    while i < chars.len()
        invariant
            i <= chars.len(),
            n <= i,
            n == placeholders_in(chars@.take(i as int)),
        decreases chars.len() - i,
    {
        proof {
            assert(chars@.take(i + 1) =~= chars@.take(i as int).push(chars@[i as int]));
            chars@.take(i as int).lemma_filter_push(chars@[i as int], |c: char| c == '*');
        }
        if chars[i] == PLACEHOLDER {
            n = n + 1;
        }
        i = i + 1;
    }
    assert(chars@.take(i as int) =~= chars@);
    n
}

/// Removes the attachment placeholders from a sequence of characters.
fn strip_placeholders(chars: &Vec<char>) -> (out: Vec<char>)
    ensures
        out@ == without_placeholders(chars@),
{
    let mut out: Vec<char> = Vec::new();
    let mut i: usize = 0;
    assert(chars@.take(0) =~= Seq::<char>::empty());
    proof {
        reveal(Seq::filter);
    }
    while i < chars.len()
        invariant
            i <= chars.len(),
            out@ == without_placeholders(chars@.take(i as int)),
        decreases chars.len() - i,
    {
        proof {
            assert(chars@.take(i + 1) =~= chars@.take(i as int).push(chars@[i as int]));
            chars@.take(i as int).lemma_filter_push(chars@[i as int], |c: char| c != '*');
        }
        if chars[i] != PLACEHOLDER {
            out.push(chars[i]);
        }
        i = i + 1;
    }
    assert(chars@.take(i as int) =~= chars@);
    out
}

/// Removes the empty branches from a sequence of characters, in one pass.
fn strip_empty_branches(chars: &Vec<char>) -> (out: Vec<char>)
    ensures
        out@ == without_empty_branches(chars@),
{
    let mut out: Vec<char> = Vec::new();
    let mut i: usize = 0;
    assert(chars@.skip(0) =~= chars@);
    while i < chars.len()
        invariant
            i <= chars.len(),
            out@ + without_empty_branches(chars@.skip(i as int)) == without_empty_branches(chars@),
        decreases chars.len() - i,
    {
        let ghost rest = chars@.skip(i as int);
        if i + 1 < chars.len() && chars[i] == '(' && chars[i + 1] == ')' {
            assert(rest.skip(2) =~= chars@.skip(i + 2));
            i = i + 2;
        } else {
            proof {
                if rest.len() >= 2 {
                    assert(rest.skip(1) =~= chars@.skip(i + 1));
                    assert(out@.push(chars@[i as int]) + without_empty_branches(rest.skip(1))
                        =~= out@ + (seq![rest[0]] + without_empty_branches(rest.skip(1))));
                } else {
                    assert(chars@.skip(i + 1) =~= Seq::<char>::empty());
                    assert(out@.push(chars@[i as int]) + without_empty_branches(
                        chars@.skip(i + 1),
                    ) =~= out@ + rest);
                }
            }
            out.push(chars[i]);
            i = i + 1;
        }
    }
    assert(out@ + without_empty_branches(chars@.skip(i as int)) =~= out@);
    out
}

/// Decides whether a fragment is trivial: whether, with its placeholders and
/// empty branches removed, it is empty or a chain of at most three carbons.
pub fn is_trivial_fragment(identity: &str) -> (trivial: bool)
    ensures
        trivial == is_trivial(identity@),
{
    let chars = chars_of(identity);
    let bare = strip_empty_branches(&strip_placeholders(&chars));
    let n = bare.len();
    if n > 3 {
        false
    } else {
        (n < 1 || bare[0] == 'C') && (n < 2 || bare[1] == 'C') && (n < 3 || bare[2] == 'C')
    }
}

/// Applies the fragment filter to one product of a cleavage.
pub fn accepts(min_fragment_size: usize, atom_count: usize, identity: &str) -> (ok: bool)
    ensures
        ok == passes(min_fragment_size as nat, atom_count as nat, identity@),
{
    if min_fragment_size > 0 {
        let placeholders = count_placeholders(identity);
        atom_count >= placeholders && atom_count - placeholders >= min_fragment_size
    } else {
        !is_trivial_fragment(identity)
    }
}

} // verus!
