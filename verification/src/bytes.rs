//! Byte strings as mathematical sequences: equality, the lexicographic order
//! that dictionary keys are kept in, and the search for a delimiter.

use vstd::prelude::*;

verus! {

/// Strict lexicographic order on byte strings: the first position at which
/// the two differ decides, and a proper prefix comes before its extensions.
pub open spec fn lex_less(a: Seq<u8>, b: Seq<u8>) -> bool
    decreases a.len(),
{
    if b.len() == 0 {
        false
    } else if a.len() == 0 {
        true
    } else if a[0] != b[0] {
        a[0] < b[0]
    } else {
        lex_less(a.drop_first(), b.drop_first())
    }
}

/// No byte string comes before itself.
pub proof fn lemma_lex_less_irreflexive(a: Seq<u8>)
    ensures
        !lex_less(a, a),
    decreases a.len(),
{
    if a.len() > 0 {
        lemma_lex_less_irreflexive(a.drop_first());
    }
}

/// The order is transitive.
pub proof fn lemma_lex_less_transitive(a: Seq<u8>, b: Seq<u8>, c: Seq<u8>)
    requires
        lex_less(a, b),
        lex_less(b, c),
    ensures
        lex_less(a, c),
    decreases a.len(),
{
    if a.len() > 0 && a[0] == b[0] && b[0] == c[0] {
        lemma_lex_less_transitive(a.drop_first(), b.drop_first(), c.drop_first());
    }
}

/// Any two byte strings are equal or ordered one way or the other.
pub proof fn lemma_lex_less_total(a: Seq<u8>, b: Seq<u8>)
    ensures
        a == b || lex_less(a, b) || lex_less(b, a),
    decreases a.len(),
{
    if a.len() == 0 || b.len() == 0 {
        if a.len() == 0 && b.len() == 0 {
            assert(a =~= b);
        }
    } else if a[0] == b[0] {
        lemma_lex_less_total(a.drop_first(), b.drop_first());
        if a.drop_first() == b.drop_first() {
            assert(a =~= seq![a[0]] + a.drop_first());
            assert(b =~= seq![b[0]] + b.drop_first());
        }
    }
}

/// Whether two byte strings hold the same bytes.
pub fn bytes_equal(a: &[u8], b: &[u8]) -> (same: bool)
    ensures
        same == (a@ == b@),
{
    if a.len() != b.len() {
        return false;
    }
    let mut i: usize = 0;
    while i < a.len()
        invariant
            a@.len() == b@.len(),
            i <= a@.len(),
            forall|j: int| 0 <= j < i ==> a@[j] == b@[j],
        decreases a@.len() - i,
    {
        if a[i] != b[i] {
            return false;
        }
        i += 1;
    }
    assert(a@ =~= b@);
    true
}

/// Whether `a` comes strictly before `b` in lexicographic order.
pub fn bytes_less(a: &[u8], b: &[u8]) -> (less: bool)
    ensures
        less == lex_less(a@, b@),
{
    let mut i: usize = 0;
    assert(a@.skip(0) =~= a@ && b@.skip(0) =~= b@);
    while i < a.len() && i < b.len()
        invariant
            i <= a@.len(),
            i <= b@.len(),
            lex_less(a@, b@) == lex_less(a@.skip(i as int), b@.skip(i as int)),
        decreases a@.len() - i,
    {
        proof {
            assert(a@.skip(i as int).drop_first() =~= a@.skip(i + 1));
            assert(b@.skip(i as int).drop_first() =~= b@.skip(i + 1));
        }
        if a[i] != b[i] {
            return a[i] < b[i];
        }
        i += 1;
    }
    i < b.len()
}

/// The position of the first occurrence of `byte` in `s`, or the length of
/// `s` where it does not occur.
pub open spec fn first_index_of(s: Seq<u8>, byte: u8) -> int
    decreases s.len(),
{
    if s.len() == 0 || s[0] == byte {
        0
    } else {
        1 + first_index_of(s.drop_first(), byte)
    }
}

/// `first_index_of` is the least position that holds `byte`, and the length
/// of `s` exactly when no position does.
pub proof fn lemma_first_index_of(s: Seq<u8>, byte: u8)
    ensures
        0 <= first_index_of(s, byte) <= s.len(),
        first_index_of(s, byte) < s.len() ==> s[first_index_of(s, byte)] == byte,
        forall|j: int| 0 <= j < first_index_of(s, byte) ==> s[j] != byte,
    decreases s.len(),
{
    if s.len() != 0 && s[0] != byte {
        lemma_first_index_of(s.drop_first(), byte);
        assert forall|j: int| 0 <= j < first_index_of(s, byte) implies s[j] != byte by {
            if j > 0 {
                assert(s[j] == s.drop_first()[j - 1]);
            }
        }
    }
}

/// A position that holds `byte` and has none before it is the first.
pub proof fn lemma_first_index_of_unique(s: Seq<u8>, byte: u8, i: int)
    requires
        0 <= i <= s.len(),
        i < s.len() ==> s[i] == byte,
        forall|j: int| 0 <= j < i ==> s[j] != byte,
    ensures
        first_index_of(s, byte) == i,
{
    lemma_first_index_of(s, byte);
    let k = first_index_of(s, byte);
    if k < i {
        assert(s[k] != byte);
    }
}

/// Scans `data` for the first occurrence of `byte`.
pub fn find_byte(data: &[u8], byte: u8) -> (i: usize)
    ensures
        i == first_index_of(data@, byte),
        i <= data@.len(),
{
    let mut i: usize = 0;
    while i < data.len() && data[i] != byte
        invariant
            i <= data@.len(),
            forall|j: int| 0 <= j < i ==> data@[j] != byte,
        decreases data@.len() - i,
    {
        i += 1;
    }
    proof {
        lemma_first_index_of_unique(data@, byte, i as int);
    }
    i
}

} // verus!
