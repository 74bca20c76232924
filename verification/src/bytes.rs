//! Byte strings: equality, the lexicographic order, and trimming.
//!
//! Names, tags and fields are handled as the bytes found in the input; text
//! encoding is left to the caller.

use vstd::prelude::*;

verus! {

/// How one byte string stands to another in the lexicographic order.
#[derive(Clone, Copy, Debug, PartialEq, Eq, Structural)]
pub enum Rank {
    Less,
    Equal,
    Greater,
}

/// `a` comes before `b`, given that they agree on their first `i` bytes: at
/// the first index where they differ `a` holds the smaller byte, or `a` ends
/// first.
pub open spec fn precedes_from(a: Seq<u8>, b: Seq<u8>, i: int) -> bool
    decreases a.len() - i,
{
    if i >= b.len() {
        false
    } else if i >= a.len() {
        true
    } else if a[i] != b[i] {
        a[i] < b[i]
    } else {
        precedes_from(a, b, i + 1)
    }
}

/// `a` comes strictly before `b` in the lexicographic order of bytes.
pub open spec fn precedes(a: Seq<u8>, b: Seq<u8>) -> bool {
    precedes_from(a, b, 0)
}

/// The rank of `a` against `b`.
pub open spec fn rank_of(a: Seq<u8>, b: Seq<u8>) -> Rank {
    if precedes(a, b) {
        Rank::Less
    } else if a == b {
        Rank::Equal
    } else {
        Rank::Greater
    }
}

/// A byte that counts as white space: tab, line feed, vertical tab, form
/// feed, carriage return or space.
pub open spec fn is_white(b: u8) -> bool {
    (9 <= b && b <= 13) || b == 32
}

/// `s` without the white space at its start.
pub open spec fn without_leading_white(s: Seq<u8>) -> Seq<u8>
    decreases s.len(),
{
    if s.len() > 0 && is_white(s.first()) {
        without_leading_white(s.drop_first())
    } else {
        s
    }
}

/// `s` without the white space at its end.
pub open spec fn without_trailing_white(s: Seq<u8>) -> Seq<u8>
    decreases s.len(),
{
    if s.len() > 0 && is_white(s.last()) {
        without_trailing_white(s.drop_last())
    } else {
        s
    }
}

/// `s` without the white space at either end.
pub open spec fn trimmed(s: Seq<u8>) -> Seq<u8> {
    without_trailing_white(without_leading_white(s))
}

proof fn lemma_order_from(a: Seq<u8>, b: Seq<u8>, i: int)
    requires
        0 <= i <= a.len(),
        i <= b.len(),
        forall|k: int| 0 <= k < i ==> a[k] == b[k],
    ensures
        precedes_from(a, b, i) || a == b || precedes_from(b, a, i),
        !(precedes_from(a, b, i) && precedes_from(b, a, i)),
        a == b ==> !precedes_from(a, b, i),
    decreases a.len() - i,
{
    if i >= a.len() || i >= b.len() {
        if i >= a.len() && i >= b.len() {
            assert(a =~= b);
        }
    } else if a[i] == b[i] {
        lemma_order_from(a, b, i + 1);
    }
}

proof fn lemma_transitive_from(a: Seq<u8>, b: Seq<u8>, c: Seq<u8>, i: int)
    requires
        0 <= i,
        precedes_from(a, b, i),
        precedes_from(b, c, i),
    ensures
        precedes_from(a, c, i),
    decreases a.len() - i,
{
    if i < a.len() && a[i] == b[i] && b[i] == c[i] {
        lemma_transitive_from(a, b, c, i + 1);
    }
}

/// Of two byte strings one comes before the other, or they are equal, and
/// only one of the three holds.
pub proof fn lemma_order_total(a: Seq<u8>, b: Seq<u8>)
    ensures
        precedes(a, b) || a == b || precedes(b, a),
        !(precedes(a, b) && precedes(b, a)),
        !precedes(a, a),
{
    lemma_order_from(a, b, 0);
    lemma_order_from(a, a, 0);
}

/// What comes before something that comes before `c` comes before `c`.
pub proof fn lemma_order_transitive(a: Seq<u8>, b: Seq<u8>, c: Seq<u8>)
    requires
        precedes(a, b),
        precedes(b, c),
    ensures
        precedes(a, c),
{
    lemma_transitive_from(a, b, c, 0);
}

/// Whether two byte strings are equal.
pub fn same_bytes(a: &[u8], b: &[u8]) -> (r: bool)
    ensures
        r == (a@ == b@),
{
    if a.len() != b.len() {
        return false;
    }
    let mut i: usize = 0;
    while i < a.len()
        invariant
            i <= a.len(),
            a.len() == b.len(),
            forall|k: int| 0 <= k < i ==> a@[k] == b@[k],
        decreases a.len() - i,
    {
        if a[i] != b[i] {
            return false;
        }
        i += 1;
    }
    proof {
        assert(a@ =~= b@);
    }
    true
}

/// The rank of `a` against `b` in the lexicographic order of bytes.
pub fn compare(a: &[u8], b: &[u8]) -> (r: Rank)
    ensures
        r == rank_of(a@, b@),
{
    let mut i: usize = 0;
    while i < a.len() && i < b.len()
        invariant
            i <= a.len(),
            i <= b.len(),
            forall|k: int| 0 <= k < i ==> a@[k] == b@[k],
            precedes(a@, b@) == precedes_from(a@, b@, i as int),
            precedes(b@, a@) == precedes_from(b@, a@, i as int),
        decreases a.len() - i,
    {
        if a[i] < b[i] {
            proof {
                lemma_order_from(a@, b@, i as int);
            }
            return Rank::Less;
        }
        if a[i] > b[i] {
            proof {
                lemma_order_from(a@, b@, i as int);
            }
            return Rank::Greater;
        }
        i += 1;
    }
    proof {
        lemma_order_from(a@, b@, i as int);
    }
    if i < b.len() {
        Rank::Less
    } else if i < a.len() {
        Rank::Greater
    } else {
        Rank::Equal
    }
}

/// The part of `s` that is left when the white space at both ends is taken
/// away.
pub fn trim(s: &[u8]) -> (r: &[u8])
    ensures
        r@ == trimmed(s@),
{
    let mut start: usize = 0;
    proof {
        assert(s@.skip(0) =~= s@);
    }
    while start < s.len() && is_white_byte(s[start])
        invariant
            start <= s.len(),
            without_leading_white(s@) == without_leading_white(s@.skip(start as int)),
        decreases s.len() - start,
    {
        proof {
            assert(s@.skip(start as int).drop_first() =~= s@.skip(start + 1));
        }
        start += 1;
    }
    let mut end: usize = s.len();
    let ghost core = s@.skip(start as int);
    proof {
        assert(core =~= s@.subrange(start as int, s@.len() as int));
    }
    while end > start && is_white_byte(s[end - 1])
        invariant
            start <= end <= s.len(),
            core == s@.skip(start as int),
            without_trailing_white(core) == without_trailing_white(
                s@.subrange(start as int, end as int),
            ),
        decreases end,
    {
        proof {
            assert(s@.subrange(start as int, end as int).drop_last() =~= s@.subrange(
                start as int,
                end - 1,
            ));
        }
        end -= 1;
    }
    vstd::slice::slice_subrange(s, start, end)
}

/// Whether a byte counts as white space.
pub fn is_white_byte(b: u8) -> (r: bool)
    ensures
        r == is_white(b),
{
    (9 <= b && b <= 13) || b == 32
}

} // verus!
