//! The shape of a tab-separated log: lines, and fields within a line.

use vstd::prelude::*;
use vstd::slice::slice_subrange;

verus! {

/// The byte that separates the fields of a line.
pub const TAB: u8 = 9;

/// The byte that ends a line.
pub const LINE_FEED: u8 = 10;

/// The byte that may stand before a line feed, and then belongs to the line
/// end.
pub const CARRIAGE_RETURN: u8 = 13;

/// The index of the first `sep` in `s`, or the length of `s` where there is
/// none.
pub open spec fn first_of(s: Seq<u8>, sep: u8) -> int
    decreases s.len(),
{
    if s.len() == 0 || s.first() == sep {
        0
    } else {
        1 + first_of(s.drop_first(), sep)
    }
}

/// The pieces between the occurrences of `sep` in `s`, in order. There is one
/// piece more than there are separators, so there is always at least one, and
/// a piece may be empty.
pub open spec fn pieces(s: Seq<u8>, sep: u8) -> Seq<Seq<u8>>
    decreases s.len(),
{
    let i: int = first_of(s, sep);
    if 0 <= i < s.len() {
        seq![s.take(i)] + pieces(s.skip(i + 1), sep)
    } else {
        seq![s]
    }
}

/// What each of the given slices holds.
pub open spec fn views(parts: Seq<&[u8]>) -> Seq<Seq<u8>> {
    parts.map_values(|p: &[u8]| p@)
}

/// `line` without one carriage return at its end.
pub open spec fn without_carriage_return(line: Seq<u8>) -> Seq<u8> {
    if line.len() > 0 && line.last() == CARRIAGE_RETURN {
        line.drop_last()
    } else {
        line
    }
}

/// The lines of `content`. A line ends with a line feed, and a carriage return
/// just before it belongs to the line end. What follows the last line feed is
/// a line too, unless it is empty.
pub open spec fn lines_of(content: Seq<u8>) -> Seq<Seq<u8>> {
    let parts = pieces(content, LINE_FEED);
    let ended = parts.drop_last().map_values(|l: Seq<u8>| without_carriage_return(l));
    if parts.last().len() == 0 {
        ended
    } else {
        ended.push(parts.last())
    }
}

/// The fields of `line`.
pub open spec fn fields_of(line: Seq<u8>) -> Seq<Seq<u8>> {
    pieces(line, TAB)
}

/// Where no `sep` stands before index `k`, and `k` is the end or holds one,
/// `k` is the first.
pub proof fn lemma_first_of(s: Seq<u8>, sep: u8, k: int)
    requires
        0 <= k <= s.len(),
        forall|j: int| 0 <= j < k ==> s[j] != sep,
        k == s.len() || s[k] == sep,
    ensures
        first_of(s, sep) == k,
    decreases s.len(),
{
    if k > 0 {
        lemma_first_of(s.drop_first(), sep, k - 1);
    }
}

/// There is always at least one piece.
pub proof fn lemma_pieces_nonempty(s: Seq<u8>, sep: u8)
    ensures
        pieces(s, sep).len() >= 1,
    decreases s.len(),
{
    let i: int = first_of(s, sep);
    if 0 <= i < s.len() {
        lemma_pieces_nonempty(s.skip(i + 1), sep);
    }
}

/// Splits `s` at every `sep`.
pub fn split(s: &[u8], sep: u8) -> (parts: Vec<&[u8]>)
    ensures
        views(parts@) == pieces(s@, sep),
{
    let mut parts: Vec<&[u8]> = Vec::new();
    let mut start: usize = 0;
    let mut i: usize = 0;
    proof {
        assert(s@.skip(0) =~= s@);
        assert(views(parts@) + pieces(s@, sep) =~= pieces(s@, sep));
    }
    while i < s.len()
        invariant
            start <= i <= s.len(),
            forall|j: int| start <= j < i ==> s@[j] != sep,
            views(parts@) + pieces(s@.skip(start as int), sep) == pieces(s@, sep),
        decreases s.len() - i,
    {
        if s[i] == sep {
            let ghost rest = s@.skip(start as int);
            let ghost before = views(parts@);
            proof {
                lemma_first_of(rest, sep, i - start);
                assert(rest.take(i - start) =~= s@.subrange(start as int, i as int));
                assert(rest.skip(i - start + 1) =~= s@.skip(i + 1));
            }
            parts.push(slice_subrange(s, start, i));
            proof {
                let piece = s@.subrange(start as int, i as int);
                assert(views(parts@) =~= before.push(piece));
                assert(before.push(piece) + pieces(s@.skip(i + 1), sep) =~= before + (seq![piece]
                    + pieces(s@.skip(i + 1), sep)));
            }
            start = i + 1;
        }
        i += 1;
    }
    let ghost rest = s@.skip(start as int);
    let ghost before = views(parts@);
    proof {
        lemma_first_of(rest, sep, s@.len() - start);
        assert(rest =~= s@.subrange(start as int, s@.len() as int));
    }
    parts.push(slice_subrange(s, start, s.len()));
    proof {
        assert(views(parts@) =~= before.push(rest));
        assert(before.push(rest) =~= before + seq![rest]);
    }
    parts
}

/// The lines of `content`.
pub fn lines(content: &[u8]) -> (r: Vec<&[u8]>)
    ensures
        views(r@) == lines_of(content@),
{
    let parts = split(content, LINE_FEED);
    proof {
        lemma_pieces_nonempty(content@, LINE_FEED);
    }
    let ghost given = pieces(content@, LINE_FEED);
    let ghost ended = given.drop_last().map_values(|l: Seq<u8>| without_carriage_return(l));
    let n: usize = parts.len();
    let mut r: Vec<&[u8]> = Vec::new();
    let mut i: usize = 0;
    while i + 1 < n
        invariant
            n == parts.len(),
            n >= 1,
            i + 1 <= n,
            views(parts@) == given,
            ended == given.drop_last().map_values(|l: Seq<u8>| without_carriage_return(l)),
            views(r@) == ended.take(i as int),
        decreases n - i,
    {
        let part: &[u8] = parts[i];
        let ghost before = views(r@);
        assert(part@ == given[i as int]);
        let m: usize = part.len();
        if m > 0 && part[m - 1] == CARRIAGE_RETURN {
            r.push(slice_subrange(part, 0, m - 1));
            proof {
                assert(part@.subrange(0, m - 1) =~= part@.drop_last());
            }
        } else {
            r.push(part);
        }
        proof {
            assert(views(r@) =~= before.push(without_carriage_return(part@)));
            assert(ended.take(i + 1) =~= ended.take(i as int).push(ended[i as int]));
        }
        i += 1;
    }
    proof {
        assert(ended.take(i as int) =~= ended);
    }
    let last: &[u8] = parts[n - 1];
    assert(last@ == given[n - 1]);
    if last.len() > 0 {
        let ghost before = views(r@);
        r.push(last);
        proof {
            assert(views(r@) =~= before.push(last@));
        }
    }
    r
}

/// The fields of `line`.
pub fn fields(line: &[u8]) -> (r: Vec<&[u8]>)
    ensures
        views(r@) == fields_of(line@),
{
    split(line, TAB)
}

} // verus!
