//! The single pass over the reads of a log.
//!
//! An [`AggregateState`] takes the reads one by one, in the order of the
//! file. What it holds is stated against the sequence of reads that it has
//! taken so far: counts and base totals, the same by sample tag, and the
//! leader among the tags.
//!
//! # The leader
//!
//! The leader is tracked while the reads come in, and it is not the tag with
//! the most passing bases. A passing read makes its tag the leader where it
//! raises that tag's count of passing reads above the count that the leader
//! was recorded with. Where the tag is the leader already, the read's bases
//! are added to the leader's bases. Where it takes the lead from another tag,
//! the leader's bases start anew with this read alone: what the tag held
//! before it took the lead is not brought in, and what the former leader
//! held is dropped. The leader's bases are therefore a running figure of the
//! reads that raised the lead, and say little about the tag as a whole; see
//! [`lead`] for the rule and [`AggregateState::breakdown`] for true totals by
//! tag.

use vstd::prelude::*;
use vstd::slice::slice_to_vec;
use crate::bytes::{precedes, same_bytes};
use crate::row::{Read, Row};
use crate::stats::{
    calculate_mean,
    calculate_median,
    calculate_n50,
    is_n50,
    lemma_total_bound,
    mean,
    median,
    total,
    Ratio,
};
use crate::tally::Tally;

verus! {

/// The lengths of `rows`, in order.
pub open spec fn lengths_of(rows: Seq<Read>) -> Seq<u64> {
    rows.map_values(|r: Read| r.length)
}

/// The bases that `rows` hold together.
pub open spec fn bases(rows: Seq<Read>) -> nat {
    total(lengths_of(rows))
}

/// Those of `rows` that pass.
pub open spec fn passing(rows: Seq<Read>) -> Seq<Read> {
    rows.filter(|r: Read| r.passes)
}

/// Those of `rows` that carry `tag`.
pub open spec fn tagged(rows: Seq<Read>, tag: Seq<u8>) -> Seq<Read> {
    rows.filter(|r: Read| r.tag == Some(tag))
}

/// Those of `rows` that are at least `threshold` long.
pub open spec fn long(rows: Seq<Read>, threshold: u64) -> Seq<Read> {
    rows.filter(|r: Read| r.length >= threshold)
}

/// The leader among the tags, as it stands after some reads.
pub struct Lead {
    /// The leading tag; none before the first passing read with a tag.
    pub tag: Option<Seq<u8>>,
    /// The count of passing reads with which the leader was recorded.
    pub count: nat,
    /// The bases of the reads that raised the lead since the leader took it.
    pub bases: nat,
    /// Those of [`Self::bases`] that stand in reads of the threshold's length
    /// or more.
    pub long_bases: nat,
}

/// The leader after `rows`.
///
/// The last read changes the leader where it passes, has a tag, and makes
/// that tag's count of passing reads greater than the count recorded with
/// the leader before it. The tag is then the leader with its new count. Its
/// bases are the read's own, added to the leader's where the tag led
/// already.
pub open spec fn lead(rows: Seq<Read>, threshold: u64) -> Lead
    decreases rows.len(),
{
    if rows.len() == 0 {
        Lead { tag: None, count: 0, bases: 0, long_bases: 0 }
    } else {
        let before = lead(rows.drop_last(), threshold);
        let row = rows.last();
        if row.passes && row.tag is Some && tagged(passing(rows), row.tag->0).len() > before.count {
            let long_part: nat = if row.length >= threshold {
                row.length as nat
            } else {
                0
            };
            if before.tag == row.tag {
                Lead {
                    tag: row.tag,
                    count: tagged(passing(rows), row.tag->0).len(),
                    bases: before.bases + row.length as nat,
                    long_bases: before.long_bases + long_part,
                }
            } else {
                Lead {
                    tag: row.tag,
                    count: tagged(passing(rows), row.tag->0).len(),
                    bases: row.length as nat,
                    long_bases: long_part,
                }
            }
        } else {
            before
        }
    }
}

/// `tally` holds, for every tag, the number and the bases of those of `rows`
/// that carry it.
pub open spec fn tallies(tally: &Tally, rows: Seq<Read>) -> bool {
    forall|tag: Seq<u8>|
        #![trigger tally.count(tag)]
        #![trigger tally.sum(tag)]
        tally.count(tag) == tagged(rows, tag).len() && tally.sum(tag) == bases(tagged(rows, tag))
}

/// A tag with a number of reads.
#[derive(Clone, Debug, PartialEq, Eq)]
pub struct TagCount {
    pub tag: Vec<u8>,
    pub count: u64,
}

/// `top` is the tag that most of `rows` carry, with their number; among tags
/// that equally many carry, the one that comes first in lexicographic order;
/// and nothing where no row has a tag.
pub open spec fn is_most_common(rows: Seq<Read>, top: Option<TagCount>) -> bool {
    match top {
        Some(t) => {
            &&& t.count >= 1
            &&& tagged(rows, t.tag@).len() == t.count
            &&& forall|other: Seq<u8>| #[trigger] tagged(rows, other).len() <= t.count
            &&& forall|other: Seq<u8>|
                #[trigger] tagged(rows, other).len() == t.count ==> !precedes(other, t.tag@)
        },
        None => forall|other: Seq<u8>| #[trigger] tagged(rows, other).len() == 0,
    }
}

/// What a run has found, once all reads are taken.
#[derive(Clone, Debug, PartialEq, Eq)]
pub struct Report {
    /// The number of reads.
    pub total_rows: usize,
    /// The number of passing reads.
    pub passing_rows: usize,
    /// The bases of all reads.
    pub total_bases: u128,
    /// The bases of the passing reads.
    pub passing_bases: u128,
    /// The leader, with the count of passing reads that it was recorded with.
    pub leader: Option<TagCount>,
    /// The leader's bases.
    pub leader_bases: u128,
    /// The leader's bases in reads of the threshold's length or more.
    pub leader_long_bases: u128,
    /// The tag that most reads carry.
    pub most_common: Option<TagCount>,
    /// The tag that most passing reads carry.
    pub most_common_passing: Option<TagCount>,
    /// The N50 of all reads.
    pub n50: Option<u64>,
    /// The mean length of all reads.
    pub mean_all: Ratio,
    /// The median length of all reads.
    pub median_all: Option<Ratio>,
    /// The mean length of the passing reads.
    pub mean_passing: Ratio,
    /// The median length of the passing reads.
    pub median_passing: Option<Ratio>,
}

impl Report {
    /// The report is the one of `rows`, with reads counting as long from
    /// `threshold` on.
    pub open spec fn describes(&self, rows: Seq<Read>, threshold: u64) -> bool {
        &&& self.total_rows == rows.len()
        &&& self.passing_rows == passing(rows).len()
        &&& self.total_bases == bases(rows)
        &&& self.passing_bases == bases(passing(rows))
        &&& match self.leader {
            Some(l) => lead(rows, threshold).tag == Some(l.tag@) && l.count == lead(
                rows,
                threshold,
            ).count,
            None => lead(rows, threshold).tag is None,
        }
        &&& self.leader_bases == lead(rows, threshold).bases
        &&& self.leader_long_bases == lead(rows, threshold).long_bases
        &&& is_most_common(rows, self.most_common)
        &&& is_most_common(passing(rows), self.most_common_passing)
        &&& self.n50 is None <==> rows.len() == 0
        &&& self.n50 matches Some(l) ==> is_n50(lengths_of(rows), l)
        &&& self.mean_all == mean(lengths_of(rows))
        &&& self.median_all == median(lengths_of(rows))
        &&& self.mean_passing == mean(lengths_of(passing(rows)))
        &&& self.median_passing == median(lengths_of(passing(rows)))
    }
}

/// The figures of one sample tag.
#[derive(Clone, Debug, PartialEq, Eq)]
pub struct TagStats {
    pub tag: Vec<u8>,
    /// The number of reads with the tag.
    pub reads: u64,
    /// The number of passing reads with the tag.
    pub passing_reads: u64,
    /// The bases of the reads with the tag.
    pub bases: u128,
    /// The bases of the passing reads with the tag.
    pub passing_bases: u128,
    /// The bases of the passing reads with the tag that are of the
    /// threshold's length or more.
    pub passing_long_bases: u128,
}

impl TagStats {
    /// The figures are those of the tag among `rows`.
    pub open spec fn describes(&self, rows: Seq<Read>, threshold: u64) -> bool {
        &&& self.reads == tagged(rows, self.tag@).len()
        &&& self.passing_reads == tagged(passing(rows), self.tag@).len()
        &&& self.bases == bases(tagged(rows, self.tag@))
        &&& self.passing_bases == bases(tagged(passing(rows), self.tag@))
        &&& self.passing_long_bases == bases(tagged(long(passing(rows), threshold), self.tag@))
    }
}

/// `table` holds one line for each tag that occurs in `rows`, in
/// lexicographic order of the tags, and each line holds the figures of its
/// tag.
pub open spec fn is_breakdown(table: Seq<TagStats>, rows: Seq<Read>, threshold: u64) -> bool {
    &&& forall|i: int| 0 <= i < table.len() ==> (#[trigger] table[i]).describes(rows, threshold)
    &&& forall|i: int| 0 <= i < table.len() ==> (#[trigger] table[i]).reads >= 1
    &&& forall|i: int, j: int|
        0 <= i < j < table.len() ==> precedes((#[trigger] table[i]).tag@, (#[trigger] table[j]).tag@)
    &&& forall|tag: Seq<u8>|
        tagged(rows, tag).len() > 0 ==> exists|i: int|
            0 <= i < table.len() && (#[trigger] table[i]).tag@ == tag
}

/// What putting one more read after `rows` does to the lengths, the bases
/// and each selection of reads.
pub proof fn lemma_push(rows: Seq<Read>, row: Read)
    ensures
        lengths_of(rows.push(row)) == lengths_of(rows).push(row.length),
        bases(rows.push(row)) == bases(rows) + row.length,
        passing(rows.push(row)) == if row.passes {
            passing(rows).push(row)
        } else {
            passing(rows)
        },
        forall|tag: Seq<u8>| #[trigger]
            tagged(rows.push(row), tag) == if row.tag == Some(tag) {
                tagged(rows, tag).push(row)
            } else {
                tagged(rows, tag)
            },
        forall|threshold: u64| #[trigger]
            long(rows.push(row), threshold) == if row.length >= threshold {
                long(rows, threshold).push(row)
            } else {
                long(rows, threshold)
            },
{
    assert(lengths_of(rows.push(row)) =~= lengths_of(rows).push(row.length));
    assert(lengths_of(rows).push(row.length).drop_last() =~= lengths_of(rows));
    rows.lemma_filter_push(row, |r: Read| r.passes);
    assert forall|tag: Seq<u8>| #[trigger]
        tagged(rows.push(row), tag) == if row.tag == Some(tag) {
            tagged(rows, tag).push(row)
        } else {
            tagged(rows, tag)
        } by {
        rows.lemma_filter_push(row, |r: Read| r.tag == Some(tag));
    }
    assert forall|threshold: u64| #[trigger]
        long(rows.push(row), threshold) == if row.length >= threshold {
            long(rows, threshold).push(row)
        } else {
            long(rows, threshold)
        } by {
        rows.lemma_filter_push(row, |r: Read| r.length >= threshold);
    }
}

/// A selection of reads is no longer than what it was taken from, and reads
/// hold at most the greatest `u64` each.
pub proof fn lemma_bounds(rows: Seq<Read>)
    ensures
        bases(rows) <= rows.len() * 0xffff_ffff_ffff_ffff,
        passing(rows).len() <= rows.len(),
        forall|tag: Seq<u8>| #[trigger] tagged(rows, tag).len() <= rows.len(),
        forall|threshold: u64| #[trigger] long(rows, threshold).len() <= rows.len(),
{
    lemma_total_bound(lengths_of(rows));
    rows.lemma_filter_len(|r: Read| r.passes);
    assert forall|tag: Seq<u8>| #[trigger] tagged(rows, tag).len() <= rows.len() by {
        rows.lemma_filter_len(|r: Read| r.tag == Some(tag));
    }
    assert forall|threshold: u64| #[trigger] long(rows, threshold).len() <= rows.len() by {
        rows.lemma_filter_len(|r: Read| r.length >= threshold);
    }
}

/// The leader's bases are bases of passing reads, and its long bases are
/// among its bases.
pub proof fn lemma_lead_bounds(rows: Seq<Read>, threshold: u64)
    ensures
        lead(rows, threshold).long_bases <= lead(rows, threshold).bases,
        lead(rows, threshold).bases <= bases(passing(rows)),
        lead(rows, threshold).count <= passing(rows).len(),
    decreases rows.len(),
{
    if rows.len() > 0 {
        let rest = rows.drop_last();
        let row = rows.last();
        assert(rows =~= rest.push(row));
        lemma_lead_bounds(rest, threshold);
        lemma_push(rest, row);
        if row.passes {
            lemma_push(passing(rest), row);
            lemma_bounds(passing(rows));
        }
    }
}

/// Where all passing reads carry the same tag, that tag is the leader as
/// soon as a read passes, every passing read counts for it, and the leader's
/// bases are the bases of all passing reads.
pub proof fn lemma_single_tag(rows: Seq<Read>, tag: Seq<u8>, threshold: u64)
    requires
        forall|i: int| 0 <= i < rows.len() && (#[trigger] rows[i]).passes ==> rows[i].tag == Some(tag),
    ensures
        passing(rows).len() > 0 ==> lead(rows, threshold).tag == Some(tag),
        passing(rows).len() == 0 ==> lead(rows, threshold).tag is None,
        lead(rows, threshold).count == passing(rows).len(),
        lead(rows, threshold).bases == bases(passing(rows)),
        lead(rows, threshold).long_bases == bases(long(passing(rows), threshold)),
        tagged(passing(rows), tag) == passing(rows),
    decreases rows.len(),
{
    if rows.len() == 0 {
        assert(passing(rows) =~= Seq::<Read>::empty()) by {
            rows.lemma_filter_len(|r: Read| r.passes);
        }
        assert(tagged(passing(rows), tag) =~= Seq::<Read>::empty()) by {
            lemma_bounds(passing(rows));
        }
        assert(long(passing(rows), threshold) =~= Seq::<Read>::empty()) by {
            lemma_bounds(passing(rows));
        }
        assert(lengths_of(Seq::<Read>::empty()) =~= Seq::<u64>::empty());
    } else {
        let rest = rows.drop_last();
        let row = rows.last();
        assert(rows =~= rest.push(row));
        assert forall|i: int| 0 <= i < rest.len() && (#[trigger] rest[i]).passes implies rest[i].tag
            == Some(tag) by {
            assert(rest[i] == rows[i]);
        }
        lemma_single_tag(rest, tag, threshold);
        lemma_push(rest, row);
        if row.passes {
            assert(row.tag == Some(tag));
            lemma_push(passing(rest), row);
            lemma_push(long(passing(rest), threshold), row);
        }
    }
}

/// A report on reads whose passing reads all carry the same tag names that
/// tag as the leader, with the number and the bases of all passing reads,
/// and with the bases of the long ones among them as the leader's long
/// bases.
pub proof fn lemma_single_tag_report(report: Report, rows: Seq<Read>, tag: Seq<u8>, threshold: u64)
    requires
        report.describes(rows, threshold),
        forall|i: int| 0 <= i < rows.len() && (#[trigger] rows[i]).passes ==> rows[i].tag == Some(tag),
    ensures
        report.leader_bases == report.passing_bases,
        report.leader_long_bases == bases(long(passing(rows), threshold)),
        report.passing_rows == 0 ==> report.leader is None,
        report.passing_rows > 0 ==> report.leader is Some && report.leader->0.tag@ == tag
            && report.leader->0.count == report.passing_rows,
{
    lemma_single_tag(rows, tag, threshold);
}

/// What a run holds while the reads come in.
pub struct AggregateState {
    threshold: u64,
    lengths_all: Vec<u64>,
    lengths_passing: Vec<u64>,
    total_bases: u128,
    passing_bases: u128,
    all_tally: Tally,
    passing_tally: Tally,
    long_tally: Tally,
    leader: Option<Vec<u8>>,
    leader_count: u64,
    leader_bases: u128,
    leader_long_bases: u128,
    rows: Ghost<Seq<Read>>,
}

/// Counts a read under its tag in `tally`.
fn count_under(tally: &mut Tally, tag: &[u8], length: u64, Ghost(rows): Ghost<Seq<Read>>, Ghost(
    row,
): Ghost<Read>) -> (seen: u64)
    requires
        old(tally).wf(),
        tallies(old(tally), rows),
        row.tag == Some(tag@),
        row.length == length,
        rows.len() < usize::MAX,
    ensures
        final(tally).wf(),
        tallies(final(tally), rows.push(row)),
        seen == tagged(rows.push(row), tag@).len(),
{
    proof {
        lemma_bounds(rows);
        lemma_bounds(tagged(rows, tag@));
        lemma_push(rows, row);
        assert(old(tally).count(tag@) == tagged(rows, tag@).len());
        assert(old(tally).sum(tag@) == bases(tagged(rows, tag@)));
        assert(bases(tagged(rows, tag@)) + length <= u128::MAX) by (nonlinear_arith)
            requires
                bases(tagged(rows, tag@)) <= tagged(rows, tag@).len() * 0xffff_ffff_ffff_ffff,
                tagged(rows, tag@).len() <= rows.len(),
                rows.len() < usize::MAX,
                usize::MAX <= 0xffff_ffff_ffff_ffff,
                length <= 0xffff_ffff_ffff_ffff,
        ;
    }
    let seen: u64 = tally.bump(tag, length);
    proof {
        let after = rows.push(row);
        lemma_push(tagged(rows, tag@), row);
        assert forall|other: Seq<u8>|
            #![trigger tally.count(other)]
            #![trigger tally.sum(other)]
            tally.count(other) == tagged(after, other).len() && tally.sum(other) == bases(
                tagged(after, other),
            ) by {
            if other != tag@ {
                assert(old(tally).count(other) == tagged(rows, other).len());
                assert(old(tally).sum(other) == bases(tagged(rows, other)));
            }
        }
    }
    seen
}

/// A read that `tally` does not count leaves it right about the reads.
proof fn lemma_uncounted(tally: &Tally, rows: Seq<Read>, row: Read)
    requires
        tallies(tally, rows),
        row.tag is None,
    ensures
        tallies(tally, rows.push(row)),
{
    lemma_push(rows, row);
    assert forall|other: Seq<u8>|
        #![trigger tally.count(other)]
        #![trigger tally.sum(other)]
        tally.count(other) == tagged(rows.push(row), other).len() && tally.sum(other) == bases(
            tagged(rows.push(row), other),
        ) by {
        assert(tally.count(other) == tagged(rows, other).len());
        assert(tally.sum(other) == bases(tagged(rows, other)));
    }
}

impl AggregateState {
    /// The reads that were taken so far, in order.
    pub closed spec fn rows(&self) -> Seq<Read> {
        self.rows@
    }

    /// The length from which on a read counts as long.
    pub closed spec fn threshold(&self) -> u64 {
        self.threshold
    }

    /// Every figure that the state holds is the one of [`Self::rows`].
    pub closed spec fn wf(&self) -> bool {
        let rows = self.rows@;
        let leader = lead(rows, self.threshold);
        &&& self.lengths_all@ == lengths_of(rows)
        &&& self.lengths_passing@ == lengths_of(passing(rows))
        &&& self.total_bases == bases(rows)
        &&& self.passing_bases == bases(passing(rows))
        &&& self.all_tally.wf()
        &&& self.passing_tally.wf()
        &&& self.long_tally.wf()
        &&& tallies(&self.all_tally, rows)
        &&& tallies(&self.passing_tally, passing(rows))
        &&& tallies(&self.long_tally, long(passing(rows), self.threshold))
        &&& match self.leader {
            Some(tag) => leader.tag == Some(tag@),
            None => leader.tag is None,
        }
        &&& self.leader_count == leader.count
        &&& self.leader_bases == leader.bases
        &&& self.leader_long_bases == leader.long_bases
    }

    /// A state that has taken no read.
    pub fn new(threshold: u64) -> (r: AggregateState)
        ensures
            r.wf(),
            r.rows() == Seq::<Read>::empty(),
            r.threshold() == threshold,
    {
        let r = AggregateState {
            threshold,
            lengths_all: Vec::new(),
            lengths_passing: Vec::new(),
            total_bases: 0,
            passing_bases: 0,
            all_tally: Tally::new(),
            passing_tally: Tally::new(),
            long_tally: Tally::new(),
            leader: None,
            leader_count: 0,
            leader_bases: 0,
            leader_long_bases: 0,
            rows: Ghost(Seq::empty()),
        };
        proof {
            let none = Seq::<Read>::empty();
            lemma_bounds(none);
            assert(passing(none) =~= none);
            lemma_bounds(passing(none));
            assert(long(passing(none), threshold) =~= none);
            assert(lengths_of(none) =~= Seq::<u64>::empty());
            assert forall|tag: Seq<u8>| #[trigger] tagged(none, tag) =~= none by {
                lemma_bounds(none);
            }
        }
        r
    }

    /// Takes one more read.
    pub fn observe(&mut self, row: &Row)
        requires
            old(self).wf(),
        ensures
            final(self).wf(),
            final(self).rows() == old(self).rows().push(row@),
            final(self).threshold() == old(self).threshold(),
    {
        let ghost before = self.rows@;
        let ghost after = before.push(row@);
        let ghost threshold = self.threshold;
        proof {
            lemma_push(before, row@);
            lemma_bounds(before);
            lemma_bounds(passing(before));
            lemma_bounds(after);
            lemma_bounds(passing(after));
            lemma_lead_bounds(after, threshold);
            assert(after.drop_last() =~= before);
        }
        self.lengths_all.push(row.length);
        // A vector holds no more than `usize::MAX` items, so there was room
        // for this one.
        assert(before.len() < usize::MAX) by {
            assert(self.lengths_all.len() == before.len() + 1);
        }
        assert(bases(after) <= u128::MAX) by (nonlinear_arith)
            requires
                bases(after) <= after.len() * 0xffff_ffff_ffff_ffff,
                after.len() <= usize::MAX,
                usize::MAX <= 0xffff_ffff_ffff_ffff,
        ;
        assert(bases(passing(after)) <= u128::MAX) by (nonlinear_arith)
            requires
                bases(passing(after)) <= passing(after).len() * 0xffff_ffff_ffff_ffff,
                passing(after).len() <= after.len(),
                after.len() <= usize::MAX,
                usize::MAX <= 0xffff_ffff_ffff_ffff,
        ;
        self.total_bases = self.total_bases + row.length as u128;
        match row.tag {
            Some(tag) => {
                count_under(&mut self.all_tally, tag, row.length, Ghost(before), Ghost(row@));
            },
            None => {
                proof {
                    lemma_uncounted(&self.all_tally, before, row@);
                }
            },
        }
        if row.passes {
            proof {
                lemma_push(passing(before), row@);
            }
            self.lengths_passing.push(row.length);
            self.passing_bases = self.passing_bases + row.length as u128;
            let is_long: bool = row.length >= self.threshold;
            match row.tag {
                Some(tag) => {
                    let seen: u64 = count_under(
                        &mut self.passing_tally,
                        tag,
                        row.length,
                        Ghost(passing(before)),
                        Ghost(row@),
                    );
                    if is_long {
                        proof {
                            lemma_bounds(long(passing(before), threshold));
                            lemma_push(long(passing(before), threshold), row@);
                        }
                        count_under(
                            &mut self.long_tally,
                            tag,
                            row.length,
                            Ghost(long(passing(before), threshold)),
                            Ghost(row@),
                        );
                    }
                    if seen > self.leader_count {
                        let long_part: u64 = if is_long {
                            row.length
                        } else {
                            0
                        };
                        let led: bool = match &self.leader {
                            Some(leader) => same_bytes(leader.as_slice(), tag),
                            None => false,
                        };
                        if led {
                            self.leader_bases = self.leader_bases + row.length as u128;
                            self.leader_long_bases = self.leader_long_bases + long_part as u128;
                        } else {
                            self.leader = Some(slice_to_vec(tag));
                            self.leader_bases = row.length as u128;
                            self.leader_long_bases = long_part as u128;
                        }
                        self.leader_count = seen;
                    }
                },
                None => {
                    proof {
                        lemma_uncounted(&self.passing_tally, passing(before), row@);
                        if is_long {
                            lemma_uncounted(
                                &self.long_tally,
                                long(passing(before), threshold),
                                row@,
                            );
                        }
                    }
                },
            }
        }
        self.rows = Ghost(after);
    }

    /// The report of the reads that were taken.
    pub fn finish(self) -> (r: Report)
        requires
            self.wf(),
        ensures
            r.describes(self.rows(), self.threshold()),
    {
        let ghost rows = self.rows@;
        let mut state = self;
        let total_rows: usize = state.lengths_all.len();
        let passing_rows: usize = state.lengths_passing.len();
        let most_common = top_of(&state.all_tally, Ghost(rows));
        let most_common_passing = top_of(&state.passing_tally, Ghost(passing(rows)));
        let n50 = calculate_n50(state.lengths_all.as_slice());
        let mean_all = calculate_mean(state.lengths_all.as_slice());
        let mean_passing = calculate_mean(state.lengths_passing.as_slice());
        let median_all = calculate_median(state.lengths_all.as_mut_slice());
        let median_passing = calculate_median(state.lengths_passing.as_mut_slice());
        let leader = match state.leader {
            Some(tag) => Some(TagCount { tag, count: state.leader_count }),
            None => None,
        };
        Report {
            total_rows,
            passing_rows,
            total_bases: state.total_bases,
            passing_bases: state.passing_bases,
            leader,
            leader_bases: state.leader_bases,
            leader_long_bases: state.leader_long_bases,
            most_common,
            most_common_passing,
            n50,
            mean_all,
            median_all,
            mean_passing,
            median_passing,
        }
    }

    /// The figures of each sample tag among the reads that were taken, in
    /// lexicographic order of the tags.
    pub fn breakdown(&self) -> (table: Vec<TagStats>)
        requires
            self.wf(),
        ensures
            is_breakdown(table@, self.rows(), self.threshold()),
    {
        let ghost rows = self.rows@;
        let ghost threshold = self.threshold;
        let mut table: Vec<TagStats> = Vec::new();
        let n: usize = self.all_tally.len();
        let mut i: usize = 0;
        while i < n
            invariant
                self.wf(),
                rows == self.rows@,
                threshold == self.threshold,
                n == self.all_tally.tags().len(),
                i <= n,
                table@.len() == i,
                forall|k: int|
                    0 <= k < i ==> (#[trigger] table@[k]).tag@ == self.all_tally.tags()[k],
                forall|k: int| 0 <= k < i ==> (#[trigger] table@[k]).describes(rows, threshold),
                forall|k: int| 0 <= k < i ==> (#[trigger] table@[k]).reads >= 1,
            decreases n - i,
        {
            let tag: &[u8] = self.all_tally.tag_at(i);
            let all = self.all_tally.entry_at(i);
            let passed = self.passing_tally.get(tag);
            let long_passed = self.long_tally.get(tag);
            table.push(
                TagStats {
                    tag: slice_to_vec(tag),
                    reads: all.0,
                    passing_reads: passed.0,
                    bases: all.1,
                    passing_bases: passed.1,
                    passing_long_bases: long_passed.1,
                },
            );
            i += 1;
        }
        proof {
            assert forall|a: int, b: int| 0 <= a < b < table@.len() implies precedes(
                (#[trigger] table@[a]).tag@,
                (#[trigger] table@[b]).tag@,
            ) by {
                assert(precedes(self.all_tally.tags()[a], self.all_tally.tags()[b]));
            }
            assert forall|tag: Seq<u8>| tagged(rows, tag).len() > 0 implies exists|k: int|
                0 <= k < table@.len() && (#[trigger] table@[k]).tag@ == tag by {
                assert(self.all_tally.count(tag) > 0);
                let k = self.all_tally.tags().index_of(tag);
                assert(table@[k].tag@ == tag);
            }
        }
        table
    }
}

/// The tag that `tally` counted most often.
fn top_of(tally: &Tally, Ghost(rows): Ghost<Seq<Read>>) -> (top: Option<TagCount>)
    requires
        tally.wf(),
        tallies(tally, rows),
    ensures
        is_most_common(rows, top),
{
    match tally.leading() {
        Some((tag, seen)) => {
            let top = TagCount { tag: slice_to_vec(tag), count: seen };
            proof {
                assert(tally.is_leading(tag@, seen as nat));
                assert forall|other: Seq<u8>| #[trigger] tagged(rows, other).len() <= seen by {
                    assert(tally.count(other) <= seen);
                }
                assert forall|other: Seq<u8>| #[trigger] tagged(rows, other).len()
                    == seen implies !precedes(other, tag@) by {
                    assert(tally.count(other) == seen);
                }
            }
            Some(top)
        },
        None => {
            proof {
                assert forall|other: Seq<u8>| #[trigger] tagged(rows, other).len() == 0 by {
                    assert(tally.count(other) == 0);
                }
            }
            None
        },
    }
}

} // verus!
