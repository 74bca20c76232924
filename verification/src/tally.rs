//! Counting reads, and adding up their bases, by sample tag.
//!
//! A [`Tally`] keeps its tags in lexicographic order, so whatever is read out
//! of it comes in an order that depends on the tags alone, and a tag is found
//! by halving the range in which it can stand.

use vstd::prelude::*;
use vstd::slice::slice_to_vec;
use crate::bytes::{compare, lemma_order_total, lemma_order_transitive, precedes, Rank};

verus! {

/// For each sample tag, how many reads were counted under it and how many
/// bases they hold together.
pub struct Tally {
    tags: Vec<Vec<u8>>,
    counts: Vec<u64>,
    sums: Vec<u128>,
}

impl Tally {
    /// The tags that were counted, in lexicographic order.
    pub closed spec fn tags(&self) -> Seq<Seq<u8>> {
        self.tags@.map_values(|t: Vec<u8>| t@)
    }

    /// The count of each tag of [`Self::tags`], in the same order.
    pub closed spec fn counts(&self) -> Seq<u64> {
        self.counts@
    }

    /// The bases of each tag of [`Self::tags`], in the same order.
    pub closed spec fn sums(&self) -> Seq<u128> {
        self.sums@
    }

    /// Every tag has a count of at least one, and each tag comes before the
    /// next.
    pub open spec fn wf(&self) -> bool {
        &&& self.tags().len() == self.counts().len()
        &&& self.tags().len() == self.sums().len()
        &&& forall|i: int| 0 <= i < self.counts().len() ==> #[trigger] self.counts()[i] >= 1
        &&& forall|i: int, j: int|
            0 <= i < j < self.tags().len() ==> precedes(
                #[trigger] self.tags()[i],
                #[trigger] self.tags()[j],
            )
    }

    /// How many reads were counted under `tag`.
    pub open spec fn count(&self, tag: Seq<u8>) -> nat {
        if self.tags().contains(tag) {
            self.counts()[self.tags().index_of(tag)] as nat
        } else {
            0
        }
    }

    /// How many bases the reads hold that were counted under `tag`.
    pub open spec fn sum(&self, tag: Seq<u8>) -> nat {
        if self.tags().contains(tag) {
            self.sums()[self.tags().index_of(tag)] as nat
        } else {
            0
        }
    }

    /// In a well-formed tally a tag stands at one index only.
    pub proof fn lemma_slot(&self, i: int)
        requires
            self.wf(),
            0 <= i < self.tags().len(),
        ensures
            self.tags().contains(self.tags()[i]),
            self.tags().index_of(self.tags()[i]) == i,
            self.count(self.tags()[i]) == self.counts()[i],
            self.sum(self.tags()[i]) == self.sums()[i],
    {
        let tag = self.tags()[i];
        let j = self.tags().index_of(tag);
        assert(self.tags()[j] == tag);
        lemma_order_total(tag, tag);
        if j < i {
            assert(precedes(self.tags()[j], self.tags()[i]));
        } else if i < j {
            assert(precedes(self.tags()[i], self.tags()[j]));
        }
    }

    /// A tally in which nothing was counted.
    pub fn new() -> (r: Tally)
        ensures
            r.wf(),
            r.tags() == Seq::<Seq<u8>>::empty(),
            forall|tag: Seq<u8>| r.count(tag) == 0 && r.sum(tag) == 0,
    {
        let r = Tally { tags: Vec::new(), counts: Vec::new(), sums: Vec::new() };
        proof {
            assert(r.tags() =~= Seq::<Seq<u8>>::empty());
        }
        r
    }

    /// How many different tags were counted.
    pub fn len(&self) -> (r: usize)
        requires
            self.wf(),
        ensures
            r == self.tags().len(),
    {
        self.tags.len()
    }

    /// The tag at index `i` of the lexicographic order.
    pub fn tag_at(&self, i: usize) -> (r: &[u8])
        requires
            self.wf(),
            i < self.tags().len(),
        ensures
            r@ == self.tags()[i as int],
    {
        self.tags[i].as_slice()
    }

    /// The count and the bases of the tag at index `i` of the lexicographic
    /// order.
    pub fn entry_at(&self, i: usize) -> (r: (u64, u128))
        requires
            self.wf(),
            i < self.tags().len(),
        ensures
            r.0 == self.count(self.tags()[i as int]),
            r.1 == self.sum(self.tags()[i as int]),
            r.0 >= 1,
    {
        proof {
            self.lemma_slot(i as int);
        }
        (self.counts[i], self.sums[i])
    }

    /// Where `tag` stands among the tags, and whether it stands there at all.
    /// Where it does not, the index is the place at which it would be put
    /// in. The tags are in order, so the search halves its range at every
    /// step.
    fn locate(&self, tag: &[u8]) -> (r: (bool, usize))
        requires
            self.wf(),
        ensures
            r.1 <= self.tags().len(),
            forall|k: int| 0 <= k < r.1 ==> precedes(#[trigger] self.tags()[k], tag@),
            r.0 ==> r.1 < self.tags().len() && self.tags()[r.1 as int] == tag@,
            !r.0 ==> forall|k: int|
                r.1 <= k < self.tags().len() ==> precedes(tag@, #[trigger] self.tags()[k]),
            r.0 == self.tags().contains(tag@),
    {
        let mut lo: usize = 0;
        let mut hi: usize = self.tags.len();
        while lo < hi
            invariant
                self.wf(),
                lo <= hi <= self.tags().len(),
                forall|k: int| 0 <= k < lo ==> precedes(#[trigger] self.tags()[k], tag@),
                forall|k: int| hi <= k < self.tags().len() ==> precedes(tag@, #[trigger] self.tags()[k]),
            decreases hi - lo,
        {
            let mid: usize = lo + (hi - lo) / 2;
            let ghost at = self.tags()[mid as int];
            match compare(self.tags[mid].as_slice(), tag) {
                Rank::Less => {
                    proof {
                        assert forall|k: int| 0 <= k < mid + 1 implies precedes(
                            #[trigger] self.tags()[k],
                            tag@,
                        ) by {
                            if k < mid {
                                assert(precedes(self.tags()[k], self.tags()[mid as int]));
                                lemma_order_transitive(self.tags()[k], at, tag@);
                            }
                        }
                    }
                    lo = mid + 1;
                },
                Rank::Equal => {
                    proof {
                        assert forall|k: int| 0 <= k < mid implies precedes(
                            #[trigger] self.tags()[k],
                            tag@,
                        ) by {
                            assert(precedes(self.tags()[k], self.tags()[mid as int]));
                        }
                    }
                    return (true, mid);
                },
                Rank::Greater => {
                    proof {
                        lemma_order_total(tag@, at);
                        assert forall|k: int| mid <= k < self.tags().len() implies precedes(
                            tag@,
                            #[trigger] self.tags()[k],
                        ) by {
                            if k > mid {
                                assert(precedes(self.tags()[mid as int], self.tags()[k]));
                                lemma_order_transitive(tag@, at, self.tags()[k]);
                            }
                        }
                    }
                    hi = mid;
                },
            }
        }
        proof {
            if self.tags().contains(tag@) {
                let k = self.tags().index_of(tag@);
                lemma_order_total(tag@, tag@);
                assert(precedes(self.tags()[k], tag@) || precedes(tag@, self.tags()[k]));
            }
        }
        (false, lo)
    }

    /// How many reads were counted under `tag`, and how many bases they hold.
    pub fn get(&self, tag: &[u8]) -> (r: (u64, u128))
        requires
            self.wf(),
        ensures
            r.0 == self.count(tag@),
            r.1 == self.sum(tag@),
    {
        let (found, i) = self.locate(tag);
        if found {
            proof {
                self.lemma_slot(i as int);
            }
            (self.counts[i], self.sums[i])
        } else {
            (0, 0)
        }
    }

    /// Counts a read of `length` bases under `tag`, and returns how many
    /// reads have been counted under it then.
    pub fn bump(&mut self, tag: &[u8], length: u64) -> (r: u64)
        requires
            old(self).wf(),
            old(self).count(tag@) < u64::MAX,
            old(self).sum(tag@) + length <= u128::MAX,
        ensures
            final(self).wf(),
            r == old(self).count(tag@) + 1,
            final(self).count(tag@) == r,
            final(self).sum(tag@) == old(self).sum(tag@) + length,
            forall|other: Seq<u8>|
                other != tag@ ==> #[trigger] final(self).count(other) == old(self).count(other),
            forall|other: Seq<u8>|
                other != tag@ ==> #[trigger] final(self).sum(other) == old(self).sum(other),
    {
        let ghost before = *self;
        let (found, i) = self.locate(tag);
        if found {
            proof {
                before.lemma_slot(i as int);
            }
            let seen: u64 = self.counts[i] + 1;
            let held: u128 = self.sums[i] + length as u128;
            self.counts.set(i, seen);
            self.sums.set(i, held);
            proof {
                assert(self.tags() == before.tags());
                assert(self.wf());
                self.lemma_slot(i as int);
                assert forall|other: Seq<u8>| other != tag@ implies #[trigger] self.count(other)
                    == before.count(other) by {
                    if self.tags().contains(other) {
                        let j = self.tags().index_of(other);
                        assert(j != i);
                    }
                }
                assert forall|other: Seq<u8>| other != tag@ implies #[trigger] self.sum(other)
                    == before.sum(other) by {
                    if self.tags().contains(other) {
                        let j = self.tags().index_of(other);
                        assert(j != i);
                    }
                }
            }
            seen
        } else {
            self.tags.insert(i, slice_to_vec(tag));
            self.counts.insert(i, 1);
            self.sums.insert(i, length as u128);
            proof {
                lemma_inserted(before, *self, i as int, tag@, length as u128);
            }
            1
        }
    }

    /// The tag under which most reads were counted, with its count; among
    /// tags with equal counts, the one that comes first in lexicographic
    /// order. `None` where nothing was counted.
    pub fn leading(&self) -> (r: Option<(&[u8], u64)>)
        requires
            self.wf(),
        ensures
            r is None <==> self.tags().len() == 0,
            r matches Some((tag, seen)) ==> self.is_leading(tag@, seen as nat),
    {
        if self.tags.len() == 0 {
            return None;
        }
        let mut best: usize = 0;
        let mut i: usize = 1;
        while i < self.tags.len()
            invariant
                self.wf(),
                best < i <= self.tags().len(),
                forall|k: int| 0 <= k < i ==> self.counts()[k] <= self.counts()[best as int],
                forall|k: int| 0 <= k < best ==> self.counts()[k] < self.counts()[best as int],
            decreases self.tags.len() - i,
        {
            if self.counts[i] > self.counts[best] {
                best = i;
            }
            i += 1;
        }
        let seen: u64 = self.counts[best];
        proof {
            self.lemma_slot(best as int);
            let tag = self.tags()[best as int];
            assert forall|other: Seq<u8>| #[trigger] self.count(other) <= seen by {
                if self.tags().contains(other) {
                    let j = self.tags().index_of(other);
                    assert(self.tags()[j] == other);
                }
            }
            assert forall|other: Seq<u8>| #[trigger] self.count(other) == seen implies !precedes(
                other,
                tag,
            ) by {
                assert(self.tags().contains(other));
                let j = self.tags().index_of(other);
                assert(self.tags()[j] == other);
                self.lemma_slot(j);
                lemma_order_total(other, tag);
                if j > best {
                    assert(precedes(self.tags()[best as int], self.tags()[j]));
                }
            }
        }
        Some((self.tags[best].as_slice(), seen))
    }

    /// `tag` was counted `seen` times, no tag more often, and no tag that
    /// was counted as often comes before it.
    pub open spec fn is_leading(&self, tag: Seq<u8>, seen: nat) -> bool {
        &&& seen >= 1
        &&& self.count(tag) == seen
        &&& forall|other: Seq<u8>| #[trigger] self.count(other) <= seen
        &&& forall|other: Seq<u8>| #[trigger] self.count(other) == seen ==> !precedes(other, tag)
    }
}

/// What holds of a tally when a tag that it lacked is put in at its place.
proof fn lemma_inserted(before: Tally, after: Tally, i: int, tag: Seq<u8>, held: u128)
    requires
        before.wf(),
        0 <= i <= before.tags().len(),
        forall|k: int| 0 <= k < i ==> precedes(#[trigger] before.tags()[k], tag),
        i < before.tags().len() ==> precedes(tag, before.tags()[i]),
        after.tags@.len() == before.tags@.len() + 1,
        after.tags@[i]@ == tag,
        after.tags@ == before.tags@.insert(i, after.tags@[i]),
        after.counts@ == before.counts@.insert(i, 1u64),
        after.sums@ == before.sums@.insert(i, held),
    ensures
        after.wf(),
        before.count(tag) == 0,
        before.sum(tag) == 0,
        after.count(tag) == 1,
        after.sum(tag) == held,
        forall|other: Seq<u8>| other != tag ==> #[trigger] after.count(other) == before.count(other),
        forall|other: Seq<u8>| other != tag ==> #[trigger] after.sum(other) == before.sum(other),
{
    let old_tags = before.tags();
    let new_tags = after.tags();
    assert(new_tags =~= old_tags.insert(i, tag));
    assert forall|k: int| i <= k < old_tags.len() implies precedes(tag, #[trigger] old_tags[k]) by {
        if k > i {
            assert(precedes(old_tags[i], old_tags[k]));
            lemma_order_transitive(tag, old_tags[i], old_tags[k]);
        }
    }
    assert forall|a: int, b: int| 0 <= a < b < new_tags.len() implies precedes(
        #[trigger] new_tags[a],
        #[trigger] new_tags[b],
    ) by {
        if a < i && b > i {
            assert(new_tags[a] == old_tags[a]);
            assert(new_tags[b] == old_tags[b - 1]);
            if a < b - 1 {
                assert(precedes(old_tags[a], old_tags[b - 1]));
            }
        } else if a < i && b < i {
            assert(precedes(old_tags[a], old_tags[b]));
        } else if a > i {
            assert(precedes(old_tags[a - 1], old_tags[b - 1]));
        } else if a == i {
            assert(new_tags[b] == old_tags[b - 1]);
        }
    }
    assert(after.wf());
    if old_tags.contains(tag) {
        let j = old_tags.index_of(tag);
        lemma_order_total(tag, tag);
        assert(precedes(old_tags[j], tag) || precedes(tag, old_tags[j]));
    }
    after.lemma_slot(i);
    assert forall|other: Seq<u8>|
        #![trigger after.count(other)]
        #![trigger after.sum(other)]
        other != tag implies after.count(other) == before.count(other) && after.sum(other)
            == before.sum(other) by {
        if old_tags.contains(other) {
            let j = old_tags.index_of(other);
            before.lemma_slot(j);
            let to = if j < i {
                j
            } else {
                j + 1
            };
            assert(new_tags[to] == other);
            after.lemma_slot(to);
        } else if new_tags.contains(other) {
            let j = new_tags.index_of(other);
            assert(j != i);
            let from = if j < i {
                j
            } else {
                j - 1
            };
            assert(old_tags[from] == other);
        }
    }
}

} // verus!
