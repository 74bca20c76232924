//! Order statistics over a collection of read lengths: N50, mean and median.
//!
//! Every result is exact. A mean or a median that is not a whole number is
//! handed out as a [`Ratio`], so that nothing is rounded before the caller
//! chooses how to print it.

use vstd::prelude::*;
use vstd::relations::{sorted_by, total_ordering};
use vstd::seq_lib::*;
use vstd::slice::*;

verus! {

/// An exact quotient `num / den` of two unsigned integers.
#[derive(Clone, Copy, Debug, PartialEq, Eq, Structural)]
pub struct Ratio {
    pub num: u128,
    pub den: u64,
}

/// The bases held by the reads of `lengths` that are at least `floor` long.
pub open spec fn mass_at_least(lengths: Seq<u64>, floor: u64) -> nat
    decreases lengths.len(),
{
    if lengths.len() == 0 {
        0
    } else {
        let rest: nat = mass_at_least(lengths.drop_last(), floor);
        if lengths.last() >= floor {
            rest + lengths.last() as nat
        } else {
            rest
        }
    }
}

/// The sum of all of `lengths`.
pub open spec fn total(lengths: Seq<u64>) -> nat {
    mass_at_least(lengths, 0)
}

/// No element is followed by a smaller one.
pub open spec fn ascending(lengths: Seq<u64>) -> bool {
    forall|i: int, j: int| 0 <= i <= j < lengths.len() ==> lengths[i] <= lengths[j]
}

/// `l` is the N50 of `lengths`: a length that occurs, such that the reads at
/// least that long hold half of all bases (rounded down), while the reads at
/// least as long as any greater length that occurs hold less.
pub open spec fn is_n50(lengths: Seq<u64>, l: u64) -> bool {
    &&& lengths.contains(l)
    &&& mass_at_least(lengths, l) >= total(lengths) / 2
    &&& forall|x: u64|
        lengths.contains(x) && x > l ==> #[trigger] mass_at_least(lengths, x) < total(lengths) / 2
}

/// The mean of `lengths` as `sum / count`, and `0 / 1` where there is no read.
pub open spec fn mean(lengths: Seq<u64>) -> Ratio {
    if lengths.len() == 0 {
        Ratio { num: 0, den: 1 }
    } else {
        Ratio { num: total(lengths) as u128, den: lengths.len() as u64 }
    }
}

/// The median of lengths that stand in ascending order: the middle one where
/// their number is odd, half the sum of the two middle ones where it is even,
/// and nothing where there is no read.
pub open spec fn median_of_ascending(lengths: Seq<u64>) -> Option<Ratio> {
    let mid: int = lengths.len() as int / 2;
    if lengths.len() == 0 {
        None
    } else if lengths.len() % 2 == 0 {
        Some(Ratio { num: (lengths[mid - 1] + lengths[mid]) as u128, den: 2 })
    } else {
        Some(Ratio { num: lengths[mid] as u128, den: 1 })
    }
}

/// `lengths` in ascending order.
pub open spec fn arranged(lengths: Seq<u64>) -> Seq<u64> {
    lengths.sort_by(|a: u64, b: u64| a <= b)
}

/// The median of `lengths`: that of their ascending arrangement.
pub open spec fn median(lengths: Seq<u64>) -> Option<Ratio> {
    median_of_ascending(arranged(lengths))
}

proof fn lemma_mass_is_fold(lengths: Seq<u64>, floor: u64)
    ensures
        mass_at_least(lengths, floor) == lengths.fold_left(
            0nat,
            |acc: nat, x: u64|
                if x >= floor {
                    acc + x as nat
                } else {
                    acc
                },
        ),
    decreases lengths.len(),
{
    if lengths.len() > 0 {
        lemma_mass_is_fold(lengths.drop_last(), floor);
    }
}

/// The bases at or above a floor do not depend on the order of the reads.
pub proof fn lemma_mass_permutation(a: Seq<u64>, b: Seq<u64>, floor: u64)
    requires
        a.to_multiset() == b.to_multiset(),
    ensures
        mass_at_least(a, floor) == mass_at_least(b, floor),
{
    let f = |acc: nat, x: u64|
        if x >= floor {
            acc + x as nat
        } else {
            acc
        };
    lemma_mass_is_fold(a, floor);
    lemma_mass_is_fold(b, floor);
    assert(commutative_foldl(f));
    lemma_fold_left_permutation(a, b, f, 0nat);
}

/// Two arrangements of the same lengths are equally long and hold the same
/// values.
proof fn lemma_permutation_basics(a: Seq<u64>, b: Seq<u64>)
    requires
        a.to_multiset() == b.to_multiset(),
    ensures
        a.len() == b.len(),
        forall|x: u64| a.contains(x) <==> b.contains(x),
{
    to_multiset_len(a);
    to_multiset_len(b);
    assert forall|x: u64| a.contains(x) <==> b.contains(x) by {
        to_multiset_contains(a, x);
        to_multiset_contains(b, x);
    }
}

/// A sum of `n` lengths is at most `n` times the greatest `u64`.
pub proof fn lemma_total_bound(lengths: Seq<u64>)
    ensures
        total(lengths) <= lengths.len() * 0xffff_ffff_ffff_ffff,
    decreases lengths.len(),
{
    if lengths.len() > 0 {
        lemma_total_bound(lengths.drop_last());
    }
}

/// Where every read from index `i` on is at least `floor` long, the reads at
/// least that long hold at least what stands from `i` on.
proof fn lemma_mass_lower(lengths: Seq<u64>, floor: u64, i: int)
    requires
        0 <= i <= lengths.len(),
        forall|k: int| i <= k < lengths.len() ==> lengths[k] >= floor,
    ensures
        mass_at_least(lengths, floor) >= total(lengths) - total(lengths.take(i)),
    decreases lengths.len(),
{
    if i == lengths.len() {
        assert(lengths.take(i) =~= lengths);
    } else {
        let rest = lengths.drop_last();
        lemma_mass_lower(rest, floor, i);
        assert(rest.take(i) =~= lengths.take(i));
    }
}

/// Where every read before index `j` is shorter than `floor`, the reads at
/// least that long hold at most what stands from `j` on.
proof fn lemma_mass_upper(lengths: Seq<u64>, floor: u64, j: int)
    requires
        0 <= j <= lengths.len(),
        forall|k: int| 0 <= k < j ==> lengths[k] < floor,
    ensures
        mass_at_least(lengths, floor) <= total(lengths) - total(lengths.take(j)),
    decreases lengths.len(),
{
    if lengths.len() == 0 {
        assert(lengths.take(j) =~= lengths);
    } else if j == lengths.len() {
        let rest = lengths.drop_last();
        lemma_mass_upper(rest, floor, j - 1);
        assert(rest.take(j - 1) =~= rest);
        assert(lengths.take(j) =~= lengths);
    } else {
        let rest = lengths.drop_last();
        lemma_mass_upper(rest, floor, j);
        assert(rest.take(j) =~= lengths.take(j));
    }
}

/// A collection has at most one N50.
pub proof fn lemma_n50_unique(lengths: Seq<u64>, a: u64, b: u64)
    requires
        is_n50(lengths, a),
        is_n50(lengths, b),
    ensures
        a == b,
{
    if a < b {
        assert(mass_at_least(lengths, b) < total(lengths) / 2);
    } else if b < a {
        assert(mass_at_least(lengths, a) < total(lengths) / 2);
    }
}

/// The ascending arrangement of `lengths` is ascending, holds the same
/// lengths, each as often, and is the only sequence of which this holds.
pub proof fn lemma_arranged(lengths: Seq<u64>, sorted: Seq<u64>)
    ensures
        ascending(arranged(lengths)),
        arranged(lengths).to_multiset() == lengths.to_multiset(),
        ascending(sorted) && sorted.to_multiset() == lengths.to_multiset() ==> sorted == arranged(
            lengths,
        ),
{
    let leq = |a: u64, b: u64| a <= b;
    assert(total_ordering(leq));
    lengths.lemma_sort_by_ensures(leq);
    let by_rule = arranged(lengths);
    assert(ascending(by_rule)) by {
        assert forall|i: int, j: int| 0 <= i <= j < by_rule.len() implies by_rule[i]
            <= by_rule[j] by {
            if i < j {
                assert(leq(by_rule[i], by_rule[j]));
            }
        }
    }
    if ascending(sorted) && sorted.to_multiset() == lengths.to_multiset() {
        assert(sorted_by(sorted, leq));
        lemma_sorted_unique(sorted, by_rule, leq);
    }
}

/// The median of two lengths is their mean.
pub proof fn lemma_median_of_pair_is_mean(lengths: Seq<u64>)
    requires
        lengths.len() == 2,
    ensures
        median(lengths) == Some(mean(lengths)),
{
    let sorted = arranged(lengths);
    lemma_arranged(lengths, sorted);
    lemma_permutation_basics(sorted, lengths);
    lemma_mass_permutation(sorted, lengths, 0);
    assert(sorted.drop_last().drop_last() =~= Seq::<u64>::empty());
    reveal_with_fuel(mass_at_least, 3);
    assert(total(sorted) == sorted[0] + sorted[1]);
}

/// `<[u64]>::sort` of the standard library, which by its documentation puts
/// the slice in ascending order: afterwards it holds the same lengths as
/// before, each as often as before, and none is followed by a smaller one.
#[verifier::external_body]
fn sort_ascending(lengths: &mut [u64])
    ensures
        ascending(final(lengths)@),
        final(lengths)@.to_multiset() == old(lengths)@.to_multiset(),
{
    lengths.sort();
}

/// The sum of all of `lengths`.
pub fn sum_lengths(lengths: &[u64]) -> (sum: u128)
    ensures
        sum == total(lengths@),
{
    let mut sum: u128 = 0;
    let mut i: usize = 0;
    while i < lengths.len()
        invariant
            i <= lengths.len(),
            sum == total(lengths@.take(i as int)),
        decreases lengths.len() - i,
    {
        proof {
            lemma_total_bound(lengths@.take(i + 1));
            assert(lengths@.take(i + 1).drop_last() =~= lengths@.take(i as int));
        }
        sum = sum + lengths[i] as u128;
        i += 1;
    }
    proof {
        assert(lengths@.take(i as int) =~= lengths@);
    }
    sum
}

/// The N50 of the given read lengths, and `None` where there are none.
///
/// The lengths are put in ascending order and walked from the longest down,
/// adding them up; the first length at which the sum reaches half of all bases
/// (rounded down) is the result.
pub fn calculate_n50(sequence_lengths: &[u64]) -> (r: Option<u64>)
    ensures
        r is None <==> sequence_lengths@.len() == 0,
        r matches Some(l) ==> is_n50(sequence_lengths@, l),
{
    let mut sorted_lengths = slice_to_vec(sequence_lengths);
    sort_ascending(sorted_lengths.as_mut_slice());
    let total_sum: u128 = sum_lengths(sequence_lengths);
    let midpoint: u128 = total_sum / 2;
    let ghost given = sequence_lengths@;
    let ghost sorted = sorted_lengths@;
    proof {
        lemma_permutation_basics(sorted, given);
        lemma_mass_permutation(sorted, given, 0);
        assert(sorted.take(sorted.len() as int) =~= sorted);
    }
    let mut running_sum: u128 = 0;
    let mut i: usize = sorted_lengths.len();
    while i > 0
        invariant
            i <= sorted_lengths.len(),
            sorted_lengths@ == sorted,
            sequence_lengths@ == given,
            ascending(sorted),
            sorted.to_multiset() == given.to_multiset(),
            total(sorted) == total(given),
            total_sum == total(given),
            midpoint == total_sum / 2,
            running_sum == total(sorted) - total(sorted.take(i as int)),
            i < sorted.len() ==> running_sum < midpoint,
        decreases i,
    {
        i -= 1;
        let length: u64 = sorted_lengths[i];
        proof {
            assert(sorted.take(i + 1).drop_last() =~= sorted.take(i as int));
        }
        running_sum += length as u128;
        if running_sum >= midpoint {
            proof {
                lemma_permutation_basics(sorted, given);
                assert(sorted[i as int] == length);
                lemma_mass_lower(sorted, length, i as int);
                lemma_mass_permutation(sorted, given, length);
                assert forall|x: u64| given.contains(x) && x > length implies #[trigger] mass_at_least(
                    given,
                    x,
                ) < total(given) / 2 by {
                    assert(sorted.contains(x));
                    let at: int = choose|at: int| 0 <= at < sorted.len() && sorted[at] == x;
                    assert(at > i);
                    lemma_mass_upper(sorted, x, i + 1);
                    lemma_mass_permutation(sorted, given, x);
                }
            }
            return Some(length);
        }
    }
    proof {
        assert(sorted.take(0) =~= Seq::<u64>::empty());
    }
    None
}

/// The mean of the given read lengths.
pub fn calculate_mean(read_lengths: &[u64]) -> (r: Ratio)
    ensures
        r == mean(read_lengths@),
{
    if read_lengths.len() == 0 {
        return Ratio { num: 0, den: 1 };
    }
    let sum: u128 = sum_lengths(read_lengths);
    Ratio { num: sum, den: read_lengths.len() as u64 }
}

/// Puts the given read lengths in ascending order and returns their median,
/// `None` where there are none.
pub fn calculate_median(read_lengths: &mut [u64]) -> (r: Option<Ratio>)
    ensures
        final(read_lengths)@ == arranged(old(read_lengths)@),
        r == median(old(read_lengths)@),
{
    sort_ascending(read_lengths);
    proof {
        lemma_arranged(old(read_lengths)@, read_lengths@);
    }
    let n: usize = read_lengths.len();
    if n == 0 {
        return None;
    }
    let mid: usize = n / 2;
    if n % 2 == 0 {
        Some(Ratio { num: read_lengths[mid - 1] as u128 + read_lengths[mid] as u128, den: 2 })
    } else {
        Some(Ratio { num: read_lengths[mid] as u128, den: 1 })
    }
}

} // verus!
