//! Counts as they are shown: in decimal, with a comma before every group of
//! three digits.

use num_format::{Locale, ToFormattedString};
use vstd::prelude::*;
use crate::aggregate::{Report, TagCount, TagStats};

verus! {

/// The character of a decimal digit.
pub open spec fn digit(d: nat) -> char {
    seq!['0', '1', '2', '3', '4', '5', '6', '7', '8', '9'][d as int]
}

/// `n` in decimal, its last digit standing `place` digits from the right
/// end of a number, with a comma wherever three more digits follow.
pub open spec fn grouped_from(n: nat, place: nat) -> Seq<char>
    decreases n,
{
    if n < 10 {
        seq![digit(n)]
    } else if (place + 1) % 3 == 0 {
        grouped_from(n / 10, place + 1) + seq![',', digit(n % 10)]
    } else {
        grouped_from(n / 10, place + 1).push(digit(n % 10))
    }
}

/// `n` in decimal, with a comma before every group of three digits: `0`,
/// `999`, `1,000`, `1,234,567`.
pub open spec fn grouped(n: nat) -> Seq<char> {
    grouped_from(n, 0)
}

/// The counts of a report, as they are shown.
#[derive(Clone, Debug, PartialEq, Eq)]
pub struct CountLabels {
    /// The number of reads.
    pub total: String,
    /// The number of passing reads.
    pub passing: String,
    /// The number of reads with the most common tag.
    pub most_common: Option<String>,
    /// The number of passing reads with the tag most common among them.
    pub most_common_passing: Option<String>,
}

/// `to_formatted_string` of the crate num_format, called with `Locale::en`.
/// That locale separates with a comma and groups by three, so the result is
/// the decimal digits of `n` with a comma before every group of three.
#[verifier::external_body]
fn group_digits(n: u64) -> (s: String)
    ensures
        s@ == grouped(n as nat),
{
    n.to_formatted_string(&Locale::en)
}

/// The count of `tag`, as it is shown.
fn label_of(tag: &Option<TagCount>) -> (r: Option<String>)
    ensures
        match r {
            Some(label) => tag is Some && label@ == grouped(tag->0.count as nat),
            None => tag is None,
        },
{
    match tag {
        Some(t) => Some(group_digits(t.count)),
        None => None,
    }
}

/// The counts of `report`, as they are shown.
pub fn label_counts(report: &Report) -> (r: CountLabels)
    ensures
        r.total@ == grouped(report.total_rows as nat),
        r.passing@ == grouped(report.passing_rows as nat),
        match r.most_common {
            Some(label) => report.most_common is Some && label@ == grouped(
                report.most_common->0.count as nat,
            ),
            None => report.most_common is None,
        },
        match r.most_common_passing {
            Some(label) => report.most_common_passing is Some && label@ == grouped(
                report.most_common_passing->0.count as nat,
            ),
            None => report.most_common_passing is None,
        },
{
    CountLabels {
        total: group_digits(report.total_rows as u64),
        passing: group_digits(report.passing_rows as u64),
        most_common: label_of(&report.most_common),
        most_common_passing: label_of(&report.most_common_passing),
    }
}

/// For each line of a breakdown, its number of reads and its number of
/// passing reads, as they are shown.
pub fn label_breakdown(table: &Vec<TagStats>) -> (r: Vec<(String, String)>)
    ensures
        r@.len() == table@.len(),
        forall|i: int|
            0 <= i < r@.len() ==> (#[trigger] r@[i]).0@ == grouped(table@[i].reads as nat) && r@[i].1@
                == grouped(table@[i].passing_reads as nat),
{
    let mut r: Vec<(String, String)> = Vec::new();
    let mut i: usize = 0;
    while i < table.len()
        invariant
            i <= table.len(),
            r@.len() == i,
            forall|k: int|
                0 <= k < i ==> (#[trigger] r@[k]).0@ == grouped(table@[k].reads as nat) && r@[k].1@
                    == grouped(table@[k].passing_reads as nat),
        decreases table.len() - i,
    {
        let reads = group_digits(table[i].reads);
        let passing = group_digits(table[i].passing_reads);
        r.push((reads, passing));
        i += 1;
    }
    r
}

} // verus!
