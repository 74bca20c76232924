//! Finding the columns that a run needs in the header of a log.
//!
//! The header is looked at once. A run needs the column of read lengths and
//! the column that its pass predicate reads; the column of sample tags may be
//! missing, and then there is nothing to say about tags.

use vstd::prelude::*;
use vstd::slice::slice_to_vec;
use crate::bytes::same_bytes;
use crate::error::{Failure, SummaryError};
use crate::number::Decimal;

verus! {

/// The test that tells a passing read from a failing one.
#[derive(Clone, Debug)]
pub enum PassPredicate {
    /// A read passes where the field of `column` is `truthy`, byte for byte.
    Flag { column: Vec<u8>, truthy: Vec<u8> },
    /// A read passes where the score in the field of `column` is `threshold`
    /// or more.
    ///
    /// A score is written as a plain decimal: digits, with at most one `.`
    /// among them and at most one `+` before them, such as `9`, `9.5`, `.5`
    /// or `+12.25`. There is at least one digit, there are at most 19 digits
    /// after the `.`, and all digits read as one whole number fit 64 bits.
    /// Nothing else is a score: no sign `-`, no exponent (`1e1`), no `inf` or
    /// `NaN`, no white space. A field that is not a score ends the run, see
    /// [`SummaryError::MalformedRow`]. Scores are compared as the exact
    /// numbers that are written, so `9.0` and `9` are the same score.
    Score { column: Vec<u8>, threshold: Decimal },
}

impl PassPredicate {
    /// The name of the column that the predicate reads.
    pub open spec fn column(&self) -> Seq<u8> {
        match self {
            PassPredicate::Flag { column, .. } => column@,
            PassPredicate::Score { column, .. } => column@,
        }
    }

    /// The name of the column that the predicate reads.
    pub fn column_name(&self) -> (r: &[u8])
        ensures
            r@ == self.column(),
    {
        match self {
            PassPredicate::Flag { column, .. } => column.as_slice(),
            PassPredicate::Score { column, .. } => column.as_slice(),
        }
    }
}

/// What a run is told before it starts.
#[derive(Clone, Debug)]
pub struct Settings {
    /// The name of the column of read lengths.
    pub length_column: Vec<u8>,
    /// How a passing read is told.
    pub predicate: PassPredicate,
    /// The name of the column of sample tags.
    pub tag_column: Vec<u8>,
    /// The names of the columns that identify the run, the flowcell first.
    pub id_columns: Vec<Vec<u8>>,
    /// From this length on a read counts as long.
    pub length_threshold: u64,
}

/// Where the columns of a run stand in a row.
#[derive(Clone, Copy, Debug, PartialEq, Eq)]
pub struct ColumnIndex {
    /// The index of the read length.
    pub length: usize,
    /// The index of the field that the pass predicate reads.
    pub verdict: usize,
    /// The index of the sample tag, where the header has that column.
    pub tag: Option<usize>,
}

/// The index of the first field of `header` that is `name`.
pub open spec fn position(header: Seq<Seq<u8>>, name: Seq<u8>) -> Option<int> {
    header.index_of_first(name)
}

/// The names of the needed columns that `header` lacks: the length column,
/// then the column of the pass predicate.
pub open spec fn missing(header: Seq<Seq<u8>>, settings: &Settings) -> Seq<Seq<u8>> {
    let length = if position(header, settings.length_column@) is None {
        seq![settings.length_column@]
    } else {
        Seq::<Seq<u8>>::empty()
    };
    let verdict = if position(header, settings.predicate.column()) is None {
        seq![settings.predicate.column()]
    } else {
        Seq::<Seq<u8>>::empty()
    };
    length + verdict
}

/// The first position of each column of `settings` in `header`. It means
/// something where none of the needed columns is missing.
pub open spec fn column_index(header: Seq<Seq<u8>>, settings: &Settings) -> ColumnIndex {
    ColumnIndex {
        length: position(header, settings.length_column@)->0 as usize,
        verdict: position(header, settings.predicate.column())->0 as usize,
        tag: match position(header, settings.tag_column@) {
            Some(at) => Some(at as usize),
            None => None,
        },
    }
}

/// The index of the first of `fields` that is `name`.
pub fn find_column(fields: &Vec<&[u8]>, name: &[u8]) -> (r: Option<usize>)
    ensures
        match r {
            Some(at) => position(crate::table::views(fields@), name@) == Some(at as int),
            None => position(crate::table::views(fields@), name@) is None,
        },
{
    let ghost header = crate::table::views(fields@);
    proof {
        header.index_of_first_ensures(name@);
    }
    let mut i: usize = 0;
    while i < fields.len()
        invariant
            i <= fields.len(),
            header == crate::table::views(fields@),
            forall|k: int| 0 <= k < i ==> header[k] != name@,
        decreases fields.len() - i,
    {
        assert(header[i as int] == fields@[i as int]@);
        if same_bytes(fields[i], name) {
            proof {
                header.index_of_first_ensures(name@);
            }
            return Some(i);
        }
        i += 1;
    }
    None
}

/// Finds the columns of a run in the fields of the header.
///
/// The run can go on where the header has the length column and the column
/// of the pass predicate; otherwise every one of the two that it lacks is
/// named.
pub fn resolve(header: &Vec<&[u8]>, settings: &Settings) -> (r: Result<ColumnIndex, SummaryError>)
    ensures
        match r {
            Ok(index) => {
                &&& missing(crate::table::views(header@), settings).len() == 0
                &&& index == column_index(crate::table::views(header@), settings)
            },
            Err(e) => {
                &&& missing(crate::table::views(header@), settings).len() > 0
                &&& e@ == Failure::MissingColumn {
                    names: missing(crate::table::views(header@), settings),
                }
            },
        },
{
    let length = find_column(header, settings.length_column.as_slice());
    let verdict = find_column(header, settings.predicate.column_name());
    let tag = find_column(header, settings.tag_column.as_slice());
    match (length, verdict) {
        (Some(length), Some(verdict)) => Ok(ColumnIndex { length, verdict, tag }),
        _ => {
            let mut names: Vec<Vec<u8>> = Vec::new();
            if length.is_none() {
                names.push(slice_to_vec(settings.length_column.as_slice()));
            }
            if verdict.is_none() {
                names.push(slice_to_vec(settings.predicate.column_name()));
            }
            let e = SummaryError::MissingColumn { names };
            proof {
                let lacking = missing(crate::table::views(header@), settings);
                assert(e@->MissingColumn_names =~= lacking);
            }
            Err(e)
        },
    }
}

} // verus!
