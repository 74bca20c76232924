//! What ends a run before it has a result.

use vstd::prelude::*;

verus! {

/// The field of a data row that could not be read.
#[derive(Clone, Copy, Debug, PartialEq, Eq, Structural)]
pub enum Field {
    /// The read length.
    Length,
    /// The pass flag.
    Flag,
    /// The quality score.
    Score,
}

/// Why a run was given up. Either ends the run as a whole: nothing is
/// reported of the rows that were read before.
#[derive(Clone, Debug, PartialEq, Eq)]
pub enum SummaryError {
    /// The header lacks columns that the run needs. `names` holds every one
    /// of them, the length column first.
    MissingColumn { names: Vec<Vec<u8>> },
    /// A data row lacks a field that the run needs, or holds something there
    /// that is no number. `row` counts the data rows from one, and `raw` is
    /// what the field holds (nothing where the row is too short).
    ///
    /// A read length is one or more digits, with at most one `+` before
    /// them, that fit 64 bits. A quality score is a plain decimal of at most
    /// 19 digits after the `.` whose digits fit 64 bits; a score with an
    /// exponent, a sign `-`, `inf` or `NaN` is no score here, and gives this
    /// error with the field [`Field::Score`]. A pass flag cannot be
    /// malformed, only missing.
    MalformedRow { row: usize, field: Field, raw: Vec<u8> },
}

/// A [`SummaryError`] as contracts speak of it: with sequences in place of
/// vectors.
pub enum Failure {
    MissingColumn { names: Seq<Seq<u8>> },
    MalformedRow { row: nat, field: Field, raw: Seq<u8> },
}

impl View for SummaryError {
    type V = Failure;

    open spec fn view(&self) -> Failure {
        match self {
            SummaryError::MissingColumn { names } => Failure::MissingColumn {
                names: names@.map_values(|n: Vec<u8>| n@),
            },
            SummaryError::MalformedRow { row, field, raw } => Failure::MalformedRow {
                row: *row as nat,
                field: *field,
                raw: raw@,
            },
        }
    }
}

} // verus!
