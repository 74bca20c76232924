//! One read, as one data row of the log describes it.

use vstd::prelude::*;
use vstd::slice::slice_to_vec;
use crate::bytes::same_bytes;
use crate::columns::{ColumnIndex, PassPredicate};
use crate::error::{Failure, Field, SummaryError};
use crate::number::{parse_decimal, parse_u64, parsed_decimal, parsed_u64, pow10};
use crate::table::views;

verus! {

/// A read: its length in bases, whether it passes, and its sample tag where
/// the row has one.
#[derive(Clone, Copy, Debug, PartialEq, Eq)]
pub struct Row<'a> {
    pub length: u64,
    pub passes: bool,
    pub tag: Option<&'a [u8]>,
}

/// A [`Row`] as contracts speak of it: with the bytes of its tag in place of
/// a borrowed slice.
pub struct Read {
    pub length: u64,
    pub passes: bool,
    pub tag: Option<Seq<u8>>,
}

impl<'a> View for Row<'a> {
    type V = Read;

    open spec fn view(&self) -> Read {
        Read {
            length: self.length,
            passes: self.passes,
            tag: match self.tag {
                Some(t) => Some(t@),
                None => None,
            },
        }
    }
}

/// Which field the pass predicate reads.
pub open spec fn verdict_field(predicate: &PassPredicate) -> Field {
    match predicate {
        PassPredicate::Flag { .. } => Field::Flag,
        PassPredicate::Score { .. } => Field::Score,
    }
}

/// Whether a read passes whose field for the pass predicate holds `field`;
/// nothing where the predicate wants a score and `field` holds none.
pub open spec fn verdict(field: Seq<u8>, predicate: &PassPredicate) -> Option<bool> {
    match predicate {
        PassPredicate::Flag { truthy, .. } => Some(field == truthy@),
        PassPredicate::Score { threshold, .. } => match parsed_decimal(field) {
            Some((digits, scale)) => Some(
                digits * pow10(threshold.spec_scale() as nat) >= threshold.spec_digits() * pow10(
                    scale as nat,
                ),
            ),
            None => None,
        },
    }
}

/// The read that the fields of a data row describe, or the field that stands
/// in the way, with what it holds.
///
/// The length is read first and the field of the pass predicate second; a
/// row that is too short for one of them lacks it, and that field then holds
/// nothing. A row that is too short for the tag column has no tag.
pub open spec fn decoded(fields: Seq<Seq<u8>>, index: ColumnIndex, predicate: &PassPredicate) -> Result<
    Read,
    (Field, Seq<u8>),
> {
    if index.length >= fields.len() {
        Err((Field::Length, Seq::<u8>::empty()))
    } else if parsed_u64(fields[index.length as int]) is None {
        Err((Field::Length, fields[index.length as int]))
    } else if index.verdict >= fields.len() {
        Err((verdict_field(predicate), Seq::<u8>::empty()))
    } else if verdict(fields[index.verdict as int], predicate) is None {
        Err((verdict_field(predicate), fields[index.verdict as int]))
    } else {
        Ok(
            Read {
                length: parsed_u64(fields[index.length as int])->0,
                passes: verdict(fields[index.verdict as int], predicate)->0,
                tag: match index.tag {
                    Some(at) => if at < fields.len() {
                        Some(fields[at as int])
                    } else {
                        None
                    },
                    None => None,
                },
            },
        )
    }
}

/// What [`decode`] answers for row `number`.
pub open spec fn decoded_row(
    fields: Seq<Seq<u8>>,
    index: ColumnIndex,
    predicate: &PassPredicate,
    number: usize,
) -> Result<Read, Failure> {
    match decoded(fields, index, predicate) {
        Ok(read) => Ok(read),
        Err((field, raw)) => Err(Failure::MalformedRow { row: number as nat, field, raw }),
    }
}

/// Whether a read passes whose field for the pass predicate is `field`.
pub fn passes(field: &[u8], predicate: &PassPredicate) -> (r: Option<bool>)
    ensures
        r == verdict(field@, predicate),
{
    match predicate {
        PassPredicate::Flag { truthy, .. } => Some(same_bytes(field, truthy.as_slice())),
        PassPredicate::Score { threshold, .. } => match parse_decimal(field) {
            Some(score) => Some(score.at_least(threshold)),
            None => None,
        },
    }
}

/// Which field the pass predicate reads.
fn field_of(predicate: &PassPredicate) -> (r: Field)
    ensures
        r == verdict_field(predicate),
{
    match predicate {
        PassPredicate::Flag { .. } => Field::Flag,
        PassPredicate::Score { .. } => Field::Score,
    }
}

/// Reads the fields of data row `number`.
pub fn decode<'a>(
    fields: &Vec<&'a [u8]>,
    index: &ColumnIndex,
    predicate: &PassPredicate,
    number: usize,
) -> (r: Result<Row<'a>, SummaryError>)
    ensures
        match r {
            Ok(row) => decoded_row(views(fields@), *index, predicate, number) == Ok::<
                Read,
                Failure,
            >(row@),
            Err(e) => decoded_row(views(fields@), *index, predicate, number) == Err::<
                Read,
                Failure,
            >(e@),
        },
{
    if index.length >= fields.len() {
        return Err(
            SummaryError::MalformedRow { row: number, field: Field::Length, raw: Vec::new() },
        );
    }
    let length_field: &[u8] = fields[index.length];
    assert(length_field@ == views(fields@)[index.length as int]);
    let length: u64 = match parse_u64(length_field) {
        Some(length) => length,
        None => {
            return Err(
                SummaryError::MalformedRow {
                    row: number,
                    field: Field::Length,
                    raw: slice_to_vec(length_field),
                },
            );
        },
    };
    if index.verdict >= fields.len() {
        return Err(
            SummaryError::MalformedRow {
                row: number,
                field: field_of(predicate),
                raw: Vec::new(),
            },
        );
    }
    let verdict_field: &[u8] = fields[index.verdict];
    assert(verdict_field@ == views(fields@)[index.verdict as int]);
    let pass: bool = match passes(verdict_field, predicate) {
        Some(pass) => pass,
        None => {
            return Err(
                SummaryError::MalformedRow {
                    row: number,
                    field: field_of(predicate),
                    raw: slice_to_vec(verdict_field),
                },
            );
        },
    };
    let tag: Option<&'a [u8]> = match index.tag {
        Some(at) => if at < fields.len() {
            assert(fields@[at as int]@ == views(fields@)[at as int]);
            Some(fields[at])
        } else {
            None
        },
        None => None,
    };
    Ok(Row { length, passes: pass, tag })
}

} // verus!
