//! A whole run over the content of a log.
//!
//! The first line is the header. The columns are found in it before any data
//! row is read, and every data row is read in full before the next. The
//! first thing that fails ends the run; there is no partial result.

use vstd::prelude::*;
use crate::aggregate::{is_breakdown, AggregateState, Report, TagStats};
use crate::columns::{column_index, missing, position, resolve, ColumnIndex, PassPredicate, Settings};
use crate::error::{Failure, SummaryError};
use crate::ident::{extract_ids, extracted_ids, ids_view};
use crate::row::{decode, decoded_row, Read};
use crate::table::{fields, fields_of, lines, lines_of, views};

verus! {

/// The fields of the header of `content`; none where it has no line.
pub open spec fn header_of(content: Seq<u8>) -> Seq<Seq<u8>> {
    if lines_of(content).len() == 0 {
        Seq::<Seq<u8>>::empty()
    } else {
        fields_of(lines_of(content)[0])
    }
}

/// The lines of `content` after the header.
pub open spec fn data_lines(content: Seq<u8>) -> Seq<Seq<u8>> {
    if lines_of(content).len() == 0 {
        Seq::<Seq<u8>>::empty()
    } else {
        lines_of(content).skip(1)
    }
}

/// Line `n` of `content`, and the empty line where it has no such line.
pub open spec fn line_or_empty(content: Seq<u8>, n: int) -> Seq<u8> {
    if 0 <= n < lines_of(content).len() {
        lines_of(content)[n]
    } else {
        Seq::<u8>::empty()
    }
}

/// The reads of the data rows `rows`, or what is wrong with the first row
/// that cannot be read. The rows are numbered from one.
pub open spec fn decode_all(rows: Seq<Seq<u8>>, index: ColumnIndex, predicate: &PassPredicate) -> Result<
    Seq<Read>,
    Failure,
>
    decreases rows.len(),
{
    if rows.len() == 0 {
        Ok(Seq::<Read>::empty())
    } else {
        match decode_all(rows.drop_last(), index, predicate) {
            Err(e) => Err(e),
            Ok(reads) => match decoded_row(
                fields_of(rows.last()),
                index,
                predicate,
                rows.len() as usize,
            ) {
                Ok(read) => Ok(reads.push(read)),
                Err(e) => Err(e),
            },
        }
    }
}

/// The reads of `content`, or why it has none: columns that the header
/// lacks, or else the first data row that cannot be read.
pub open spec fn reads_of(content: Seq<u8>, settings: &Settings) -> Result<Seq<Read>, Failure> {
    let header = header_of(content);
    if missing(header, settings).len() > 0 {
        Err(Failure::MissingColumn { names: missing(header, settings) })
    } else {
        decode_all(data_lines(content), column_index(header, settings), &settings.predicate)
    }
}

/// Whether the header of `content` has the column of sample tags.
pub open spec fn has_tag_column(content: Seq<u8>, settings: &Settings) -> bool {
    position(header_of(content), settings.tag_column@) is Some
}

/// The identifiers that `content` and the name of its file give, one place
/// for each of the identifier columns.
pub open spec fn ids_of(file_name: Seq<u8>, content: Seq<u8>, settings: &Settings) -> Seq<
    Option<Seq<u8>>,
> {
    extracted_ids(
        file_name,
        line_or_empty(content, 0),
        line_or_empty(content, 1),
        settings.id_columns@.map_values(|n: Vec<u8>| n@),
    )
}

/// What is wrong with one of the first rows is wrong with the rows as a
/// whole.
proof fn lemma_first_failure(rows: Seq<Seq<u8>>, index: ColumnIndex, predicate: &PassPredicate, k: int)
    requires
        0 <= k <= rows.len(),
        decode_all(rows.take(k), index, predicate) is Err,
    ensures
        decode_all(rows, index, predicate) == decode_all(rows.take(k), index, predicate),
    decreases rows.len() - k,
{
    if k == rows.len() {
        assert(rows.take(k) =~= rows);
    } else {
        assert(rows.take(k + 1).drop_last() =~= rows.take(k));
        lemma_first_failure(rows, index, predicate, k + 1);
    }
}

/// What a run reports.
#[derive(Clone, Debug, PartialEq, Eq)]
pub struct Summary {
    /// The figures of the reads.
    pub report: Report,
    /// Whether the log has the column of sample tags. Where it has not,
    /// nothing that the report says of tags means anything.
    pub has_tags: bool,
    /// The identifiers of the run, one place for each of the identifier
    /// columns. A place is empty where the log does not tell that identifier:
    /// the header lacks the column, or the first data row holds nothing or a
    /// lone `-` there. The flowcell, at the first place, may come from the
    /// name of the file instead.
    pub ids: Vec<Option<Vec<u8>>>,
}

/// The fields of the first of the lines `all`.
fn header_fields<'a>(all: &Vec<&'a [u8]>, Ghost(content): Ghost<Seq<u8>>) -> (header: Vec<&'a [u8]>)
    requires
        views(all@) == lines_of(content),
    ensures
        views(header@) == header_of(content),
{
    if all.len() == 0 {
        let header: Vec<&'a [u8]> = Vec::new();
        assert(views(header@) =~= header_of(content));
        header
    } else {
        let first: &[u8] = all[0];
        assert(first@ == views(all@)[0]);
        fields(first)
    }
}

/// Takes the reads of all lines of `all` but the first.
fn take_rows(
    all: &Vec<&[u8]>,
    index: &ColumnIndex,
    settings: &Settings,
    Ghost(content): Ghost<Seq<u8>>,
) -> (r: Result<AggregateState, SummaryError>)
    requires
        views(all@) == lines_of(content),
        missing(header_of(content), settings).len() == 0,
        *index == column_index(header_of(content), settings),
    ensures
        match r {
            Ok(state) => {
                &&& state.wf()
                &&& state.threshold() == settings.length_threshold
                &&& reads_of(content, settings) == Ok::<Seq<Read>, Failure>(state.rows())
            },
            Err(e) => reads_of(content, settings) == Err::<Seq<Read>, Failure>(e@),
        },
{
    let ghost rows = data_lines(content);
    let mut state = AggregateState::new(settings.length_threshold);
    if all.len() == 0 {
        return Ok(state);
    }
    let mut i: usize = 1;
    proof {
        assert(rows.take(0) =~= Seq::<Seq<u8>>::empty());
    }
    while i < all.len()
        invariant
            1 <= i <= all.len(),
            views(all@) == lines_of(content),
            rows == data_lines(content),
            rows.len() == all.len() - 1,
            state.wf(),
            state.threshold() == settings.length_threshold,
            *index == column_index(header_of(content), settings),
            missing(header_of(content), settings).len() == 0,
            decode_all(rows.take(i - 1), *index, &settings.predicate) == Ok::<Seq<Read>, Failure>(
                state.rows(),
            ),
        decreases all.len() - i,
    {
        let line: &[u8] = all[i];
        assert(line@ == views(all@)[i as int]);
        assert(line@ == rows[i - 1]);
        let row_fields = fields(line);
        proof {
            assert(rows.take(i as int).drop_last() =~= rows.take(i - 1));
            assert(rows.take(i as int).last() == rows[i - 1]);
        }
        match decode(&row_fields, index, &settings.predicate, i) {
            Ok(row) => {
                state.observe(&row);
            },
            Err(e) => {
                proof {
                    lemma_first_failure(rows, *index, &settings.predicate, i as int);
                }
                return Err(e);
            },
        }
        i += 1;
    }
    proof {
        assert(rows.take(i - 1) =~= rows);
    }
    Ok(state)
}

/// Takes all reads of `content`.
pub fn scan(content: &[u8], settings: &Settings) -> (r: Result<AggregateState, SummaryError>)
    ensures
        match r {
            Ok(state) => {
                &&& state.wf()
                &&& state.threshold() == settings.length_threshold
                &&& reads_of(content@, settings) == Ok::<Seq<Read>, Failure>(state.rows())
            },
            Err(e) => reads_of(content@, settings) == Err::<Seq<Read>, Failure>(e@),
        },
{
    let all = lines(content);
    let header = header_fields(&all, Ghost(content@));
    match resolve(&header, settings) {
        Ok(index) => take_rows(&all, &index, settings, Ghost(content@)),
        Err(e) => Err(e),
    }
}

/// Runs over `content` and reports on its reads, with the identifiers that
/// the first data row or the name of the file give.
pub fn summarize(file_name: &[u8], content: &[u8], settings: &Settings) -> (r: Result<
    Summary,
    SummaryError,
>)
    ensures
        match r {
            Ok(summary) => {
                &&& reads_of(content@, settings) is Ok
                &&& summary.report.describes(
                    reads_of(content@, settings)->Ok_0,
                    settings.length_threshold,
                )
                &&& summary.has_tags == has_tag_column(content@, settings)
                &&& ids_view(summary.ids@) == ids_of(file_name@, content@, settings)
            },
            Err(e) => reads_of(content@, settings) == Err::<Seq<Read>, Failure>(e@),
        },
{
    let all = lines(content);
    let header = header_fields(&all, Ghost(content@));
    let index = match resolve(&header, settings) {
        Ok(index) => index,
        Err(e) => {
            return Err(e);
        },
    };
    let state = match take_rows(&all, &index, settings, Ghost(content@)) {
        Ok(state) => state,
        Err(e) => {
            return Err(e);
        },
    };
    let report = state.finish();
    let nothing: Vec<u8> = Vec::new();
    let header_line: &[u8] = if all.len() > 0 {
        assert(all@[0]@ == views(all@)[0]);
        all[0]
    } else {
        nothing.as_slice()
    };
    let first_line: &[u8] = if all.len() > 1 {
        assert(all@[1]@ == views(all@)[1]);
        all[1]
    } else {
        nothing.as_slice()
    };
    proof {
        assert(header_line@ =~= line_or_empty(content@, 0));
        assert(first_line@ =~= line_or_empty(content@, 1));
    }
    let ids = extract_ids(file_name, header_line, first_line, &settings.id_columns).unwrap();
    Ok(Summary { report, has_tags: index.tag.is_some(), ids })
}

/// Runs over `content` and gives the figures of each sample tag, in
/// lexicographic order of the tags.
///
/// There is no such table where the header has no column of sample tags;
/// the answer is then `None`, and no data row is read.
pub fn barcode(content: &[u8], settings: &Settings) -> (r: Result<Option<Vec<TagStats>>, SummaryError>)
    ensures
        match r {
            Ok(Some(table)) => {
                &&& has_tag_column(content@, settings)
                &&& reads_of(content@, settings) is Ok
                &&& is_breakdown(
                    table@,
                    reads_of(content@, settings)->Ok_0,
                    settings.length_threshold,
                )
            },
            Ok(None) => {
                &&& !has_tag_column(content@, settings)
                &&& missing(header_of(content@), settings).len() == 0
            },
            Err(e) => {
                &&& reads_of(content@, settings) == Err::<Seq<Read>, Failure>(e@)
                &&& has_tag_column(content@, settings) || e@ is MissingColumn
            },
        },
{
    let all = lines(content);
    let header = header_fields(&all, Ghost(content@));
    let index = match resolve(&header, settings) {
        Ok(index) => index,
        Err(e) => {
            return Err(e);
        },
    };
    if index.tag.is_none() {
        return Ok(None);
    }
    match take_rows(&all, &index, settings, Ghost(content@)) {
        Ok(state) => Ok(Some(state.breakdown())),
        Err(e) => Err(e),
    }
}

} // verus!
