//! The identifiers of a run: flowcell, run, experiment and sample.
//!
//! They are looked up in the first data row of the log, under column names
//! that the caller gives. Each is looked up by itself: a column that the
//! header lacks, or a lone `-` in the field, says that this identifier is not
//! known, and takes nothing from the others. The first name is that of the
//! flowcell column; where the log does not tell the flowcell, the name of the
//! file may: its third part, counting the parts between underscores.

use vstd::prelude::*;
use vstd::slice::{slice_subrange, slice_to_vec};
use crate::bytes::{trim, trimmed};
use crate::columns::{find_column, position};
use crate::table::{fields, fields_of, first_of, lemma_first_of, lemma_pieces_nonempty, pieces, split, views};

verus! {

/// The byte `-`.
pub const DASH: u8 = 45;

/// The byte `/`.
pub const SLASH: u8 = 47;

/// The byte `_`.
pub const UNDERSCORE: u8 = 95;

/// What each of the given identifiers holds.
pub open spec fn ids_view(ids: Seq<Option<Vec<u8>>>) -> Seq<Option<Seq<u8>>> {
    ids.map_values(
        |id: Option<Vec<u8>>|
            match id {
                Some(bytes) => Some(bytes@),
                None => None,
            },
    )
}

/// The third of the parts between underscores in the last part of a path.
pub open spec fn file_token(file_name: Seq<u8>) -> Option<Seq<u8>> {
    let parts = pieces(pieces(file_name, SLASH).last(), UNDERSCORE);
    if parts.len() > 2 {
        Some(parts[2])
    } else {
        None
    }
}

/// What the row `first` holds in the column `name` of `header`. There is no
/// such value where the header lacks the column, where the row is too short
/// for it, or where the row holds a lone `-` there.
pub open spec fn column_value(header: Seq<Seq<u8>>, first: Seq<Seq<u8>>, name: Seq<u8>) -> Option<
    Seq<u8>,
> {
    match position(header, name) {
        Some(at) => if at < first.len() && first[at] != seq![DASH] {
            Some(first[at])
        } else {
            None
        },
        None => None,
    }
}

/// The identifiers found under `names`, one place for each name.
///
/// Each name has its value from the first data row, or none: a column that
/// the header lacks leaves its own identifier out and no other. Where that
/// leaves the first name without a value, the file name's token stands in
/// for it.
pub open spec fn extracted_ids(
    file_name: Seq<u8>,
    header_line: Seq<u8>,
    first_line: Seq<u8>,
    names: Seq<Seq<u8>>,
) -> Seq<Option<Seq<u8>>> {
    let header = fields_of(trimmed(header_line));
    let first = fields_of(trimmed(first_line));
    let found = Seq::new(names.len(), |i: int| column_value(header, first, names[i]));
    if names.len() > 0 && found[0] is None && file_token(file_name) is Some {
        found.update(0, file_token(file_name))
    } else {
        found
    }
}

/// Each identifier is found by itself. There is one place for each name. A
/// place after the first holds what the first data row holds in the column
/// of its name, and nothing where the header lacks that column, whatever
/// becomes of the other names. The first place holds the same, or else the
/// token of the file name.
pub proof fn lemma_ids_one_by_one(
    file_name: Seq<u8>,
    header_line: Seq<u8>,
    first_line: Seq<u8>,
    names: Seq<Seq<u8>>,
)
    ensures
        extracted_ids(file_name, header_line, first_line, names).len() == names.len(),
        forall|i: int|
            0 < i < names.len() ==> #[trigger] extracted_ids(
                file_name,
                header_line,
                first_line,
                names,
            )[i] == column_value(
                fields_of(trimmed(header_line)),
                fields_of(trimmed(first_line)),
                names[i],
            ),
        forall|i: int|
            0 < i < names.len() && position(fields_of(trimmed(header_line)), names[i]) is None
                ==> #[trigger] extracted_ids(file_name, header_line, first_line, names)[i] is None,
        names.len() > 0 ==> extracted_ids(file_name, header_line, first_line, names)[0] == (
        match column_value(
            fields_of(trimmed(header_line)),
            fields_of(trimmed(first_line)),
            names[0],
        ) {
            Some(value) => Some(value),
            None => file_token(file_name),
        }),
{
}

/// What stands before the first underscore of a flowcell identifier: the
/// form in which it is shown.
pub open spec fn flowcell_label_of(id: Seq<u8>) -> Seq<u8> {
    id.take(first_of(id, UNDERSCORE))
}

/// The third of the parts between underscores in the last part of a path.
pub fn token_of_file_name(file_name: &[u8]) -> (r: Option<&[u8]>)
    ensures
        match r {
            Some(token) => file_token(file_name@) == Some(token@),
            None => file_token(file_name@) is None,
        },
{
    let steps = split(file_name, SLASH);
    proof {
        lemma_pieces_nonempty(file_name@, SLASH);
    }
    let base: &[u8] = steps[steps.len() - 1];
    assert(base@ == views(steps@).last());
    let parts = split(base, UNDERSCORE);
    if parts.len() > 2 {
        let token: &[u8] = parts[2];
        assert(token@ == views(parts@)[2]);
        Some(token)
    } else {
        None
    }
}

/// Looks the identifiers up under `column_names`, given the file's name, its
/// header line and its first data line (empty where the file has none).
///
/// The answer is always `Some`, with one place for each name: an identifier
/// that cannot be found is left out at its place, and the others stand.
pub fn extract_ids(
    file_name: &[u8],
    header_line: &[u8],
    first_line: &[u8],
    column_names: &Vec<Vec<u8>>,
) -> (r: Option<Vec<Option<Vec<u8>>>>)
    ensures
        r is Some,
        ids_view(r->0@) == extracted_ids(
            file_name@,
            header_line@,
            first_line@,
            column_names@.map_values(|n: Vec<u8>| n@),
        ),
{
    let columns = fields(trim(header_line));
    let first = fields(trim(first_line));
    let ghost names = column_names@.map_values(|n: Vec<u8>| n@);
    let ghost header = views(columns@);
    let ghost row = views(first@);
    let mut ids: Vec<Option<Vec<u8>>> = Vec::new();
    let mut i: usize = 0;
    while i < column_names.len()
        invariant
            i <= column_names.len(),
            names == column_names@.map_values(|n: Vec<u8>| n@),
            header == views(columns@),
            row == views(first@),
            ids@.len() == i,
            forall|k: int|
                0 <= k < i ==> (#[trigger] ids_view(ids@)[k]) == column_value(header, row, names[k]),
        decreases column_names.len() - i,
    {
        assert(names[i as int] == column_names@[i as int]@);
        let ghost before = ids@;
        let mut value: Option<Vec<u8>> = None;
        match find_column(&columns, column_names[i].as_slice()) {
            Some(at) => {
                if at < first.len() {
                    let field: &[u8] = first[at];
                    assert(field@ == row[at as int]);
                    if !(field.len() == 1 && field[0] == DASH) {
                        assert(field@ != seq![DASH]) by {
                            if field@.len() == 1 {
                                assert(field@[0] != seq![DASH][0]);
                            }
                        }
                        value = Some(slice_to_vec(field));
                    } else {
                        assert(field@ =~= seq![DASH]);
                    }
                }
            },
            None => {},
        }
        ids.push(value);
        proof {
            assert forall|k: int| 0 <= k < i + 1 implies (#[trigger] ids_view(ids@)[k])
                == column_value(header, row, names[k]) by {
                if k < i {
                    assert(ids_view(ids@)[k] == ids_view(before)[k]);
                }
            }
        }
        i += 1;
    }
    let ghost found = Seq::new(names.len(), |k: int| column_value(header, row, names[k]));
    proof {
        assert(ids_view(ids@) =~= found);
    }
    if ids.len() > 0 && ids[0].is_none() {
        match token_of_file_name(file_name) {
            Some(token) => {
                ids.set(0, Some(slice_to_vec(token)));
                proof {
                    assert(ids_view(ids@) =~= found.update(0, file_token(file_name@)));
                }
            },
            None => {},
        }
    }
    Some(ids)
}

/// The form in which a flowcell identifier is shown: what stands before its
/// first underscore.
pub fn flowcell_label(id: &[u8]) -> (r: &[u8])
    ensures
        r@ == flowcell_label_of(id@),
{
    let mut i: usize = 0;
    while i < id.len() && id[i] != UNDERSCORE
        invariant
            i <= id.len(),
            forall|k: int| 0 <= k < i ==> id@[k] != UNDERSCORE,
        decreases id.len() - i,
    {
        i += 1;
    }
    proof {
        lemma_first_of(id@, UNDERSCORE, i as int);
    }
    slice_subrange(id, 0, i)
}

} // verus!
