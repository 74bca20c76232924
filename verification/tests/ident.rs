use summary_metrics::columns::{PassPredicate, Settings};
use summary_metrics::ident::{extract_ids, flowcell_label, token_of_file_name};
use summary_metrics::run::summarize;

fn names() -> Vec<Vec<u8>> {
    vec![b"filename_pod5".to_vec(), b"run_id".to_vec(), b"experiment_id".to_vec(), b"sample_id".to_vec()]
}

fn some(s: &[u8]) -> Option<Vec<u8>> {
    Some(s.to_vec())
}

#[test]
fn identifiers_come_from_the_first_data_row() {
    let header = b"filename_pod5\tlength\trun_id\texperiment_id\tsample_id\n";
    let first = b"PAK1_abc.pod5\t10\tr1\te1\ts1\n";
    assert_eq!(
        extract_ids(b"summary.txt", header, first, &names()),
        Some(vec![some(b"PAK1_abc.pod5"), some(b"r1"), some(b"e1"), some(b"s1")])
    );
}

#[test]
fn a_lone_dash_is_no_identifier() {
    let header = b"filename_pod5\trun_id\texperiment_id\tsample_id";
    let first = b"fc\t-\t--\t-x";
    assert_eq!(
        extract_ids(b"summary.txt", header, first, &names()),
        Some(vec![some(b"fc"), None, some(b"--"), some(b"-x")])
    );
}

#[test]
fn the_file_name_stands_in_for_the_flowcell() {
    let header = b"filename_pod5\trun_id\texperiment_id\tsample_id";
    let first = b"-\tr1\te1\ts1";
    assert_eq!(
        extract_ids(b"/data/run/sequencing_summary_PAK12345_deadbeef.txt", header, first, &names()),
        Some(vec![some(b"PAK12345"), some(b"r1"), some(b"e1"), some(b"s1")])
    );
    // A file name with fewer than three parts has no token.
    assert_eq!(
        extract_ids(b"/data/a_b/summary_x.txt", header, first, &names()),
        Some(vec![None, some(b"r1"), some(b"e1"), some(b"s1")])
    );
}

#[test]
fn a_missing_identifier_column_leaves_only_its_own_identifier_out() {
    let header = b"filename_pod5\trun_id\tsample_id";
    assert_eq!(
        extract_ids(b"a_b_c", header, b"x\ty\tz", &names()),
        Some(vec![some(b"x"), some(b"y"), None, some(b"z")])
    );
}

#[test]
fn without_a_flowcell_column_the_file_name_tells_the_flowcell() {
    let header = b"length\trun_id\tsample_id";
    assert_eq!(
        extract_ids(b"/data/summary_of_FC9_run.txt", header, b"10\tr1\ts1", &names()),
        Some(vec![some(b"FC9"), some(b"r1"), None, some(b"s1")])
    );
    // Neither a column nor a token: the flowcell is not known, the rest is.
    assert_eq!(
        extract_ids(b"summary.txt", header, b"10\tr1\ts1", &names()),
        Some(vec![None, some(b"r1"), None, some(b"s1")])
    );
}

#[test]
fn a_header_without_identifier_columns_gives_empty_places() {
    assert_eq!(extract_ids(b"f", b"a\tb", b"x\ty", &names()), Some(vec![None, None, None, None]));
    assert_eq!(extract_ids(b"a_b_c", b"", b"", &names()), Some(vec![some(b"c"), None, None, None]));
}

#[test]
fn a_short_first_row_leaves_identifiers_out() {
    let header = b"filename_pod5\trun_id\texperiment_id\tsample_id";
    assert_eq!(
        extract_ids(b"f", header, b"fc\tr1", &names()),
        Some(vec![some(b"fc"), some(b"r1"), None, None])
    );
    // Without a data row the first column holds the empty field.
    assert_eq!(extract_ids(b"f", header, b"", &names()), Some(vec![some(b""), None, None, None]));
}

#[test]
fn no_names_give_no_identifiers() {
    assert_eq!(extract_ids(b"a_b_c", b"x", b"y", &Vec::new()), Some(Vec::new()));
}

#[test]
fn lines_are_trimmed_before_they_are_split() {
    let header = b"  filename_pod5\trun_id\texperiment_id\tsample_id \r\n";
    let first = b"\tfc\tr1\te1\ts1\n";
    assert_eq!(
        extract_ids(b"f", header, first, &names()),
        Some(vec![some(b"fc"), some(b"r1"), some(b"e1"), some(b"s1")])
    );
}

#[test]
fn the_token_is_the_third_part_of_the_base_name() {
    assert_eq!(token_of_file_name(b"a_b_c_d"), Some(&b"c"[..]));
    assert_eq!(token_of_file_name(b"x_y_z/a_b"), None);
    assert_eq!(token_of_file_name(b"dir/a__c"), Some(&b"c"[..]));
    assert_eq!(token_of_file_name(b"dir/a_b_"), Some(&b""[..]));
    assert_eq!(token_of_file_name(b""), None);
    assert_eq!(token_of_file_name(b"dir/"), None);
}

#[test]
fn the_flowcell_is_shown_up_to_its_first_underscore() {
    assert_eq!(flowcell_label(b"PAK12345_deadbeef_0.pod5"), b"PAK12345");
    assert_eq!(flowcell_label(b"PAK12345"), b"PAK12345");
    assert_eq!(flowcell_label(b"_x"), b"");
    assert_eq!(flowcell_label(b""), b"");
}

#[test]
fn a_run_reports_its_identifiers() {
    let settings = Settings {
        length_column: b"length".to_vec(),
        predicate: PassPredicate::Flag { column: b"pass".to_vec(), truthy: b"TRUE".to_vec() },
        tag_column: b"tag".to_vec(),
        id_columns: vec![b"flowcell".to_vec(), b"run_id".to_vec()],
        length_threshold: 1,
    };
    let content = b"flowcell\trun_id\tlength\tpass\n-\tr7\t10\tTRUE\nother\tr8\t10\tTRUE\n";
    let s = summarize(b"/x/summary_of_FC9_run.txt", content, &settings).unwrap();
    assert_eq!(s.ids, vec![some(b"FC9"), some(b"r7")]);
    // Without the flowcell column the run is still known, and the file name
    // may still tell the flowcell.
    let content = b"run_id\tlength\tpass\nr7\t10\tTRUE\n";
    assert_eq!(summarize(b"f", content, &settings).unwrap().ids, vec![None, some(b"r7")]);
    assert_eq!(
        summarize(b"/x/summary_of_FC9_run.txt", content, &settings).unwrap().ids,
        vec![some(b"FC9"), some(b"r7")]
    );
}
