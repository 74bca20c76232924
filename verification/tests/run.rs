use summary_metrics::aggregate::{AggregateState, Report, TagCount, TagStats};
use summary_metrics::columns::{find_column, resolve, ColumnIndex, PassPredicate, Settings};
use summary_metrics::error::{Field, SummaryError};
use summary_metrics::number::parse_decimal;
use summary_metrics::row::{decode, passes, Row};
use summary_metrics::run::{barcode, scan, summarize};
use summary_metrics::stats::Ratio;
use summary_metrics::table::fields;
use summary_metrics::tally::Tally;

fn flag_settings(threshold: u64) -> Settings {
    Settings {
        length_column: b"length".to_vec(),
        predicate: PassPredicate::Flag { column: b"pass_flag".to_vec(), truthy: b"TRUE".to_vec() },
        tag_column: b"tag".to_vec(),
        id_columns: Vec::new(),
        length_threshold: threshold,
    }
}

fn score_settings(threshold: &[u8]) -> Settings {
    Settings {
        length_column: b"sequence_length_template".to_vec(),
        predicate: PassPredicate::Score {
            column: b"mean_qscore_template".to_vec(),
            threshold: parse_decimal(threshold).unwrap(),
        },
        tag_column: b"barcode_arrangement".to_vec(),
        id_columns: vec![
            b"filename_pod5".to_vec(),
            b"run_id".to_vec(),
            b"experiment_id".to_vec(),
            b"sample_id".to_vec(),
        ],
        length_threshold: 15000,
    }
}

fn report(content: &[u8], settings: &Settings) -> Report {
    summarize(b"log.txt", content, settings).unwrap().report
}

fn tag_count(tag: &[u8], count: u64) -> Option<TagCount> {
    Some(TagCount { tag: tag.to_vec(), count })
}

const FOUR_READS: &[u8] =
    b"pass_flag\tlength\ttag\nTRUE\t1000\tA\nTRUE\t3000\tA\nFALSE\t500\tB\nTRUE\t2000\tB\n";

const LATE_OVERTAKE: &[u8] =
    b"pass_flag\tlength\ttag\nTRUE\t100\tX\nTRUE\t100\tX\nTRUE\t500\tY\nTRUE\t500\tY\nTRUE\t500\tY\n";

#[test]
fn four_reads_counts_and_order_statistics() {
    let r = report(FOUR_READS, &flag_settings(15000));
    assert_eq!(r.total_rows, 4);
    assert_eq!(r.passing_rows, 3);
    assert_eq!(r.total_bases, 6500);
    assert_eq!(r.passing_bases, 6000);
    assert_eq!(r.n50, Some(2000));
    assert_eq!(r.median_all, Some(Ratio { num: 3000, den: 2 }));
    assert_eq!(r.mean_all, Ratio { num: 6500, den: 4 });
    assert_eq!(r.mean_all.num as f64 / r.mean_all.den as f64, 1625.0);
    let median = r.median_all.unwrap();
    assert_eq!(median.num as f64 / median.den as f64, 1500.0);
    assert_eq!(r.mean_passing, Ratio { num: 6000, den: 3 });
    assert_eq!(r.median_passing, Some(Ratio { num: 2000, den: 1 }));
}

#[test]
fn four_reads_tags() {
    let r = report(FOUR_READS, &flag_settings(15000));
    // A leads from the first row on: B never has more passing reads than A
    // was recorded with.
    assert_eq!(r.leader, tag_count(b"A", 2));
    assert_eq!(r.leader_bases, 4000);
    assert_eq!(r.leader_long_bases, 0);
    // Both tags have two reads; the one that comes first is named.
    assert_eq!(r.most_common, tag_count(b"A", 2));
    assert_eq!(r.most_common_passing, tag_count(b"A", 2));
}

#[test]
fn a_late_overtake_counts_one_row_for_the_leader() {
    let r = report(LATE_OVERTAKE, &flag_settings(15000));
    assert_eq!(r.total_rows, 5);
    assert_eq!(r.passing_rows, 5);
    // Y leads at the end, but only the row that took the lead counts for it.
    assert_eq!(r.leader, tag_count(b"Y", 3));
    assert_eq!(r.leader_bases, 500);
    assert_eq!(r.most_common_passing, tag_count(b"Y", 3));
    assert_eq!(r.passing_bases, 1700);
}

fn after(rows: &[(u64, &'static [u8])], threshold: u64) -> Report {
    let mut state = AggregateState::new(threshold);
    for (length, tag) in rows {
        state.observe(&Row { length: *length, passes: true, tag: Some(*tag) });
    }
    state.finish()
}

#[test]
fn the_lead_changes_only_on_a_greater_count() {
    let rows: [(u64, &'static [u8]); 5] =
        [(100, b"X"), (100, b"X"), (500, b"Y"), (500, b"Y"), (500, b"Y")];
    let r = after(&rows[..2], 100);
    assert_eq!(r.leader, tag_count(b"X", 2));
    assert_eq!(r.leader_bases, 200);
    let r = after(&rows[..3], 100);
    assert_eq!(r.leader, tag_count(b"X", 2));
    assert_eq!(r.leader_bases, 200);
    // A tie does not take the lead.
    let r = after(&rows[..4], 100);
    assert_eq!(r.leader, tag_count(b"X", 2));
    assert_eq!(r.leader_bases, 200);
    let r = after(&rows, 100);
    assert_eq!(r.leader, tag_count(b"Y", 3));
    assert_eq!(r.leader_bases, 500);
    assert_eq!(r.leader_long_bases, 500);
}

#[test]
fn a_tag_that_regains_the_lead_starts_anew() {
    let r = after(
        &[(1, b"X"), (2, b"X"), (4, b"Y"), (8, b"Y"), (16, b"Y"), (32, b"X"), (64, b"X")],
        0,
    );
    assert_eq!(r.leader, tag_count(b"X", 4));
    assert_eq!(r.leader_bases, 64);
}

#[test]
fn single_tag_leads_with_all_passing_bases() {
    let content = b"pass_flag\tlength\ttag\nTRUE\t20000\tA\nFALSE\t700\tB\nTRUE\t3000\tA\nTRUE\t15000\tA\nFALSE\t90000\tA\n";
    let r = report(content, &flag_settings(15000));
    assert_eq!(r.leader, tag_count(b"A", 3));
    assert_eq!(r.leader_bases, 38000);
    assert_eq!(r.leader_bases, r.passing_bases);
    // 20000 and 15000 meet the threshold; 3000 does not.
    assert_eq!(r.leader_long_bases, 35000);
}

#[test]
fn failing_rows_do_not_touch_the_leader() {
    let content = b"pass_flag\tlength\ttag\nFALSE\t10\tA\nFALSE\t10\tA\n";
    let r = report(content, &flag_settings(5));
    assert_eq!(r.leader, None);
    assert_eq!(r.leader_bases, 0);
    assert_eq!(r.most_common, tag_count(b"A", 2));
    assert_eq!(r.most_common_passing, None);
    assert_eq!(r.median_passing, None);
    assert_eq!(r.mean_passing, Ratio { num: 0, den: 1 });
}

#[test]
fn malformed_length_aborts_with_the_row() {
    let content = b"pass_flag\tlength\ttag\nTRUE\t1000\tA\nTRUE\tlong\tA\nTRUE\tx\tA\n";
    assert_eq!(
        summarize(b"log.txt", content, &flag_settings(15000)).unwrap_err(),
        SummaryError::MalformedRow { row: 2, field: Field::Length, raw: b"long".to_vec() }
    );
    assert!(scan(content, &flag_settings(15000)).is_err());
    assert!(barcode(content, &flag_settings(15000)).is_err());
}

#[test]
fn a_row_that_is_too_short_is_malformed() {
    let content = b"tag\tpass_flag\tlength\nA\tTRUE\t5\nA\tTRUE\n\n";
    assert_eq!(
        summarize(b"log.txt", content, &flag_settings(15000)).unwrap_err(),
        SummaryError::MalformedRow { row: 2, field: Field::Length, raw: Vec::new() }
    );
    let content = b"length\ttag\tpass_flag\n5\tA\tTRUE\n5\tA\n";
    assert_eq!(
        summarize(b"log.txt", content, &flag_settings(15000)).unwrap_err(),
        SummaryError::MalformedRow { row: 2, field: Field::Flag, raw: Vec::new() }
    );
}

#[test]
fn a_row_without_its_tag_field_has_no_tag() {
    let content = b"length\tpass_flag\ttag\n5\tTRUE\tA\n7\tTRUE\n";
    let r = report(content, &flag_settings(15000));
    assert_eq!(r.total_rows, 2);
    assert_eq!(r.passing_bases, 12);
    assert_eq!(r.most_common, tag_count(b"A", 1));
}

#[test]
fn missing_length_column_aborts_before_any_row() {
    // The second line would be malformed, but it is never read.
    let content = b"pass_flag\ttag\nTRUE\tA\n";
    assert_eq!(
        summarize(b"log.txt", content, &flag_settings(15000)).unwrap_err(),
        SummaryError::MissingColumn { names: vec![b"length".to_vec()] }
    );
}

#[test]
fn every_missing_column_is_named() {
    let content = b"a\tb\nx\ty\n";
    assert_eq!(
        summarize(b"log.txt", content, &score_settings(b"9.0")).unwrap_err(),
        SummaryError::MissingColumn {
            names: vec![b"sequence_length_template".to_vec(), b"mean_qscore_template".to_vec()]
        }
    );
    assert_eq!(
        summarize(b"log.txt", b"length\ttag\n", &flag_settings(1)).unwrap_err(),
        SummaryError::MissingColumn { names: vec![b"pass_flag".to_vec()] }
    );
}

#[test]
fn an_empty_log_has_no_header() {
    assert_eq!(
        summarize(b"log.txt", b"", &flag_settings(1)).unwrap_err(),
        SummaryError::MissingColumn { names: vec![b"length".to_vec(), b"pass_flag".to_vec()] }
    );
}

#[test]
fn a_log_without_data_rows_has_no_data() {
    let s = summarize(b"log.txt", b"pass_flag\tlength\n", &flag_settings(1)).unwrap();
    assert_eq!(s.report.total_rows, 0);
    assert_eq!(s.report.n50, None);
    assert_eq!(s.report.median_all, None);
    assert_eq!(s.report.mean_all, Ratio { num: 0, den: 1 });
    assert!(!s.has_tags);
    assert_eq!(s.report.most_common, None);
}

#[test]
fn the_tag_column_is_optional() {
    let content = b"pass_flag\tlength\nTRUE\t10\nFALSE\t30\n";
    let s = summarize(b"log.txt", content, &flag_settings(1)).unwrap();
    assert!(!s.has_tags);
    assert_eq!(s.report.total_rows, 2);
    assert_eq!(s.report.leader, None);
    assert_eq!(barcode(content, &flag_settings(1)), Ok(None));
    assert!(summarize(b"log.txt", FOUR_READS, &flag_settings(1)).unwrap().has_tags);
}

#[test]
fn without_tag_column_the_breakdown_reads_no_row() {
    let content = b"pass_flag\tlength\nTRUE\tbroken\n";
    assert_eq!(barcode(content, &flag_settings(1)), Ok(None));
    assert!(summarize(b"log.txt", content, &flag_settings(1)).is_err());
}

#[test]
fn scores_pass_at_the_threshold() {
    let content = b"sequence_length_template\tmean_qscore_template\tbarcode_arrangement\n100\t9.0\tb1\n200\t8.999999\tb1\n400\t12.5\tb2\n800\t9\tb2\n";
    let r = report(content, &score_settings(b"9.0"));
    assert_eq!(r.total_rows, 4);
    assert_eq!(r.passing_rows, 3);
    assert_eq!(r.passing_bases, 1300);
    assert_eq!(r.most_common_passing, tag_count(b"b2", 2));
}

#[test]
fn malformed_score_aborts_with_the_row() {
    let content = b"sequence_length_template\tmean_qscore_template\n100\t9.0\n200\thigh\n";
    assert_eq!(
        summarize(b"log.txt", content, &score_settings(b"9.0")).unwrap_err(),
        SummaryError::MalformedRow { row: 2, field: Field::Score, raw: b"high".to_vec() }
    );
}

#[test]
fn the_length_is_read_before_the_score() {
    let content = b"sequence_length_template\tmean_qscore_template\nx\ty\n";
    assert_eq!(
        summarize(b"log.txt", content, &score_settings(b"9.0")).unwrap_err(),
        SummaryError::MalformedRow { row: 1, field: Field::Length, raw: b"x".to_vec() }
    );
}

#[test]
fn breakdown_is_ordered_by_tag() {
    let content = b"pass_flag\tlength\ttag\nTRUE\t20\tzeta\nFALSE\t5\talpha\nTRUE\t7\talpha\nTRUE\t9\tmid\nTRUE\t30\talpha\n";
    let table = barcode(content, &flag_settings(20)).unwrap().unwrap();
    assert_eq!(
        table,
        vec![
            TagStats {
                tag: b"alpha".to_vec(),
                reads: 3,
                passing_reads: 2,
                bases: 42,
                passing_bases: 37,
                passing_long_bases: 30,
            },
            TagStats {
                tag: b"mid".to_vec(),
                reads: 1,
                passing_reads: 1,
                bases: 9,
                passing_bases: 9,
                passing_long_bases: 0,
            },
            TagStats {
                tag: b"zeta".to_vec(),
                reads: 1,
                passing_reads: 1,
                bases: 20,
                passing_bases: 20,
                passing_long_bases: 20,
            },
        ]
    );
}

#[test]
fn breakdown_counts_failing_reads_of_unseen_tags() {
    let content = b"pass_flag\tlength\ttag\nFALSE\t5\tonly\n";
    let table = barcode(content, &flag_settings(1)).unwrap().unwrap();
    assert_eq!(
        table,
        vec![TagStats {
            tag: b"only".to_vec(),
            reads: 1,
            passing_reads: 0,
            bases: 5,
            passing_bases: 0,
            passing_long_bases: 0,
        }]
    );
}

#[test]
fn breakdown_agrees_with_the_state() {
    let state = scan(FOUR_READS, &flag_settings(2000)).unwrap();
    assert_eq!(state.breakdown(), barcode(FOUR_READS, &flag_settings(2000)).unwrap().unwrap());
}

#[test]
fn the_first_of_equal_columns_counts() {
    let header = fields(b"length\tx\tlength");
    assert_eq!(find_column(&header, b"length"), Some(0));
    assert_eq!(find_column(&header, b"x"), Some(1));
    assert_eq!(find_column(&header, b"y"), None);
    assert_eq!(find_column(&header, b"Length"), None);
}

#[test]
fn columns_are_found_wherever_they_stand() {
    let header = fields(b"tag\tother\tlength\tpass_flag");
    assert_eq!(
        resolve(&header, &flag_settings(1)),
        Ok(ColumnIndex { length: 2, verdict: 3, tag: Some(0) })
    );
}

#[test]
fn rows_are_decoded_by_column() {
    let settings = flag_settings(1);
    let index = ColumnIndex { length: 1, verdict: 0, tag: Some(2) };
    let row = fields(b"TRUE\t1000\tA");
    assert_eq!(
        decode(&row, &index, &settings.predicate, 1),
        Ok(Row { length: 1000, passes: true, tag: Some(b"A") })
    );
    let row = fields(b"true\t1000\tA");
    assert_eq!(
        decode(&row, &index, &settings.predicate, 1),
        Ok(Row { length: 1000, passes: false, tag: Some(b"A") })
    );
    assert_eq!(passes(b"TRUE", &settings.predicate), Some(true));
    assert_eq!(passes(b"", &settings.predicate), Some(false));
    assert_eq!(passes(b"", &score_settings(b"9").predicate), None);
}

#[test]
fn most_common_tag_breaks_ties_by_name() {
    let mut tally = Tally::new();
    for tag in [&b"m"[..], b"z", b"a", b"z", b"m"] {
        tally.bump(tag, 10);
    }
    assert_eq!(tally.leading(), Some((&b"m"[..], 2)));
    assert_eq!(tally.get(b"z"), (2, 20));
    assert_eq!(tally.get(b"a"), (1, 10));
    assert_eq!(tally.get(b"q"), (0, 0));
    assert_eq!(tally.len(), 3);
    assert_eq!(tally.tag_at(0), b"a");
    assert_eq!(tally.tag_at(2), b"z");
    assert_eq!(tally.entry_at(1), (2, 20));
    assert_eq!(Tally::new().leading(), None);
}
