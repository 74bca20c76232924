use summary_metrics::aggregate::{Report, TagCount, TagStats};
use summary_metrics::present::{label_breakdown, label_counts, CountLabels};
use summary_metrics::stats::Ratio;

fn report(total_rows: usize, passing_rows: usize, top: Option<u64>) -> Report {
    Report {
        total_rows,
        passing_rows,
        total_bases: 0,
        passing_bases: 0,
        leader: None,
        leader_bases: 0,
        leader_long_bases: 0,
        most_common: top.map(|count| TagCount { tag: b"t".to_vec(), count }),
        most_common_passing: None,
        n50: None,
        mean_all: Ratio { num: 0, den: 1 },
        median_all: None,
        mean_passing: Ratio { num: 0, den: 1 },
        median_passing: None,
    }
}

fn stats(reads: u64, passing_reads: u64) -> TagStats {
    TagStats {
        tag: b"t".to_vec(),
        reads,
        passing_reads,
        bases: 0,
        passing_bases: 0,
        passing_long_bases: 0,
    }
}

#[test]
fn counts_are_grouped_by_three_digits() {
    assert_eq!(
        label_counts(&report(1234567, 999, Some(1000))),
        CountLabels {
            total: "1,234,567".to_string(),
            passing: "999".to_string(),
            most_common: Some("1,000".to_string()),
            most_common_passing: None,
        }
    );
}

#[test]
fn small_counts_have_no_comma() {
    let labels = label_counts(&report(0, 10, Some(100)));
    assert_eq!(labels.total, "0");
    assert_eq!(labels.passing, "10");
    assert_eq!(labels.most_common, Some("100".to_string()));
}

#[test]
fn the_greatest_count_is_grouped_throughout() {
    let labels = label_counts(&report(100000, 10000, Some(u64::MAX)));
    assert_eq!(labels.total, "100,000");
    assert_eq!(labels.passing, "10,000");
    assert_eq!(labels.most_common, Some("18,446,744,073,709,551,615".to_string()));
}

#[test]
fn breakdown_lines_have_their_counts_grouped() {
    assert_eq!(
        label_breakdown(&vec![stats(4096, 12), stats(1000000, 999999)]),
        vec![
            ("4,096".to_string(), "12".to_string()),
            ("1,000,000".to_string(), "999,999".to_string()),
        ]
    );
    assert_eq!(label_breakdown(&Vec::new()), Vec::new());
}
