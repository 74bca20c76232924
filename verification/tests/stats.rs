use summary_metrics::stats::{calculate_mean, calculate_median, calculate_n50, sum_lengths, Ratio};

#[test]
fn n50_walks_down_from_the_longest_read() {
    // 3000 alone misses half of 6500; 3000 + 2000 reaches it.
    assert_eq!(calculate_n50(&[1000, 3000, 500, 2000]), Some(2000));
}

#[test]
fn n50_of_nothing_is_undefined() {
    assert_eq!(calculate_n50(&[]), None);
}

#[test]
fn n50_of_one_read_is_that_read() {
    assert_eq!(calculate_n50(&[7]), Some(7));
}

#[test]
fn n50_of_reads_without_bases_is_the_longest() {
    assert_eq!(calculate_n50(&[0, 0, 0]), Some(0));
}

#[test]
fn n50_counts_equal_lengths_once_each() {
    // Half of 40 is 20: the second 10 from the top reaches it.
    assert_eq!(calculate_n50(&[10, 10, 10, 10]), Some(10));
    // Half of 111 is 55: 100 alone is more.
    assert_eq!(calculate_n50(&[1, 10, 100]), Some(100));
}

#[test]
fn n50_holds_half_of_the_bases_and_no_longer_read_does() {
    let lengths: [u64; 7] = [5, 9, 1, 12, 12, 3, 40];
    let total: u64 = lengths.iter().sum();
    let n50 = calculate_n50(&lengths).unwrap();
    let at_least = |floor: u64| -> u64 { lengths.iter().filter(|l| **l >= floor).sum() };
    assert!(at_least(n50) >= total / 2);
    for l in lengths {
        if l > n50 {
            assert!(at_least(l) < total / 2);
        }
    }
}

#[test]
fn n50_does_not_overflow_on_the_longest_reads() {
    assert_eq!(calculate_n50(&[u64::MAX, u64::MAX, 1]), Some(u64::MAX));
}

#[test]
fn sum_is_exact_beyond_64_bits() {
    assert_eq!(sum_lengths(&[u64::MAX, u64::MAX]), 2 * (u64::MAX as u128));
}

#[test]
fn mean_is_sum_over_count() {
    assert_eq!(calculate_mean(&[1000, 3000, 500, 2000]), Ratio { num: 6500, den: 4 });
}

#[test]
fn mean_of_nothing_is_zero() {
    assert_eq!(calculate_mean(&[]), Ratio { num: 0, den: 1 });
}

#[test]
fn median_of_even_count_is_half_the_middle_sum() {
    let mut lengths = vec![1000, 3000, 500, 2000];
    assert_eq!(calculate_median(&mut lengths), Some(Ratio { num: 3000, den: 2 }));
    assert_eq!(lengths, vec![500, 1000, 2000, 3000]);
}

#[test]
fn median_of_odd_count_is_the_middle_read() {
    let mut lengths = vec![9, 1, 5];
    assert_eq!(calculate_median(&mut lengths), Some(Ratio { num: 5, den: 1 }));
}

#[test]
fn median_of_nothing_is_undefined() {
    let mut lengths: Vec<u64> = Vec::new();
    assert_eq!(calculate_median(&mut lengths), None);
}

#[test]
fn median_of_two_reads_is_their_mean() {
    let mut lengths = vec![70, 30];
    let mean = calculate_mean(&lengths);
    assert_eq!(calculate_median(&mut lengths), Some(mean));
    assert_eq!(mean, Ratio { num: 100, den: 2 });
}

#[test]
fn median_of_the_longest_reads_does_not_overflow() {
    let mut lengths = vec![u64::MAX, u64::MAX];
    assert_eq!(
        calculate_median(&mut lengths),
        Some(Ratio { num: 2 * (u64::MAX as u128), den: 2 })
    );
}

#[test]
fn mean_as_a_float_is_the_quotient() {
    let mean = calculate_mean(&[1000, 3000, 500, 2000]);
    assert_eq!(mean.num as f64 / mean.den as f64, 1625.0);
}
