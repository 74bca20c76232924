use summary_metrics::bytes::{compare, is_white_byte, same_bytes, trim, Rank};
use summary_metrics::number::{parse_decimal, parse_u64, Decimal};
use summary_metrics::table::{fields, lines, split};

#[test]
fn split_keeps_empty_pieces() {
    assert_eq!(split(b"a,,b,", b','), vec![&b"a"[..], &b""[..], &b"b"[..], &b""[..]]);
    assert_eq!(split(b"", b','), vec![&b""[..]]);
    assert_eq!(split(b"abc", b','), vec![&b"abc"[..]]);
}

#[test]
fn fields_are_split_at_tabs() {
    assert_eq!(fields(b"TRUE\t1000\tA"), vec![&b"TRUE"[..], &b"1000"[..], &b"A"[..]]);
}

#[test]
fn lines_end_at_line_feeds() {
    assert_eq!(lines(b"a\nb\n"), vec![&b"a"[..], &b"b"[..]]);
    assert_eq!(lines(b"a\nb"), vec![&b"a"[..], &b"b"[..]]);
    assert_eq!(lines(b""), Vec::<&[u8]>::new());
    assert_eq!(lines(b"\n"), vec![&b""[..]]);
    assert_eq!(lines(b"a\n\nb"), vec![&b"a"[..], &b""[..], &b"b"[..]]);
}

#[test]
fn carriage_return_belongs_to_the_line_end() {
    assert_eq!(lines(b"a\r\nb\r\n"), vec![&b"a"[..], &b"b"[..]]);
    // Without a line feed after it, a carriage return is part of the line.
    assert_eq!(lines(b"a\r\nb\r"), vec![&b"a"[..], &b"b\r"[..]]);
    assert_eq!(lines(b"a\r\r\n"), vec![&b"a\r"[..]]);
}

#[test]
fn trim_takes_white_space_from_both_ends() {
    assert_eq!(trim(b" \t a b \r\n"), b"a b");
    assert_eq!(trim(b"   "), b"");
    assert_eq!(trim(b""), b"");
    assert_eq!(trim(b"x"), b"x");
    assert!(is_white_byte(11) && is_white_byte(12) && !is_white_byte(b'a') && !is_white_byte(0));
}

#[test]
fn byte_strings_compare_lexicographically() {
    assert_eq!(compare(b"A", b"B"), Rank::Less);
    assert_eq!(compare(b"B", b"A"), Rank::Greater);
    assert_eq!(compare(b"AB", b"AB"), Rank::Equal);
    assert_eq!(compare(b"A", b"AB"), Rank::Less);
    assert_eq!(compare(b"", b""), Rank::Equal);
    assert_eq!(compare(b"barcode10", b"barcode2"), Rank::Less);
    assert!(same_bytes(b"TRUE", b"TRUE"));
    assert!(!same_bytes(b"TRUE", b"true"));
    assert!(!same_bytes(b"TRUE", b"TRU"));
}

#[test]
fn read_lengths_are_digits_after_at_most_one_plus() {
    assert_eq!(parse_u64(b"0"), Some(0));
    assert_eq!(parse_u64(b"1000"), Some(1000));
    assert_eq!(parse_u64(b"007"), Some(7));
    assert_eq!(parse_u64(b"+12"), Some(12));
    assert_eq!(parse_u64(b"18446744073709551615"), Some(u64::MAX));
}

#[test]
fn what_is_no_read_length_is_refused() {
    assert_eq!(parse_u64(b""), None);
    assert_eq!(parse_u64(b"+"), None);
    assert_eq!(parse_u64(b"-1"), None);
    assert_eq!(parse_u64(b"12a"), None);
    assert_eq!(parse_u64(b" 12"), None);
    assert_eq!(parse_u64(b"1.5"), None);
    assert_eq!(parse_u64(b"++1"), None);
    assert_eq!(parse_u64(b"18446744073709551616"), None);
    assert_eq!(parse_u64(b"99999999999999999999999"), None);
}

fn decimal(s: &[u8]) -> (u64, u8) {
    let d = parse_decimal(s).unwrap();
    (d.digits(), d.scale())
}

#[test]
fn scores_are_kept_as_written() {
    assert_eq!(decimal(b"9.0"), (90, 1));
    assert_eq!(decimal(b"9"), (9, 0));
    assert_eq!(decimal(b"9."), (9, 0));
    assert_eq!(decimal(b".5"), (5, 1));
    assert_eq!(decimal(b"+10.25"), (1025, 2));
    assert_eq!(decimal(b"0.000"), (0, 3));
    assert_eq!(decimal(b"12.345678"), (12345678, 6));
}

#[test]
fn what_is_no_score_is_refused() {
    assert!(parse_decimal(b"").is_none());
    assert!(parse_decimal(b".").is_none());
    assert!(parse_decimal(b"+").is_none());
    assert!(parse_decimal(b"1.2.3").is_none());
    assert!(parse_decimal(b"-1.0").is_none());
    assert!(parse_decimal(b"1e3").is_none());
    assert!(parse_decimal(b"abc").is_none());
    assert!(parse_decimal(b"9,5").is_none());
    // Too many digits after the point, or too many digits in all.
    assert!(parse_decimal(b"0.00000000000000000001").is_none());
    assert!(parse_decimal(b"184467440737095516.16").is_none());
    assert!(parse_decimal(b"0.1234567890123456789").is_some());
}

#[test]
fn scores_compare_as_numbers() {
    let at_least = |a: &[u8], b: &[u8]| parse_decimal(a).unwrap().at_least(&parse_decimal(b).unwrap());
    assert!(at_least(b"9.0", b"9"));
    assert!(at_least(b"9", b"9.000"));
    assert!(at_least(b"9.01", b"9.0"));
    assert!(!at_least(b"8.999", b"9.0"));
    assert!(at_least(b"10", b"9.99"));
    assert!(at_least(b"0.9", b"0.1000"));
    assert!(!at_least(b"0.09", b"0.1"));
    assert!(at_least(b"18446744073709551615", b"0.0000000000000000001"));
    assert!(!at_least(b"0.0000000000000000001", b"18446744073709551615"));
}

#[test]
fn a_decimal_has_at_most_nineteen_places() {
    assert!(Decimal::new(1, 19).is_some());
    assert!(Decimal::new(1, 20).is_none());
    let d = Decimal::new(95, 1).unwrap();
    assert_eq!((d.digits(), d.scale()), (95, 1));
}
