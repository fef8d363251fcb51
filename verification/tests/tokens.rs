// Tests for the decimal token reader and the common-grid scaling.

use rowpack::decimal::parse_decimal;
use rowpack::decimal::scale_to;

fn parsed(t: &str) -> Option<(u128, usize)> {
    parse_decimal(&t.as_bytes().to_vec())
}

#[test]
fn reads_integers() {
    assert_eq!(parsed("0"), Some((0, 0)));
    assert_eq!(parsed("7"), Some((7, 0)));
    assert_eq!(parsed("1230"), Some((1230, 0)));
    assert_eq!(parsed("00042"), Some((42, 0)));
}

#[test]
fn reads_fractions() {
    assert_eq!(parsed("12.75"), Some((1275, 2)));
    assert_eq!(parsed("0.5"), Some((5, 1)));
    assert_eq!(parsed("007.50"), Some((750, 2)));
    assert_eq!(parsed("1000000000.000001"), Some((1_000_000_000_000_001, 6)));
}

#[test]
fn rejects_malformed_tokens() {
    assert_eq!(parsed(""), None);
    assert_eq!(parsed("."), None);
    assert_eq!(parsed("5."), None);
    assert_eq!(parsed(".5"), None);
    assert_eq!(parsed("1.2.3"), None);
    assert_eq!(parsed("12a"), None);
    assert_eq!(parsed("a12"), None);
    assert_eq!(parsed("-1"), None);
    assert_eq!(parsed("1e9"), None);
    assert_eq!(parsed("1 2"), None);
}

#[test]
fn caps_the_digit_count() {
    let thirty_eight: String = "9".repeat(38);
    let thirty_nine: String = "9".repeat(39);
    assert!(parsed(&thirty_eight).is_some());
    assert_eq!(parsed(&thirty_nine), None);
    let dotted_ok: String = format!("{}.{}", "9".repeat(19), "9".repeat(19));
    let dotted_long: String = format!("{}.{}", "9".repeat(20), "9".repeat(19));
    assert!(parsed(&dotted_ok).is_some());
    assert_eq!(parsed(&dotted_long), None);
}

#[test]
fn scales_to_a_common_grid() {
    assert_eq!(scale_to(1275, 2, 3), Some(12750));
    assert_eq!(scale_to(5, 1, 1), Some(5));
    assert_eq!(scale_to(7, 0, 6), Some(7_000_000));
    assert_eq!(scale_to(5, 1, 0), None);
    assert_eq!(scale_to(u128::MAX, 0, 2), None);
    assert_eq!(scale_to(1 << 64, 0, 0), None);
    assert_eq!(scale_to(u64::MAX as u128, 0, 0), Some(u64::MAX));
}
