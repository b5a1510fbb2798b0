//! Timestamps, numbers and the calendar.
use session_timeline::instant::{civil_days, ts};
use session_timeline::numbers::{read_amount, read_natural, LIMIT};

fn chars(s: &str) -> Vec<char> {
    s.chars().collect()
}

#[test]
fn utc_stamps_are_read() {
    assert_eq!(ts("1970-01-01T00:00:00Z"), Some(0));
    assert_eq!(ts("1970-01-01T00:00:00.000000001Z"), Some(1));
    assert_eq!(ts("2026-09-24T11:30:39.123Z"), Some(1_790_249_439_123_000_000));
    assert_eq!(ts("2026-09-24T11:30:39.123456+00:00"), Some(1_790_249_439_123_456_000));
    assert_eq!(ts("2026-09-24T11:30:39"), Some(1_790_249_439_000_000_000));
    assert_eq!(ts("2026-09-24T11:30:39Z"), Some(1_790_249_439_000_000_000));
    assert_eq!(ts("2026-09-24T11:30:39.5"), Some(1_790_249_439_500_000_000));
    assert_eq!(ts("2000-02-29T00:00:00Z"), Some(951_782_400_000_000_000));
    assert_eq!(ts("1969-12-31T23:59:59Z"), Some(-1_000_000_000));
    assert_eq!(ts("0000-03-01T00:00:00Z"), Some(-719_468 * 86_400_000_000_000));
}

#[test]
fn zoned_stamps_are_read() {
    assert_eq!(ts("1970-01-01T01:00:00+01:00"), Some(0));
    assert_eq!(ts("1970-01-01T00:00:00-01:30"), Some(5_400_000_000_000));
    assert_eq!(ts("1970-01-01T05:30:00+05:30"), Some(0));
    assert_eq!(ts("1970-01-01T02:00:00+02"), Some(0));
    assert_eq!(ts("1970-01-01T02:00:00-02"), Some(7_200_000_000_000), "no colon, no zone");
    assert_eq!(ts("1970-01-01T02:00:00+x:y"), Some(7_200_000_000_000), "no number, no shift");
}

#[test]
fn odd_clocks_are_read() {
    assert_eq!(ts("1970-01-01T00:01Z"), Some(60_000_000_000));
    assert_eq!(ts("  1970-01-01T00:00:01Z\n"), Some(1_000_000_000));
    assert_eq!(ts("1970-1-2T1.5:0:0"), Some(86_400_000_000_000 + 5_400_000_000_000));
    assert_eq!(ts("1970-01-01T00:00:1."), Some(1_000_000_000));
    assert_eq!(ts("1970-01-01T00:00:61"), Some(61_000_000_000));
    assert_eq!(ts("1970-01-01-99T00:00:01:99"), Some(1_000_000_000));
    assert_eq!(ts("1970-01-32T00:00:00Z"), ts("1970-02-01T00:00:00Z"));
}

#[test]
fn garbage_is_no_stamp() {
    for bad in [
        "",
        "not a date",
        "1970-01-01",
        "1970-01-01 00:00:00",
        "T00:00:00Z",
        "1970-01T00:00:00Z",
        "1970-xx-01T00:00:00Z",
        "1970-01-01T",
        "1970-01-01T00",
        "1970-01-01Thh:00:00Z",
        "1970-01-01T00:mm:00Z",
        "1970-01-01T00:00:ss",
        "1970-01-01T00:00:.5",
        "1970-01-01T00:00:1.x",
        "99999999999-01-01T00:00:00Z",
    ] {
        assert_eq!(ts(bad), None, "{bad:?}");
    }
}

#[test]
fn the_calendar_counts_days() {
    assert_eq!(civil_days(1970, 1, 1), 0);
    assert_eq!(civil_days(1970, 1, 2), 1);
    assert_eq!(civil_days(1970, 2, 1), civil_days(1970, 1, 31) + 1);
    assert_eq!(civil_days(1971, 1, 1), civil_days(1970, 12, 31) + 1);
    assert_eq!(civil_days(1900, 3, 1), civil_days(1900, 2, 28) + 1, "no leap year");
    assert_eq!(civil_days(2000, 3, 1), civil_days(2000, 2, 29) + 1, "a leap year");
    assert_eq!(civil_days(2000, 2, 29), civil_days(2000, 2, 28) + 1);
    assert_eq!(civil_days(2001, 1, 1) - civil_days(2000, 1, 1), 366);
    assert_eq!(civil_days(2002, 1, 1) - civil_days(2001, 1, 1), 365);
    assert!(civil_days(1999, 12, 31) < civil_days(2000, 1, 1));
}

#[test]
fn naturals_are_read() {
    assert_eq!(read_natural(&chars("0")), Some(0));
    assert_eq!(read_natural(&chars("+42")), Some(42));
    assert_eq!(read_natural(&chars("0000000000000000000007")), Some(7));
    assert_eq!(read_natural(&chars("2147483647")), Some(2147483647));
    assert_eq!(read_natural(&chars("2147483648")), None);
    assert_eq!(read_natural(&chars("99999999999999999999999")), None);
    assert_eq!(read_natural(&chars("")), None);
    assert_eq!(read_natural(&chars("+")), None);
    assert_eq!(read_natural(&chars("-1")), None);
    assert_eq!(read_natural(&chars("1 ")), None);
}

#[test]
fn amounts_are_read() {
    assert_eq!(read_amount(&chars("1"), 10), Some(10));
    assert_eq!(read_amount(&chars("1.25"), 100), Some(125));
    assert_eq!(read_amount(&chars("1.259"), 100), Some(125));
    assert_eq!(read_amount(&chars(".5"), 10), Some(5));
    assert_eq!(read_amount(&chars("5."), 10), Some(50));
    assert_eq!(read_amount(&chars("007.50"), 2), Some(15));
    for bad in ["", ".", "1.2.3", "x", "+1", "-1", "e5", ".e1", "1e", "1e+", "1e1.5", "1e1e1", "nan"] {
        assert_eq!(read_amount(&chars(bad), 10), None, "{bad:?}");
    }
}

#[test]
fn exponents_are_read() {
    assert_eq!(read_amount(&chars("1e1"), 10), Some(100));
    assert_eq!(read_amount(&chars("1E+2"), 10), Some(1000));
    assert_eq!(read_amount(&chars("125e-2"), 100), Some(125));
    assert_eq!(read_amount(&chars("1.259e1"), 100), Some(1259));
    assert_eq!(read_amount(&chars("12.59e-1"), 100), Some(125));
    assert_eq!(read_amount(&chars("0.0012e5"), 1), Some(120));
    assert_eq!(read_amount(&chars("12345e-4"), 10), Some(12));
    assert_eq!(read_amount(&chars("12345e-5"), 10), Some(1));
    assert_eq!(read_amount(&chars("12345e-6"), 10), Some(0));
    assert_eq!(read_amount(&chars("5e-13"), 3_600_000_000_000), Some(1));
    assert_eq!(read_amount(&chars("0e99999999999999999999999999999999999999999"), 1), Some(0));
    assert_eq!(read_amount(&chars("9e-99999999999999999999999999999999999999999"), 1), Some(0));
    assert_eq!(read_amount(&chars("1e38"), 1), Some(10u128.pow(38)));
    let long = format!("1{}e-400", "0".repeat(400));
    assert_eq!(read_amount(&chars(&long), 7), Some(7));
    let short = format!("0.{}1e401", "0".repeat(400));
    assert_eq!(read_amount(&chars(&short), 7), Some(7));
}

#[test]
fn amounts_end_at_the_limit() {
    let limit = i128::MAX as u128;
    assert_eq!(LIMIT, limit);
    assert_eq!(read_amount(&chars(&limit.to_string()), 1), Some(limit));
    assert_eq!(read_amount(&chars(&(limit - 1).to_string()), 1), Some(limit - 1));
    assert_eq!(read_amount(&chars(&(limit + 1).to_string()), 1), Some(limit));
    for big in ["1e39", "1e400", "9e999999999999999999999999999999999999999", "inf", "INFINITY"] {
        assert_eq!(read_amount(&chars(big), 1), Some(limit), "{big}");
    }
    assert_eq!(read_amount(&chars("1e30"), 3_600_000_000_000), Some(limit));
    assert_eq!(ts("1970-01-01Tinf:00:00Z"), Some(i128::MAX));
    assert_eq!(ts("1969-12-31T1e99:1e99:1e99.5Z"), Some(i128::MAX - 86_400_000_000_000));
    assert_eq!(ts("1970-01-01T00:00:00+inf:00"), Some(-i128::MAX));
    assert_eq!(ts("1970-01-01T00:00:01-inf:inf"), Some(i128::MAX));
    assert_eq!(ts("1970-01-02T00:00:00-inf:-inf"), Some(86_400_000_000_000));
}

#[test]
fn clocks_with_exponents_are_read() {
    assert_eq!(ts("1970-01-01T1e0:0:0Z"), Some(3_600_000_000_000));
    assert_eq!(ts("1970-01-01T00:00:1e1Z"), Some(10_000_000_000));
    assert_eq!(ts("1970-01-01T00:00:1.5e3Z"), Some(501_000_000_000), "the fraction alone");
    assert_eq!(ts("1970-01-01T00:00:1e1.5Z"), Some(10_500_000_000));
    assert_eq!(ts("1970-01-01T00:00:1e-1Z"), None, "the sign starts a zone");
    assert_eq!(ts("1970-01-01T10:00:00+1e+1:00"), Some(0));
    assert_eq!(ts("1970-01-01T01:00:00+10e-1:0.5"), Some(-30_000_000_000));
    assert_eq!(ts("1970-01-01T01:00:00+-1:00"), Some(7_200_000_000_000));
    for nan in ["1970-01-01Tnan:00:00Z", "1970-01-01T00:00:NaN", "1970-01-01T00:00:00+nan:00"] {
        assert_eq!(ts(nan), None, "{nan}");
    }
}
