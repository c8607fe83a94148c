use pyrunner::hash::sha256_string;
use chrono::{Datelike, TimeZone, Utc};
use pyrunner::calendar::year_month;
use pyrunner::paths::{script_identifier, script_storage_path, shorten_hash};

#[test]
fn sha256_is_stable() {
    let left = sha256_string("hello");
    let right = sha256_string("hello");
    assert_eq!(left, right);
    assert_eq!(left.len(), 64);
}

#[test]
fn sha256_changes_with_content() {
    assert_ne!(sha256_string("hello"), sha256_string("world"));
}

#[test]
fn sha256_of_hello_is_the_known_digest() {
    assert_eq!(
        sha256_string("hello"),
        "2cf24dba5fb0a30e26e83b2ac5b9e29e1b161e5c1fa7425e73043362938b9824"
    );
}

#[test]
fn storage_path_uses_year_month_and_short_hash() {
    let now = 1773230401;
    let path = script_storage_path("/tmp/cache", "abcdef1234567890", now);

    assert_eq!(path, "/tmp/cache/scripts/2026-03/abcdef123456_1773230401.py");
}

#[test]
fn identifier_uses_short_hash_and_timestamp() {
    let now = 1773230401;
    assert_eq!(
        script_identifier("abcdef1234567890", now),
        "abcdef123456_1773230401"
    );
}

#[test]
fn short_hash_keeps_short_or_split_hashes_whole() {
    assert_eq!(shorten_hash("abc"), "abc");
    assert_eq!(shorten_hash("abcdefghijkl"), "abcdefghijkl");
    // 11 ASCII bytes then a 2-byte character: 12 bytes would split it
    assert_eq!(shorten_hash("abcdefghijké"), "abcdefghijké");
    assert_eq!(shorten_hash("abcdefghijéxyz"), "abcdefghijé");
}

#[test]
fn dates_are_zero_padded_and_negative_years_signed() {
    assert_eq!(
        script_storage_path("/c/", "h", -61918790395),
        "/c/scripts/0007-11/h_-61918790395.py"
    );
    assert_eq!(
        script_storage_path("/c", "h", -62388054000),
        "/c/scripts/-007-01/h_-62388054000.py"
    );
}

#[test]
fn absolute_file_name_replaces_the_directory() {
    assert_eq!(script_storage_path("/c", "/x", 9), "/x_9.py");
}

use pyrunner::hash::hex_string;

#[test]
fn hex_string_writes_two_lower_case_digits_per_byte() {
    assert_eq!(hex_string(&[0x00, 0xab, 0xff, 0x10]), "00abff10");
    assert_eq!(hex_string(&[]), "");
}

#[test]
fn calendar_months_of_known_moments() {
    assert_eq!(year_month(0), (1970, 1));
    assert_eq!(year_month(-1), (1969, 12));
    assert_eq!(year_month(1773230401), (2026, 3));
    // the last second of February in a leap year, and the next one
    assert_eq!(year_month(951868799), (2000, 2));
    assert_eq!(year_month(951868800), (2000, 3));
    // 1900 is not a leap year
    assert_eq!(year_month(-2203891201), (1900, 2));
    assert_eq!(year_month(-2203891200), (1900, 3));
    assert_eq!(year_month(-61918790395), (7, 11));
    assert_eq!(year_month(-62388054000), (-7, 1));
}

#[test]
fn calendar_agrees_with_chrono() {
    let mut secs: i64 = -8_000_000_000_000;
    while secs < 8_000_000_000_000 {
        let t = Utc.timestamp_opt(secs, 0).single().unwrap();
        assert_eq!(year_month(secs), (t.year() as i64, t.month()), "at {secs}");
        secs += 7_777_777_777;
    }
    for secs in [-86401i64, -86400, -86399, 0, 86399, 86400, 253402300799, 253402300800] {
        let t = Utc.timestamp_opt(secs, 0).single().unwrap();
        assert_eq!(year_month(secs), (t.year() as i64, t.month()), "at {secs}");
    }
}
