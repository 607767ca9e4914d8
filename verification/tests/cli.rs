use prompt_bom::cli::{civil_date, derive_namespace, format_iso_utc, tool_id};
use prompt_bom::error::{exit_code_for, AppError};

#[test]
fn civil_date_unix_epoch() {
    assert_eq!(civil_date(0), (1970, 1, 1));
}

#[test]
fn civil_date_y2k() {
    assert_eq!(civil_date(10_957), (2000, 1, 1));
}

#[test]
fn civil_date_leap_day() {
    assert_eq!(civil_date(11_016), (2000, 2, 29));
}

#[test]
fn civil_date_before_the_epoch() {
    assert_eq!(civil_date(-1), (1969, 12, 31));
    assert_eq!(civil_date(-719_468), (0, 3, 1));
    assert_eq!(civil_date(-719_469), (0, 2, 29));
}

#[test]
fn civil_date_century_is_not_leap() {
    // 2100-02-28 then 2100-03-01.
    assert_eq!(civil_date(47_540), (2100, 2, 28));
    assert_eq!(civil_date(47_541), (2100, 3, 1));
}

#[test]
fn format_iso_utc_unix_epoch() {
    assert_eq!(format_iso_utc(0), "1970-01-01T00:00:00Z");
}

#[test]
fn format_iso_utc_y2k() {
    assert_eq!(format_iso_utc(946_684_800), "2000-01-01T00:00:00Z");
}

#[test]
fn format_iso_utc_time_of_day_and_negative_seconds() {
    assert_eq!(format_iso_utc(1_777_420_805), "2026-04-29T00:00:05Z");
    assert_eq!(format_iso_utc(86_399), "1970-01-01T23:59:59Z");
    assert_eq!(format_iso_utc(-1), "1969-12-31T23:59:59Z");
    assert_eq!(format_iso_utc(-62_167_219_200 - 86_400), "-001-12-31T00:00:00Z");
}

#[test]
fn format_iso_utc_extreme_inputs_do_not_panic() {
    assert!(format_iso_utc(i64::MIN).ends_with('Z'));
    assert!(format_iso_utc(i64::MAX).ends_with('Z'));
}

#[test]
fn derive_namespace_is_deterministic_and_prefixed() {
    let a = derive_namespace("foo", "2026-05-02T00:00:00Z");
    let b = derive_namespace("foo", "2026-05-02T00:00:00Z");
    assert_eq!(a, b);
    assert!(a.starts_with("https://verepdev.github.io/foo/"));
}

#[test]
fn derive_namespace_ends_with_sixteen_hex_digits_of_the_digest() {
    let a = derive_namespace("foo", "2026-05-02T00:00:00Z");
    let digest = blake3::hash(b"foo|2026-05-02T00:00:00Z").to_hex().to_string();
    assert_eq!(a, format!("https://verepdev.github.io/foo/{}", &digest[..16]));
    assert_ne!(a, derive_namespace("foo", "2026-05-03T00:00:00Z"));
}

#[test]
fn tool_id_names_the_version() {
    assert_eq!(tool_id("0.0.1"), "Tool: prompt-bom-0.0.1");
}

#[test]
fn exit_codes_split_user_errors_from_internal_ones() {
    assert_eq!(exit_code_for(&AppError::Cli("x".into())), 1);
    assert_eq!(exit_code_for(&AppError::Io("x".into())), 1);
    assert_eq!(exit_code_for(&AppError::Config("x".into())), 1);
    assert_eq!(exit_code_for(&AppError::Parse("x".into())), 2);
    assert_eq!(exit_code_for(&AppError::Git("x".into())), 2);
    assert_eq!(exit_code_for(&AppError::Serde("x".into())), 2);
}

#[test]
fn error_messages_carry_their_kind() {
    assert_eq!(AppError::Io("gone".into()).message(), "io: gone");
    assert_eq!(AppError::Parse("line 2: bad".into()).message(), "parse: line 2: bad");
    assert_eq!(AppError::Git("x".into()).message(), "git: x");
    assert_eq!(AppError::Serde("x".into()).message(), "serde: x");
    assert_eq!(AppError::Config("c".into()).message(), "config: c");
    assert_eq!(AppError::Cli("c".into()).message(), "cli: c");
}

#[test]
fn timestamps_sort_as_the_times_they_name() {
    let times: [i64; 7] = [0, 59, 3600, 86399, 86400, 951782400, 253402300799];
    for w in times.windows(2) {
        let (a, b) = (format_iso_utc(w[0]), format_iso_utc(w[1]));
        assert_eq!(a.len(), 20);
        assert_eq!(b.len(), 20);
        assert!(a < b, "{a} should sort before {b}");
    }
    assert_eq!(format_iso_utc(253402300799), "9999-12-31T23:59:59Z");
}
