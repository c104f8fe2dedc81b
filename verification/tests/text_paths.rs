//! Formatting and the plain-string path model.

use gopro_importer::error::Error;
use gopro_importer::paths::{
    file_name, is_date_name, is_mp4_name, join, parent_of, rel_to, str_eq, str_lt,
};
use gopro_importer::text::{decimal, human_readable_seconds, human_readable_size};

#[test]
fn decimal_writes_plain_numbers() {
    assert_eq!(decimal(0), "0");
    assert_eq!(decimal(7), "7");
    assert_eq!(decimal(1234567890), "1234567890");
}

#[test]
fn sizes_use_short_units_with_tenths() {
    assert_eq!(human_readable_size(0), "0 B");
    assert_eq!(human_readable_size(999), "999 B");
    assert_eq!(human_readable_size(1000), "1.0 kB");
    assert_eq!(human_readable_size(1234), "1.2 kB");
    assert_eq!(human_readable_size(1950), "2.0 kB");
    assert_eq!(human_readable_size(1500000), "1.5 MB");
    assert_eq!(human_readable_size(2750000000), "2.8 GB");
    assert_eq!(human_readable_size(3200000000000), "3.2 TB");
    assert_eq!(human_readable_size(u64::MAX), "18446744.1 TB");
}

#[test]
fn durations_wrap_into_minutes() {
    assert_eq!(human_readable_seconds(0), "0");
    assert_eq!(human_readable_seconds(45), "45");
    assert_eq!(human_readable_seconds(60), "1:00");
    assert_eq!(human_readable_seconds(125), "2:05");
    assert_eq!(human_readable_seconds(59 * 60 + 59), "59:59");
}

#[test]
fn base_names_come_after_the_last_separator() {
    assert_eq!(file_name("/a/b/c.MP4").as_deref(), Some("c.MP4"));
    assert_eq!(file_name("c.MP4").as_deref(), Some("c.MP4"));
    assert_eq!(file_name("/a/b/"), None);
    assert_eq!(file_name(""), None);
}

#[test]
fn parents_come_before_the_last_separator() {
    assert_eq!(parent_of("/dst/trip/2024-03-09").as_deref(), Some("/dst/trip"));
    assert_eq!(parent_of("name"), None);
}

#[test]
fn relative_paths_need_the_root_prefix() {
    assert_eq!(rel_to("/dst/a/b", "/dst").as_deref(), Some("a/b"));
    assert_eq!(rel_to("/dst", "/dst").as_deref(), Some(""));
    assert_eq!(rel_to("/elsewhere/a", "/dst"), None);
    assert_eq!(rel_to("/dstx/a", "/dst"), None);
}

#[test]
fn video_extension_is_case_exact_with_a_stem() {
    assert!(is_mp4_name("GX010001.MP4"));
    assert!(is_mp4_name("a.b.MP4"));
    assert!(!is_mp4_name("GX010001.mp4"));
    assert!(!is_mp4_name(".MP4"));
    assert!(!is_mp4_name("MP4"));
}

#[test]
fn date_names_are_exactly_ten_strict_characters() {
    assert!(is_date_name("2024-03-09"));
    assert!(!is_date_name("2024-3-9"));
    assert!(!is_date_name("2024-03-09 "));
    assert!(!is_date_name("2024_03_09"));
    assert!(!is_date_name("abcd-ef-gh"));
}

#[test]
fn joins_and_string_order() {
    assert_eq!(join("/dst/vacation", "2024-03-09"), "/dst/vacation/2024-03-09");
    assert!(str_eq("abc", "abc"));
    assert!(!str_eq("abc", "abd"));
    assert!(str_lt("2024-03-09", "2024-03-10"));
    assert!(str_lt("abc", "abcd"));
    assert!(!str_lt("abc", "abc"));
}

#[test]
fn error_labels_name_the_class() {
    assert_eq!(Error::MalformedTelemetry.label(), "malformed telemetry");
    assert_eq!(Error::NoGpsData.label(), "no gps data");
    assert_eq!(Error::AmbiguousLocalTime.label(), "ambiguous local time");
    assert_eq!(Error::CacheIo("x".to_string()).label(), "cache io");
    assert_eq!(Error::ScanIo("x".to_string()).label(), "scan io");
    assert_eq!(Error::WriterIo("x".to_string()).label(), "writer io");
    assert_eq!(Error::ExternalService("x".to_string()).label(), "external service");
}
