//! Cache partition and document behaviour.

use gopro_importer::cache::{File, Source, User};
use gopro_importer::destination::Destination;
use gopro_importer::session::Status;

fn record(date: &str, imported: bool) -> File {
    File {
        date: date.to_string(),
        seconds: 42,
        note: None,
        status: Some(Status::Import),
        imported,
    }
}

#[test]
fn lookup_of_absent_name_is_none() {
    let src = Source::new("SN1".to_string());
    assert!(src.get("GX01.MP4").is_none());
}

#[test]
fn upsert_then_lookup_returns_the_record() {
    let mut src = Source::new("SN1".to_string());
    src.set("GX01.MP4", record("2024-03-09", false));
    let got = src.get("GX01.MP4").unwrap();
    assert_eq!(got.date, "2024-03-09");
    assert_eq!(got.seconds, 42);
    assert_eq!(got.status, Some(Status::Import));
    assert!(!got.imported);
}

#[test]
fn imported_survives_any_later_upsert() {
    let mut src = Source::new("SN1".to_string());
    src.set("GX01.MP4", record("2024-03-09", true));
    // A rescan recomputes the record without the flag; the partition
    // keeps it.
    src.set("GX01.MP4", record("2024-03-09", false));
    assert!(src.get("GX01.MP4").unwrap().imported);
    // Even many upserts later.
    for _ in 0..5 {
        src.set("GX01.MP4", record("2024-04-01", false));
    }
    let got = src.get("GX01.MP4").unwrap();
    assert!(got.imported);
    assert_eq!(got.date, "2024-04-01");
}

#[test]
fn fresh_record_never_claims_imported() {
    let mut src = Source::new("SN1".to_string());
    src.set("GX02.MP4", record("2024-03-09", false));
    assert!(!src.get("GX02.MP4").unwrap().imported);
}

#[test]
fn session_destination_binding_round_trips() {
    let mut src = Source::new("SN1".to_string());
    assert!(src.get_session_destination("2024-03-09").is_none());
    let dest = Destination::new("/dst/vacation", "/dst").unwrap();
    src.set_session_destination("2024-03-09", dest);
    let got = src.get_session_destination("2024-03-09").unwrap();
    assert_eq!(got.abs, "/dst/vacation");
    assert_eq!(got.rel, "vacation");
    assert_eq!(got.base, "vacation");
}

#[test]
fn save_then_load_returns_the_partition_unchanged() {
    let mut doc = User::new("1".to_string());
    let mut a = doc.partition("SN-A");
    a.set("GX01.MP4", record("2024-03-09", true));
    doc.set_partition(a);
    let mut b = doc.partition("SN-B");
    b.set("GX09.MP4", record("2023-01-01", false));
    doc.set_partition(b);

    // Replace A's partition and check a reload sees exactly it.
    let mut a2 = doc.partition("SN-A");
    a2.set("GX02.MP4", record("2024-03-10", false));
    doc.set_partition(a2);

    let a3 = doc.partition("SN-A");
    assert_eq!(a3.serial(), "SN-A");
    assert!(a3.get("GX01.MP4").unwrap().imported);
    assert_eq!(a3.get("GX02.MP4").unwrap().date, "2024-03-10");

    // Every other identity's partition is untouched.
    let b2 = doc.partition("SN-B");
    assert_eq!(b2.serial(), "SN-B");
    let kept = b2.get("GX09.MP4").unwrap();
    assert_eq!(kept.date, "2023-01-01");
    assert!(!kept.imported);
    assert!(b2.get("GX01.MP4").is_none());
}

#[test]
fn missing_identity_loads_an_empty_partition() {
    let doc = User::new("1".to_string());
    let p = doc.partition("SN-NEW");
    assert_eq!(p.serial(), "SN-NEW");
    assert!(p.get("anything").is_none());
    assert!(p.export_files().is_empty());
}
