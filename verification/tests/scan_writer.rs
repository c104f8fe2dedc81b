//! Scanner decisions, import planning and progress.

use gopro_importer::cache;
use gopro_importer::destination::Destination;
use gopro_importer::progress::Progress;
use gopro_importer::scan::{
    dest_entry_action, discovered_file, file_from_cache, importer_takes, session_marker,
    DestScanAction,
};
use gopro_importer::session::{File, Session, Status};
use gopro_importer::writer::plan_import;

#[test]
fn importer_takes_only_video_files() {
    assert!(importer_takes("GX010001.MP4", false));
    assert!(!importer_takes("GX010001.MP4", true));
    assert!(!importer_takes("GX010001.LRV", false));
    assert!(!importer_takes(".MP4", false));
    assert!(!importer_takes("readme.txt", false));
}

#[test]
fn dated_directory_is_a_session_marker() {
    assert_eq!(dest_entry_action("2024-03-09", true), DestScanAction::SessionMarker);
    assert_eq!(dest_entry_action("2024-03-09", false), DestScanAction::Candidate);
    assert_eq!(dest_entry_action("trip", true), DestScanAction::Candidate);
    assert_eq!(dest_entry_action("2024-3-09", true), DestScanAction::Candidate);
    assert_eq!(dest_entry_action("2024-03-099", true), DestScanAction::Candidate);
}

#[test]
fn one_marker_no_candidates_from_its_children() {
    // Walking /dst: the dated directory yields exactly one
    // session-marker event, and because a marker is never descended
    // into, its children yield nothing at all.
    let entries = [
        ("/dst/trip", "trip", true),
        ("/dst/trip/2024-03-09", "2024-03-09", true),
        // children of the marker, skipped by the walk:
        // /dst/trip/2024-03-09/GX1.MP4
    ];
    let mut markers = 0;
    let mut candidates = 0;
    for (path, name, is_dir) in entries {
        match dest_entry_action(name, is_dir) {
            DestScanAction::SessionMarker => {
                let (date, dest) = session_marker(path, "/dst").unwrap();
                assert_eq!(date, "2024-03-09");
                assert_eq!(dest.abs, "/dst/trip");
                assert_eq!(dest.rel, "trip");
                markers += 1;
            }
            DestScanAction::Candidate => candidates += 1,
        }
    }
    assert_eq!(markers, 1);
    assert_eq!(candidates, 1);
}

#[test]
fn cache_hit_skips_decoding_and_reproduces_the_record() {
    let rec = cache::File {
        date: "2024-03-09".to_string(),
        seconds: 31,
        note: Some("sunset".to_string()),
        status: Some(Status::Import),
        imported: true,
    };
    let f = file_from_cache("/src/DCIM/GX1.MP4".to_string(), 5, 9, &rec);
    assert_eq!(f.date, "2024-03-09");
    assert_eq!(f.seconds, 31);
    assert_eq!(f.note.as_deref(), Some("sunset"));
    assert_eq!(f.status, Some(Status::Import));
}

#[test]
fn discovery_and_rescan_agree_on_the_record() {
    // First run: full decode of a buffer with one GPS sample at
    // longitude -122.0 under a 10^7 divisor.
    let mut scal_payload = Vec::new();
    for d in [10000000i32, 10000000, 100, 100, 100] {
        scal_payload.extend_from_slice(&d.to_be_bytes());
    }
    let mut gps_payload = Vec::new();
    for v in [377749000i32, -1220000000, 30, 0, 0] {
        gps_payload.extend_from_slice(&v.to_be_bytes());
    }
    let mut buf = Vec::new();
    let mut strm = Vec::new();
    strm.extend_from_slice(b"SCAL");
    strm.push(b'l');
    strm.push(4);
    strm.extend_from_slice(&5u16.to_be_bytes());
    strm.extend_from_slice(&scal_payload);
    strm.extend_from_slice(b"GPS5");
    strm.push(b'l');
    strm.push(20);
    strm.extend_from_slice(&1u16.to_be_bytes());
    strm.extend_from_slice(&gps_payload);
    buf.extend_from_slice(b"STRM");
    buf.push(0);
    buf.push(1);
    buf.extend_from_slice(&(strm.len() as u16).to_be_bytes());
    buf.extend_from_slice(&strm);

    let f = discovered_file("/src/DCIM/GX1.MP4".to_string(), 5, 9, 30, &buf, 1710061200);
    assert_eq!(f.date, "2024-03-10");
    assert_eq!(f.status, None);

    // Cache it as discovery does, then rescan through the fast path:
    // the reproduced record carries the very same fields.
    let mut partition = cache::Source::new("SN1".to_string());
    partition.set(
        "GX1.MP4",
        cache::File {
            date: f.date.clone(),
            seconds: f.seconds,
            note: f.note.clone(),
            status: f.status,
            imported: false,
        },
    );
    let hit = partition.get("GX1.MP4").unwrap();
    let again = file_from_cache("/src/DCIM/GX1.MP4".to_string(), 5, 9, &hit);
    assert_eq!(again.date, f.date);
    assert_eq!(again.seconds, f.seconds);
    assert_eq!(again.note, f.note);
    assert_eq!(again.status, f.status);
}

#[test]
fn garbage_telemetry_degrades_to_the_unknown_date() {
    let f = discovered_file("/src/DCIM/GX1.MP4".to_string(), 5, 9, 30, &vec![1, 2, 3], 0);
    assert_eq!(f.date, "?");
    let f = discovered_file("/src/DCIM/GX2.MP4".to_string(), 5, 9, 30, &Vec::new(), 0);
    assert_eq!(f.date, "?");
}

fn tagged(name: &str, status: Option<Status>, created: u64) -> File {
    File {
        path: format!("/src/DCIM/{}", name),
        size: 100,
        created,
        date: "2024-03-09".to_string(),
        seconds: 30,
        note: None,
        status,
    }
}

#[test]
fn plan_takes_only_tagged_files_of_bound_sessions() {
    let bound = Session::new(
        "2024-03-09".to_string(),
        vec![
            tagged("a.MP4", Some(Status::Import), 1),
            tagged("b.MP4", None, 2),
            tagged("c.MP4", Some(Status::Ignore), 3),
            tagged("d.MP4", Some(Status::Import), 4),
        ],
        Destination::new("/dst/vacation", "/dst"),
    );
    let unbound = Session::new(
        "2024-03-10".to_string(),
        vec![tagged("e.MP4", Some(Status::Import), 5)],
        None,
    );
    let jobs = plan_import(&vec![bound, unbound]);
    assert_eq!(jobs.len(), 2);
    assert_eq!(jobs[0].src_path, "/src/DCIM/a.MP4");
    assert_eq!(jobs[0].file_name, "a.MP4");
    assert_eq!(jobs[0].dest_dir, "/dst/vacation/2024-03-09");
    assert_eq!(jobs[1].src_path, "/src/DCIM/d.MP4");
}

#[test]
fn progress_walks_the_batch_and_finishes_done() {
    let total = 3;
    let mut progress = Progress::new(total);
    assert_eq!(progress.bare().file_idx, 0);
    assert!(!progress.bare().done);
    for i in 0..total {
        progress.set_file_idx(i);
    }
    progress.set_done();
    let last = progress.bare();
    assert_eq!(last.file_idx, total - 1);
    assert_eq!(last.file_total, total);
    assert!(last.done);
}
