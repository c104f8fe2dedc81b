//! The scanners' per-entry decisions.
//!
//! The directory walks themselves are plain I/O and live outside the
//! library; each entry they meet is decided here, from its name and
//! plain attributes alone.

use crate::cache;
use crate::datetime::{approximate_date, date_str_of, spec_date_owed, spec_first_gps};
use crate::destination::Destination;
use crate::paths::{is_date_name, spec_basename, spec_is_date_name, spec_is_mp4_name};
use crate::session::File;
use crate::telemetry::{parse, spec_parse};
use vstd::prelude::*;

verus! {

/// What the destination scanner does with one directory entry.
#[derive(PartialEq, Eq, Structural, Clone, Copy, Debug)]
pub enum DestScanAction {
    /// A dated directory: emit one session-marker event and do not
    /// descend into it.
    SessionMarker,
    /// Anything else: emit a candidate-destination event and walk
    /// on.
    Candidate,
}

/// Decides one destination-tree entry: a directory whose name has
/// the strict dated shape is a session marker; every other entry is
/// a candidate destination.
pub fn dest_entry_action(file_name: &str, is_dir: bool) -> (r: DestScanAction)
    ensures
        r is SessionMarker <==> spec_is_date_name(file_name@) && is_dir,
    {
    if is_dir && is_date_name(file_name) {
        DestScanAction::SessionMarker
    } else {
        DestScanAction::Candidate
    }
}

/// Whether the importer scanner takes a directory entry: only files
/// carrying the camera's video extension.
pub fn importer_takes(file_name: &str, is_dir: bool) -> (r: bool)
    ensures
        r <==> !is_dir && spec_is_mp4_name(file_name@),
{
    !is_dir && crate::paths::is_mp4_name(file_name)
}

/// The session-marker event for a dated directory found at `path`
/// under the destination root: the date it names and the directory
/// that holds it, described relative to the root.  Nothing when the
/// marker has no parent or its parent does not lie under the root.
pub fn session_marker(path: &str, root: &str) -> (r: Option<(String, Destination)>)
    ensures
        r matches Some(p) ==> ({
            &&& p.0@ == spec_basename(path@)
            &&& crate::paths::spec_parent(path@) matches Some(par) && p.1@.abs == par && Some(
                p.1@.rel,
            ) == crate::paths::spec_rel_to(par, root@) && p.1@.base == spec_basename(par)
        }),
        r is None <==> (spec_basename(path@).len() == 0 || crate::paths::spec_parent(path@)
            is None || ({
            ||| crate::paths::spec_parent(path@) matches Some(par) && crate::paths::spec_rel_to(
                par,
                root@,
            ) is None
            ||| crate::paths::spec_parent(path@) matches Some(par) && spec_basename(par).len()
                == 0
        })),
{
    let date = match crate::paths::file_name(path) {
        Some(d) => d,
        Option::None => {
            return Option::None;
        },
    };
    let parent = match crate::paths::parent_of(path) {
        Some(p) => p,
        Option::None => {
            return Option::None;
        },
    };
    match Destination::new(parent.as_str(), root) {
        Some(dest) => Some((date, dest)),
        Option::None => Option::None,
    }
}

/// The file entry the importer emits for a cache hit: the entry's
/// on-disk facts joined with the cached record — probing and
/// decoding are skipped entirely.
pub fn file_from_cache(path: String, size: u64, created: u64, rec: &cache::File) -> (f: File)
    ensures
        f@.path == path@,
        f@.size == size,
        f@.created == created,
        f@.date == rec@.date,
        f@.seconds == rec@.seconds,
        f@.note == rec@.note,
        f@.status == rec@.status,
{
    File {
        path,
        size,
        created,
        date: rec.date.clone(),
        seconds: rec.seconds,
        note: match &rec.note {
            Some(n) => Some(n.clone()),
            Option::None => Option::None,
        },
        status: rec.status,
    }
}

/// The file entry the importer emits for a cache miss, from the
/// probe's results: the telemetry buffer is decoded and the capture
/// date estimated, and any failure along the way degrades the date
/// to the unknown placeholder rather than failing the scan.
pub fn discovered_file(
    path: String,
    size: u64,
    created: u64,
    seconds: u64,
    telemetry: &Vec<u8>,
    mtime_secs: i64,
) -> (f: File)
    ensures
        f@.path == path@,
        f@.size == size,
        f@.created == created,
        f@.seconds == seconds,
        f@.note is None,
        f@.status is None,
        spec_parse(telemetry@) is None ==> f@.date == "?"@,
        spec_parse(telemetry@) matches Some(es) ==> ({
            &&& (spec_first_gps(es) is None ==> f@.date == "?"@)
            &&& (spec_first_gps(es) matches Some(found) ==> ({
                let (sample, dvs) = found;
                let dv = crate::telemetry::spec_divisor(dvs, 1);
                let local = mtime_secs + crate::datetime::spec_offset_seconds(
                    sample.longitude as int,
                    dv as int,
                );
                &&& (dv == 0 ==> f@.date == "?"@)
                &&& (dv != 0 && !(i64::MIN <= local <= i64::MAX) ==> f@.date == "?"@)
            }))
            &&& (spec_date_owed(es, mtime_secs as int) ==> ({
                let (sample, dvs) = spec_first_gps(es)->0;
                let dv = crate::telemetry::spec_divisor(dvs, 1);
                f@.date == date_str_of(
                    mtime_secs + crate::datetime::spec_offset_seconds(
                        sample.longitude as int,
                        dv as int,
                    ),
                )
            }))
        }),
{
    proof {
        reveal_strlit("?");
    }
    let date: String = match parse(telemetry) {
        Ok(elems) => {
            match approximate_date(&elems, mtime_secs) {
                Ok(d) => d,
                Err(_) => String::from_str("?"),
            }
        },
        Err(_) => String::from_str("?"),
    };
    File { path, size, created, date, seconds, note: Option::None, status: Option::None }
}

} // verus!
