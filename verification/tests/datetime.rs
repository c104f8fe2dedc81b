//! Capture-date estimation from longitude bands.

use gopro_importer::datetime::{approximate_date, first_gps, offset_seconds};
use gopro_importer::error::Error;
use gopro_importer::telemetry::{Gpmf, GpsSample};

fn sample(longitude: i32) -> GpsSample {
    GpsSample { latitude: 0, longitude, altitude: 0, speed_2d: 0, speed_3d: 0 }
}

#[test]
fn offset_for_pacific_longitude() {
    // A longitude of -122.0 (raw -1220000000 over divisor 10000000)
    // falls in the minus-eight-hour band: 3600 * round(-122*12/180).
    assert_eq!(offset_seconds(-1220000000, 10000000), -28800);
}

#[test]
fn offset_rounds_to_nearest_band() {
    // 7.5 degrees sits exactly between bands 0 and 1; rounding goes
    // away from zero.
    assert_eq!(offset_seconds(75, 10), 3600);
    assert_eq!(offset_seconds(-75, 10), -3600);
    // 7.4 degrees stays in band 0.
    assert_eq!(offset_seconds(74, 10), 0);
    // Greenwich.
    assert_eq!(offset_seconds(0, 1), 0);
}

#[test]
fn first_gps_is_depth_first_and_skips_empty_runs() {
    let tree = vec![
        Gpmf::Klv {
            key: 1,
            entries: vec![
                Gpmf::Gps5 { entries: vec![], divisors: vec![] },
                Gpmf::Klv {
                    key: 2,
                    entries: vec![Gpmf::Gps5 {
                        entries: vec![sample(111)],
                        divisors: vec![1, 2, 3],
                    }],
                },
            ],
        },
        Gpmf::Gps5 { entries: vec![sample(999)], divisors: vec![] },
    ];
    let (s, divisors) = first_gps(&tree).unwrap();
    assert_eq!(s.longitude, 111);
    assert_eq!(divisors, vec![1, 2, 3]);
}

#[test]
fn no_gps_anywhere_reports_it() {
    let tree = vec![Gpmf::Scale { divisors: vec![1], wide: true }];
    assert!(first_gps(&tree).is_none());
    assert_eq!(approximate_date(&tree, 0), Err(Error::NoGpsData));
}

#[test]
fn approximate_date_shifts_into_the_band() {
    // Modification time 2024-03-10T09:00:00Z with a longitude of
    // -122.0: the eight-hour westward shift lands at 01:00 on the
    // same civil date.
    let tree = vec![Gpmf::Gps5 {
        entries: vec![sample(-1220000000)],
        divisors: vec![10000000, 10000000, 100, 100, 100],
    }];
    let date = approximate_date(&tree, 1710061200).unwrap();
    assert_eq!(date, "2024-03-10");
    // Nine hours earlier the same shift crosses midnight.
    let date = approximate_date(&tree, 1710061200 - 9 * 3600).unwrap();
    assert_eq!(date, "2024-03-09");
}

#[test]
fn zero_divisor_cannot_name_a_date() {
    let tree = vec![Gpmf::Gps5 {
        entries: vec![sample(5)],
        divisors: vec![1, 0, 1, 1, 1],
    }];
    assert_eq!(approximate_date(&tree, 0), Err(Error::AmbiguousLocalTime));
}
