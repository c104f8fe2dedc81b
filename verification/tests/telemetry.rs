//! Decoder behaviour on hand-built telemetry buffers.

use gopro_importer::error::Error;
use gopro_importer::telemetry::{parse, traversed_len, Gpmf};

/// Encodes one element: key, type tag, per-item size, count, payload
/// (padded here to four bytes, as the format demands).
fn element(key: &[u8; 4], kind: u8, size: u8, count: u16, payload: &[u8]) -> Vec<u8> {
    assert_eq!(payload.len(), (size as usize) * (count as usize));
    let mut out = Vec::new();
    out.extend_from_slice(key);
    out.push(kind);
    out.push(size);
    out.extend_from_slice(&count.to_be_bytes());
    out.extend_from_slice(payload);
    while out.len() % 4 != 0 {
        out.push(0);
    }
    out
}

fn i32s(values: &[i32]) -> Vec<u8> {
    let mut out = Vec::new();
    for v in values {
        out.extend_from_slice(&v.to_be_bytes());
    }
    out
}

fn i16s(values: &[i16]) -> Vec<u8> {
    let mut out = Vec::new();
    for v in values {
        out.extend_from_slice(&v.to_be_bytes());
    }
    out
}

#[test]
fn parse_empty_buffer_is_empty() {
    let elems = parse(&Vec::new()).unwrap();
    assert_eq!(elems.len(), 0);
}

#[test]
fn parse_truncated_header_fails() {
    assert_eq!(parse(&vec![1, 2, 3]), Err(Error::MalformedTelemetry));
}

#[test]
fn parse_overrunning_payload_fails() {
    // Declares 8 payload bytes but provides none.
    let mut buf = Vec::new();
    buf.extend_from_slice(b"ACCL");
    buf.push(b'c');
    buf.push(8);
    buf.extend_from_slice(&1u16.to_be_bytes());
    assert_eq!(parse(&buf), Err(Error::MalformedTelemetry));
}

#[test]
fn parse_leftover_bytes_fail() {
    let mut buf = element(b"ABCD", b'c', 1, 4, b"wxyz");
    buf.extend_from_slice(&[0, 0]);
    assert_eq!(parse(&buf), Err(Error::MalformedTelemetry));
}

#[test]
fn unknown_element_is_preserved_not_rejected() {
    // The aligned payload survives verbatim, padding byte included.
    let buf = element(b"ABCD", b'c', 1, 3, b"xyz");
    let elems = parse(&buf).unwrap();
    assert_eq!(elems.len(), 1);
    match &elems[0] {
        Gpmf::Unknown { key, kind, size, count, data } => {
            assert_eq!(*key, u32::from_be_bytes(*b"ABCD"));
            assert_eq!(*kind, b'c');
            assert_eq!(*size, 1);
            assert_eq!(*count, 3);
            assert_eq!(data, b"xyz\0");
        }
        _ => panic!("expected an unknown element"),
    }
    // An already-aligned payload carries no padding.
    let buf = element(b"WXYZ", b'c', 1, 4, b"wxyz");
    match &parse(&buf).unwrap()[0] {
        Gpmf::Unknown { data, .. } => assert_eq!(data, b"wxyz"),
        _ => panic!("expected an unknown element"),
    }
}

#[test]
fn scale_is_applied_to_following_gps_run() {
    // A stream: SCAL with five divisors, then GPS5 with one sample.
    let scal = element(b"SCAL", b'l', 4, 5, &i32s(&[10, 20, 30, 40, 50]));
    let gps = element(b"GPS5", b'l', 20, 1, &i32s(&[100, 200, 300, 400, 500]));
    let mut strm_payload = scal;
    strm_payload.extend_from_slice(&gps);
    let count = strm_payload.len() as u16;
    let strm = element(b"STRM", 0, 1, count, &strm_payload);
    let elems = parse(&strm).unwrap();
    match &elems[0] {
        Gpmf::Klv { entries, .. } => {
            assert_eq!(entries.len(), 2);
            match &entries[1] {
                Gpmf::Gps5 { entries: samples, divisors } => {
                    assert_eq!(divisors, &vec![10, 20, 30, 40, 50]);
                    assert_eq!(samples.len(), 1);
                    assert_eq!(samples[0].latitude, 100);
                    assert_eq!(samples[0].speed_3d, 500);
                    // Each component is raw / divisor.
                    assert_eq!(samples[0].latitude as f64 / divisors[0] as f64, 10.0);
                    assert_eq!(samples[0].longitude as f64 / divisors[1] as f64, 10.0);
                }
                _ => panic!("expected a gps run"),
            }
        }
        _ => panic!("expected a stream container"),
    }
}

#[test]
fn scale_scope_does_not_leak_across_streams() {
    let scal = element(b"SCAL", b'l', 4, 1, &i32s(&[7]));
    let strm_a = {
        let count = scal.len() as u16;
        element(b"STRM", 0, 1, count, &scal)
    };
    let gps = element(b"GPS5", b'l', 20, 1, &i32s(&[1, 2, 3, 4, 5]));
    let strm_b = {
        let count = gps.len() as u16;
        element(b"STRM", 0, 1, count, &gps)
    };
    let mut payload = strm_a;
    payload.extend_from_slice(&strm_b);
    let count = payload.len() as u16;
    let devc = element(b"DEVC", 0, 1, count, &payload);
    let elems = parse(&devc).unwrap();
    match &elems[0] {
        Gpmf::Klv { entries, .. } => match &entries[1] {
            Gpmf::Klv { entries: inner, .. } => match &inner[0] {
                Gpmf::Gps5 { divisors, .. } => {
                    // The sibling stream's scale does not apply here:
                    // the scope is empty, every divisor defaults to 1.
                    assert_eq!(divisors.len(), 0);
                }
                _ => panic!("expected a gps run"),
            },
            _ => panic!("expected the second stream"),
        },
        _ => panic!("expected the device container"),
    }
}

#[test]
fn sixteen_bit_scale_keeps_its_padding_accounted() {
    // Five 16-bit divisors: ten semantic bytes, two bytes padding.
    let buf = element(b"SCAL", b's', 2, 5, &i16s(&[1, 2, 3, 4, 5]));
    let elems = parse(&buf).unwrap();
    match &elems[0] {
        Gpmf::Scale { divisors, wide } => {
            assert_eq!(divisors, &vec![1, 2, 3, 4, 5]);
            assert!(!*wide);
        }
        _ => panic!("expected a scale element"),
    }
    assert_eq!(traversed_len(&elems), Some(buf.len() as u64));
}

#[test]
fn ill_sized_gps_payload_fails() {
    // A GPS5 whose payload is not a whole number of samples.
    let buf = element(b"GPS5", b'l', 4, 3, &i32s(&[1, 2, 3]));
    assert_eq!(parse(&buf), Err(Error::MalformedTelemetry));
}

#[test]
fn decode_then_retraverse_covers_buffer_exactly() {
    // Round-trip of structure over a nested tree.
    let scal = element(b"SCAL", b'l', 4, 5, &i32s(&[1, 1, 1, 1, 1]));
    let gps = element(b"GPS5", b'l', 20, 2, &i32s(&[1, 2, 3, 4, 5, 6, 7, 8, 9, 10]));
    let unknown = element(b"TMPC", b'f', 1, 5, b"abcde");
    let mut strm_payload = scal;
    strm_payload.extend_from_slice(&gps);
    let strm = {
        let count = strm_payload.len() as u16;
        element(b"STRM", 0, 1, count, &strm_payload)
    };
    let mut devc_payload = strm;
    devc_payload.extend_from_slice(&unknown);
    let buf = {
        let count = devc_payload.len() as u16;
        element(b"DEVC", 0, 1, count, &devc_payload)
    };
    let elems = parse(&buf).unwrap();
    assert_eq!(traversed_len(&elems), Some(buf.len() as u64));
}
