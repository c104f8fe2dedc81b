//! The capture-date estimator.
//!
//! A camera clock is assumed to sit at an unknown but constant offset
//! from true local time, commonly UTC-like.  The estimator finds the
//! first GPS sample anywhere in a file's decoded telemetry
//! (depth-first, first container wins), derives a fixed offset of
//! whole hours from its longitude — one of the twenty-four hour-wide
//! longitude bands — and applies that offset to the file's
//! modification timestamp to name an approximate local date.

use crate::error::Error;
use crate::telemetry::{copy_divs, divisor, spec_divisor, views_of, GpmfView, Gpmf, GpsSample};
use vstd::prelude::*;

verus! {

broadcast use vstd::seq::group_seq_axioms;

/// `n / d` rounded to the nearest integer, ties away from zero,
/// written in the closed form the machine computes: round the
/// magnitudes half-up, then put the sign back.
pub open spec fn spec_round_div(n: int, d: int) -> int
    recommends
        d != 0,
{
    let pn = if n >= 0 {
        n
    } else {
        -n
    };
    let pd = if d >= 0 {
        d
    } else {
        -d
    };
    let q = (pn + pd / 2) / pd;
    if (n >= 0) == (d >= 0) {
        q
    } else {
        -q
    }
}

/// The fixed offset, in seconds, of the hour-wide longitude band that
/// a longitude of `raw / div` falls in:
/// `3600 * round(longitude * 12 / 180)`.
pub open spec fn spec_offset_seconds(raw: int, div: int) -> int
    recommends
        div != 0,
{
    3600 * spec_round_div(raw * 12, 180 * div)
}

/// Computes `spec_offset_seconds` for a raw longitude component and
/// its scale divisor.
pub fn offset_seconds(raw: i32, div: i64) -> (r: i64)
    requires
        div != 0,
    ensures
        r == spec_offset_seconds(raw as int, div as int),
        -0x80_0000_0000 <= r <= 0x80_0000_0000,
{
    let n: i128 = (raw as i128) * 12;
    let d: i128 = 180 * (div as i128);
    let pn: i128 = if n >= 0 {
        n
    } else {
        -n
    };
    let pd: i128 = if d >= 0 {
        d
    } else {
        -d
    };
    let q: i128 = (pn + pd / 2) / pd;
    proof {
        assert(pd >= 180);
        assert(pn <= 0x6_0000_0000);
        let x = (pn + pd / 2) as int;
        vstd::arithmetic::div_mod::lemma_div_pos_is_pos(x, pd as int);
        vstd::arithmetic::div_mod::lemma_div_is_ordered(x, (pn + pd) as int, pd as int);
        vstd::arithmetic::div_mod::lemma_div_plus_one(pn as int, pd as int);
        vstd::arithmetic::div_mod::lemma_div_is_ordered_by_denominator(pn as int, 180, pd as int);
        vstd::arithmetic::div_mod::lemma_div_is_ordered(pn as int, 0x6_0000_0000, 180);
        assert(0 <= q <= 143165577);
        vstd::arithmetic::mul::lemma_mul_inequality(q as int, 143165577, 3600);
        assert(3600 * (q as int) == (q as int) * 3600) by (nonlinear_arith);
        assert(0 <= 3600 * (q as int) <= 0x80_0000_0000);
    }
    let signed: i128 = if (n >= 0) == (d >= 0) {
        q
    } else {
        -q
    };
    (3600 * signed) as i64
}


/// The first GPS sample anywhere in a decoded tree, depth-first with
/// the first container winning, together with the scale scope its run
/// was decoded under.  A run with no samples is passed over.
pub open spec fn spec_first_gps(es: Seq<GpmfView>) -> Option<(GpsSample, Seq<i64>)>
    decreases es,
{
    if es.len() == 0 {
        Option::None
    } else {
        let rest = es.subrange(1, es.len() as int);
        match es[0] {
            GpmfView::Klv { entries, .. } => match spec_first_gps(entries) {
                Some(g) => Some(g),
                Option::None => spec_first_gps(rest),
            },
            GpmfView::Gps5 { entries, divisors } => if entries.len() > 0 {
                Some((entries[0], divisors))
            } else {
                spec_first_gps(rest)
            },
            _ => spec_first_gps(rest),
        }
    }
}

/// Finds the first GPS sample of a decoded tree (`spec_first_gps`).
pub fn first_gps(elems: &Vec<Gpmf>) -> (r: Option<(GpsSample, Vec<i64>)>)
    ensures
        r is Some <==> spec_first_gps(views_of(elems@)) is Some,
        r matches Some(p) ==> spec_first_gps(views_of(elems@)) == Some((p.0, p.1@)),
    decreases elems@,
{
    let ghost vs = views_of(elems@);
    proof {
        crate::telemetry::lemma_views_of(elems@);
    }
    let n = elems.len();
    let mut i: usize = 0;
    proof {
        assert(vs.subrange(0, n as int) =~= vs);
    }
    while i < n
        invariant
            i <= n,
            n == elems@.len(),
            vs == views_of(elems@),
            vs.len() == n,
            forall|k: int| 0 <= k < n ==> vs[k] == crate::telemetry::view_of(#[trigger] elems@[k]),
            spec_first_gps(vs) == spec_first_gps(vs.subrange(i as int, n as int)),
        decreases n - i,
    {
        let ghost tail = vs.subrange(i as int, n as int);
        proof {
            assert(tail[0] == vs[i as int]);
            assert(tail.subrange(1, tail.len() as int) =~= vs.subrange(i + 1, n as int));
        }
        match &elems[i] {
            Gpmf::Klv { entries, .. } => {
                match first_gps(entries) {
                    Some(p) => {
                        return Some(p);
                    },
                    Option::None => {},
                }
            },
            Gpmf::Gps5 { entries, divisors } => {
                if entries.len() > 0 {
                    let sample = entries[0];
                    let scope = copy_divs(divisors);
                    return Some((sample, scope));
                }
            },
            _ => {},
        }
        i = i + 1;
    }
    proof {
        assert(vs.subrange(n as int, n as int) =~= Seq::<GpmfView>::empty());
    }
    Option::None
}

/// What the date wrapper returns: the civil date of an epoch second
/// count, written `YYYY-MM-DD`.
pub uninterp spec fn date_str_of(secs: int) -> Seq<char>;

/// Relies on chrono's `DateTime::<Utc>::from_timestamp` (with
/// `date_naive` and `NaiveDate`'s ISO 8601 `Display`): the civil date
/// of an epoch second count, a function of that count alone.  Per its
/// documentation it returns `None` only for counts outside the
/// supported calendar range of about plus or minus 262,000 years, so
/// any count between the years 1 and 3000 yields a date.
#[verifier::external_body]
fn utc_date_string(secs: i64) -> (r: Option<String>)
    ensures
        r matches Some(s) ==> s@ == date_str_of(secs as int),
        -62_135_596_800 <= secs <= 32_503_680_000 ==> r is Some,
{
    chrono::DateTime::<chrono::Utc>::from_timestamp(secs, 0).map(|dt| dt.date_naive().to_string())
}

/// Whether the estimator owes a date: a usable first GPS sample whose
/// longitude divisor is not zero, with the shifted timestamp landing
/// in the calendar window the date wrapper promises to format.
pub open spec fn spec_date_owed(es: Seq<GpmfView>, mtime: int) -> bool {
    match spec_first_gps(es) {
        Some((sample, divs)) => {
            let dv = spec_divisor(divs, 1);
            &&& dv != 0
            &&& -62_135_596_800 <= mtime + spec_offset_seconds(sample.longitude as int, dv as int)
                <= 32_503_680_000
        },
        Option::None => false,
    }
}

/// Estimates the local capture date of a file from its decoded
/// telemetry and its modification timestamp (epoch seconds).
///
/// The first GPS sample names the hour-wide longitude band; its
/// offset shifts the timestamp; the shifted timestamp's civil date is
/// the estimate.  `NoGpsData` exactly when the tree has no usable
/// sample; `AmbiguousLocalTime` when the longitude's divisor is zero
/// or the shifted instant cannot be expressed as a date.
pub fn approximate_date(elems: &Vec<Gpmf>, mtime_secs: i64) -> (r: Result<String, Error>)
    ensures
        (r matches Err(e) && e == Error::NoGpsData) <==> spec_first_gps(views_of(elems@))
            is None,
        spec_date_owed(views_of(elems@), mtime_secs as int) ==> r is Ok,
        r matches Ok(s) ==> ({
            let fg = spec_first_gps(views_of(elems@));
            &&& fg is Some
            &&& ({
                let (sample, dvs) = fg->0;
                let dv = spec_divisor(dvs, 1);
                let local = mtime_secs + spec_offset_seconds(sample.longitude as int, dv as int);
                &&& dv != 0
                &&& i64::MIN <= local <= i64::MAX
                &&& s@ == date_str_of(local)
            })
        }),
        r matches Err(e) ==> e == Error::NoGpsData || e == Error::AmbiguousLocalTime,
{
    let (sample, divs) = match first_gps(elems) {
        Some(p) => p,
        Option::None => {
            return Err(Error::NoGpsData);
        },
    };
    let dv = divisor(&divs, 1);
    if dv == 0 {
        return Err(Error::AmbiguousLocalTime);
    }
    let off = offset_seconds(sample.longitude, dv);
    let local = match mtime_secs.checked_add(off) {
        Some(v) => v,
        Option::None => {
            return Err(Error::AmbiguousLocalTime);
        },
    };
    match utc_date_string(local) {
        Some(s) => Ok(s),
        Option::None => Err(Error::AmbiguousLocalTime),
    }
}

} // verus!
