//! Decoder for the camera's telemetry container format.
//!
//! The format is a binary key-length-value encoding: each element
//! carries a four-byte key, a one-byte type tag, a one-byte per-item
//! size and a two-byte item count, followed by `size * count` payload
//! bytes padded up to the next multiple of four.  Container keys nest
//! further element sequences; a stream container additionally scopes
//! scale factors over the GPS sample runs that follow them among its
//! children.
//!
//! The grammar is deterministic, and `spec_parse_block` *is* its
//! definition here: the executable decoder is proved to return exactly
//! what that function denotes, and to fail exactly when it denotes
//! nothing.

use crate::error::Error;
use vstd::prelude::*;

verus! {

broadcast use vstd::seq::group_seq_axioms;

/// Key of a device container element.
pub const KEY_DEVC: u32 = 0x4445_5643;

/// Key of a stream container element.
pub const KEY_STRM: u32 = 0x5354_524D;

/// Key of a scale-factor element.
pub const KEY_SCAL: u32 = 0x5343_414C;

/// Key of a GPS sample run.
pub const KEY_GPS5: u32 = 0x4750_5335;

/// Type tag of a nested container (null type).
pub const KIND_NULL: u8 = 0;

/// Type tag of a 32-bit signed integer payload.
pub const KIND_I32: u8 = 108;

/// Type tag of a 16-bit signed integer payload.
pub const KIND_I16: u8 = 115;

/// One raw GPS sample: five 32-bit components as they stand in the
/// payload, before any scale factor is applied.
#[derive(PartialEq, Eq, Structural, Clone, Copy, Debug)]
pub struct GpsSample {
    pub latitude: i32,
    pub longitude: i32,
    pub altitude: i32,
    pub speed_2d: i32,
    pub speed_3d: i32,
}

/// One decoded telemetry element.
///
/// A `Gps5` run carries the divisors of the scale scope it was decoded
/// under (empty when no scale factor preceded it); component `i` of a
/// sample denotes the rational `raw / divisor(divisors, i)`.  A
/// `Scale` element remembers whether its divisors were 32-bit (`wide`)
/// or 16-bit, which fixes its encoded length.  An `Unknown` element
/// preserves its whole aligned payload verbatim, padding included,
/// for forward compatibility.
#[derive(Debug, PartialEq, Eq)]
pub enum Gpmf {
    Klv { key: u32, entries: Vec<Gpmf> },
    Gps5 { entries: Vec<GpsSample>, divisors: Vec<i64> },
    Scale { divisors: Vec<i64>, wide: bool },
    Unknown { key: u32, kind: u8, size: u8, count: u16, data: Vec<u8> },
}

/// The mathematical shape of a decoded element.
pub ghost enum GpmfView {
    Klv { key: u32, entries: Seq<GpmfView> },
    Gps5 { entries: Seq<GpsSample>, divisors: Seq<i64> },
    Scale { divisors: Seq<i64>, wide: bool },
    Unknown { key: u32, kind: u8, size: u8, count: u16, data: Seq<u8> },
}

/// The view of one decoded element.
pub open spec fn view_of(g: Gpmf) -> GpmfView
    decreases g,
{
    match g {
        Gpmf::Klv { key, entries } => GpmfView::Klv { key, entries: views_of(entries@) },
        Gpmf::Gps5 { entries, divisors } => GpmfView::Gps5 {
            entries: entries@,
            divisors: divisors@,
        },
        Gpmf::Scale { divisors, wide } => GpmfView::Scale { divisors: divisors@, wide },
        Gpmf::Unknown { key, kind, size, count, data } => GpmfView::Unknown {
            key,
            kind,
            size,
            count,
            data: data@,
        },
    }
}

/// The views of a sequence of decoded elements, in order.
pub open spec fn views_of(s: Seq<Gpmf>) -> Seq<GpmfView>
    decreases s,
{
    if s.len() == 0 {
        Seq::empty()
    } else {
        seq![view_of(s[0])] + views_of(s.subrange(1, s.len() as int))
    }
}

/// `views_of` is the pointwise view.
pub proof fn lemma_views_of(s: Seq<Gpmf>)
    ensures
        views_of(s).len() == s.len(),
        forall|i: int| 0 <= i < s.len() ==> views_of(s)[i] == view_of(#[trigger] s[i]),
    decreases s.len(),
{
    if s.len() > 0 {
        let t = s.subrange(1, s.len() as int);
        lemma_views_of(t);
        assert forall|i: int| 0 <= i < s.len() implies views_of(s)[i] == view_of(
            #[trigger] s[i],
        ) by {
            if i > 0 {
                assert(t[i - 1] == s[i]);
                assert(views_of(s)[i] == views_of(t)[i - 1]);
            }
        }
    }
}

impl View for Gpmf {
    type V = GpmfView;

    open spec fn view(&self) -> GpmfView {
        view_of(*self)
    }
}

/// `n` rounded up to the next multiple of four.
pub open spec fn spec_pad4(n: nat) -> nat {
    if n % 4 == 0 {
        n
    } else {
        (n + (4 - n % 4)) as nat
    }
}

/// Payload lengths are padded to four-byte alignment; this rounds a
/// semantic length up to the number of bytes an element occupies.
pub fn align(count: usize) -> (r: usize)
    requires
        count + 4 <= usize::MAX,
    ensures
        r == spec_pad4(count as nat),
{
    let rem = count % 4;
    if rem == 0 {
        count
    } else {
        count + (4 - rem)
    }
}

/// The big-endian 16-bit value at `i`.
pub open spec fn be_u16_of(b: Seq<u8>, i: int) -> nat {
    (b[i] as nat) * 0x100 + (b[i + 1] as nat)
}

/// The big-endian 32-bit value at `i`.
pub open spec fn be_u32_of(b: Seq<u8>, i: int) -> nat {
    (b[i] as nat) * 0x100_0000 + (b[i + 1] as nat) * 0x1_0000 + (b[i + 2] as nat) * 0x100 + (b[i
        + 3] as nat)
}

/// The big-endian 32-bit two's-complement value at `i`.
pub open spec fn be_i32_of(b: Seq<u8>, i: int) -> int {
    if be_u32_of(b, i) >= 0x8000_0000 {
        be_u32_of(b, i) - 0x1_0000_0000
    } else {
        be_u32_of(b, i) as int
    }
}

/// The big-endian 16-bit two's-complement value at `i`.
pub open spec fn be_i16_of(b: Seq<u8>, i: int) -> int {
    if be_u16_of(b, i) >= 0x8000 {
        be_u16_of(b, i) - 0x1_0000
    } else {
        be_u16_of(b, i) as int
    }
}

fn be_u16(b: &Vec<u8>, i: usize) -> (r: u16)
    requires
        i + 2 <= b@.len(),
    ensures
        r as nat == be_u16_of(b@, i as int),
{
    let n = b.len();
    proof {
        assert(i + 2 <= n);
    }
    (b[i] as u16) * 0x100 + (b[i + 1] as u16)
}

fn be_u32(b: &Vec<u8>, i: usize) -> (r: u32)
    requires
        i + 4 <= b@.len(),
    ensures
        r as nat == be_u32_of(b@, i as int),
{
    let n = b.len();
    proof {
        assert(i + 4 <= n);
    }
    (b[i] as u32) * 0x100_0000 + (b[i + 1] as u32) * 0x1_0000 + (b[i + 2] as u32) * 0x100 + (b[i
        + 3] as u32)
}

fn be_i32(b: &Vec<u8>, i: usize) -> (r: i32)
    requires
        i + 4 <= b@.len(),
    ensures
        r as int == be_i32_of(b@, i as int),
{
    let u = be_u32(b, i);
    if u >= 0x8000_0000 {
        proof {
            assert(u - 0x1_0000_0000 == be_u32_of(b@, i as int) - 0x1_0000_0000);
        }
        ((u as i64) - 0x1_0000_0000) as i32
    } else {
        u as i32
    }
}

fn be_i16(b: &Vec<u8>, i: usize) -> (r: i16)
    requires
        i + 2 <= b@.len(),
    ensures
        r as int == be_i16_of(b@, i as int),
{
    let u = be_u16(b, i);
    if u >= 0x8000 {
        ((u as i32) - 0x1_0000) as i16
    } else {
        u as i16
    }
}

/// The 32-bit values of a payload, one per four bytes; trailing bytes
/// short of a full value are not taken.
pub open spec fn spec_i32_list(p: Seq<u8>) -> Seq<i64>
    decreases p.len(),
{
    if p.len() < 4 {
        Seq::empty()
    } else {
        seq![be_i32_of(p, 0) as i64] + spec_i32_list(p.subrange(4, p.len() as int))
    }
}

/// The 16-bit values of a payload, one per two bytes.
pub open spec fn spec_i16_list(p: Seq<u8>) -> Seq<i64>
    decreases p.len(),
{
    if p.len() < 2 {
        Seq::empty()
    } else {
        seq![be_i16_of(p, 0) as i64] + spec_i16_list(p.subrange(2, p.len() as int))
    }
}

/// The GPS sample at `i`: five consecutive big-endian 32-bit values.
pub open spec fn spec_gps_at(p: Seq<u8>, i: int) -> GpsSample {
    GpsSample {
        latitude: be_i32_of(p, i) as i32,
        longitude: be_i32_of(p, i + 4) as i32,
        altitude: be_i32_of(p, i + 8) as i32,
        speed_2d: be_i32_of(p, i + 12) as i32,
        speed_3d: be_i32_of(p, i + 16) as i32,
    }
}

/// The GPS samples of a payload, one per twenty bytes.
pub open spec fn spec_gps_list(p: Seq<u8>) -> Seq<GpsSample>
    decreases p.len(),
{
    if p.len() < 20 {
        Seq::empty()
    } else {
        seq![spec_gps_at(p, 0)] + spec_gps_list(p.subrange(20, p.len() as int))
    }
}

/// What one recognized element denotes, given its header fields, its
/// semantic payload (`size * count` bytes), the whole aligned span
/// `raw` it occupies, and the scale scope in force.  `None` is a
/// decode error; an unrecognized key or type tag is never an error
/// and becomes `Unknown`, preserving the aligned payload bytes
/// verbatim for forward compatibility.
pub open spec fn spec_parse_elem(
    key: u32,
    kind: u8,
    size: u8,
    count: u16,
    payload: Seq<u8>,
    raw: Seq<u8>,
    divs: Seq<i64>,
) -> Option<GpmfView>
    decreases payload.len(), 2int,
{
    if key == KEY_DEVC && kind == KIND_NULL {
        match spec_parse_block(payload, false, Seq::empty()) {
            Option::None => Option::None,
            Some(es) => Some(GpmfView::Klv { key, entries: es }),
        }
    } else if key == KEY_STRM && kind == KIND_NULL {
        match spec_parse_block(payload, true, Seq::empty()) {
            Option::None => Option::None,
            Some(es) => Some(GpmfView::Klv { key, entries: es }),
        }
    } else if key == KEY_SCAL && kind == KIND_I32 {
        if payload.len() % 4 != 0 {
            Option::None
        } else {
            Some(GpmfView::Scale { divisors: spec_i32_list(payload), wide: true })
        }
    } else if key == KEY_SCAL && kind == KIND_I16 {
        if payload.len() % 2 != 0 {
            Option::None
        } else {
            Some(GpmfView::Scale { divisors: spec_i16_list(payload), wide: false })
        }
    } else if key == KEY_GPS5 && kind == KIND_I32 {
        if payload.len() % 20 != 0 {
            Option::None
        } else {
            Some(GpmfView::Gps5 { entries: spec_gps_list(payload), divisors: divs })
        }
    } else {
        Some(GpmfView::Unknown { key, kind, size, count, data: raw })
    }
}

/// What a whole byte block denotes: the sequence of elements that
/// exactly covers it, or `None` when a header is truncated, a payload
/// overruns the block, or a recognized payload is ill-sized.  Under a
/// stream container (`strm`), a scale element replaces the scope that
/// the following siblings are decoded under.
pub open spec fn spec_parse_block(d: Seq<u8>, strm: bool, divs: Seq<i64>) -> Option<
    Seq<GpmfView>,
>
    decreases d.len(), 1int,
{
    if d.len() == 0 {
        Some(Seq::empty())
    } else if d.len() < 8 {
        Option::None
    } else {
        let key = be_u32_of(d, 0);
        let kind = d[4];
        let size = d[5];
        let count = be_u16_of(d, 6);
        let dsz = (size as nat) * count;
        let padded = spec_pad4(dsz);
        if d.len() < 8 + padded {
            Option::None
        } else {
            let payload = d.subrange(8, 8 + dsz as int);
            let raw = d.subrange(8, 8 + padded as int);
            match spec_parse_elem(key as u32, kind, size, count as u16, payload, raw, divs) {
                Option::None => Option::None,
                Some(elem) => {
                    let divs2 = match elem {
                        GpmfView::Scale { divisors: ds, .. } => if strm {
                            ds
                        } else {
                            divs
                        },
                        _ => divs,
                    };
                    match spec_parse_block(
                        d.subrange(8 + padded as int, d.len() as int),
                        strm,
                        divs2,
                    ) {
                        Option::None => Option::None,
                        Some(rest) => Some(seq![elem] + rest),
                    }
                },
            }
        }
    }
}

/// What decoding a whole telemetry buffer denotes.
pub open spec fn spec_parse(d: Seq<u8>) -> Option<Seq<GpmfView>> {
    spec_parse_block(d, false, Seq::empty())
}


/// `o` with `p` prepended to a successful result.
pub open spec fn opt_prepend(p: Seq<GpmfView>, o: Option<Seq<GpmfView>>) -> Option<
    Seq<GpmfView>,
> {
    match o {
        Some(r) => Some(p + r),
        Option::None => Option::None,
    }
}

proof fn lemma_views_of_push(s: Seq<Gpmf>, g: Gpmf)
    ensures
        views_of(s.push(g)) == views_of(s).push(view_of(g)),
{
    lemma_views_of(s.push(g));
    lemma_views_of(s);
    assert forall|i: int| 0 <= i < s.len() + 1 implies views_of(s.push(g))[i] == views_of(s).push(
        view_of(g),
    )[i] by {
        if i < s.len() {
            assert(s.push(g)[i] == s[i]);
        } else {
            assert(s.push(g)[i] == g);
        }
    }
    assert(views_of(s.push(g)) =~= views_of(s).push(view_of(g)));
}

fn copy_bytes(data: &Vec<u8>, lo: usize, hi: usize) -> (r: Vec<u8>)
    requires
        lo <= hi <= data@.len(),
    ensures
        r@ == data@.subrange(lo as int, hi as int),
{
    let mut out: Vec<u8> = Vec::new();
    let mut pos = lo;
    while pos < hi
        invariant
            lo <= pos <= hi <= data@.len(),
            out@ =~= data@.subrange(lo as int, pos as int),
        decreases hi - pos,
    {
        out.push(data[pos]);
        pos = pos + 1;
    }
    proof {
        assert(out@ =~= data@.subrange(lo as int, hi as int));
    }
    out
}

pub(crate) fn copy_divs(v: &Vec<i64>) -> (r: Vec<i64>)
    ensures
        r@ == v@,
{
    let mut out: Vec<i64> = Vec::new();
    let mut i: usize = 0;
    while i < v.len()
        invariant
            i <= v@.len(),
            out@ =~= v@.subrange(0, i as int),
        decreases v@.len() - i,
    {
        out.push(v[i]);
        i = i + 1;
    }
    proof {
        assert(out@ =~= v@);
    }
    out
}

proof fn lemma_i32_list_step(d: Seq<u8>, lo: int, pos: int, hi: int)
    requires
        0 <= lo <= pos,
        pos + 4 <= hi <= d.len(),
    ensures
        spec_i32_list(d.subrange(pos, hi)) == seq![be_i32_of(d, pos) as i64] + spec_i32_list(
            d.subrange(pos + 4, hi),
        ),
{
    let p = d.subrange(pos, hi);
    assert(p[0] == d[pos] && p[1] == d[pos + 1] && p[2] == d[pos + 2] && p[3] == d[pos + 3]);
    assert(be_i32_of(p, 0) == be_i32_of(d, pos));
    assert(p.subrange(4, p.len() as int) =~= d.subrange(pos + 4, hi));
}

fn read_i32_list(data: &Vec<u8>, lo: usize, hi: usize) -> (r: Vec<i64>)
    requires
        lo <= hi <= data@.len(),
        (hi - lo) % 4 == 0,
    ensures
        r@ == spec_i32_list(data@.subrange(lo as int, hi as int)),
{
    let mut out: Vec<i64> = Vec::new();
    let mut pos = lo;
    proof {
        assert(Seq::<i64>::empty() + spec_i32_list(data@.subrange(lo as int, hi as int))
            =~= spec_i32_list(data@.subrange(lo as int, hi as int)));
    }
    while pos < hi
        invariant
            lo <= pos <= hi <= data@.len(),
            (hi - pos) % 4 == 0,
            spec_i32_list(data@.subrange(lo as int, hi as int)) == out@ + spec_i32_list(
                data@.subrange(pos as int, hi as int),
            ),
        decreases hi - pos,
    {
        let v = be_i32(data, pos);
        proof {
            lemma_i32_list_step(data@, lo as int, pos as int, hi as int);
            assert(out@ + (seq![v as i64] + spec_i32_list(
                data@.subrange(pos + 4, hi as int),
            )) =~= out@.push(v as i64) + spec_i32_list(data@.subrange(pos + 4, hi as int)));
        }
        out.push(v as i64);
        pos = pos + 4;
    }
    proof {
        assert(spec_i32_list(data@.subrange(hi as int, hi as int)) =~= Seq::<i64>::empty());
        assert(out@ =~= out@ + Seq::<i64>::empty());
    }
    out
}

proof fn lemma_i16_list_step(d: Seq<u8>, lo: int, pos: int, hi: int)
    requires
        0 <= lo <= pos,
        pos + 2 <= hi <= d.len(),
    ensures
        spec_i16_list(d.subrange(pos, hi)) == seq![be_i16_of(d, pos) as i64] + spec_i16_list(
            d.subrange(pos + 2, hi),
        ),
{
    let p = d.subrange(pos, hi);
    assert(p[0] == d[pos] && p[1] == d[pos + 1]);
    assert(be_i16_of(p, 0) == be_i16_of(d, pos));
    assert(p.subrange(2, p.len() as int) =~= d.subrange(pos + 2, hi));
}

fn read_i16_list(data: &Vec<u8>, lo: usize, hi: usize) -> (r: Vec<i64>)
    requires
        lo <= hi <= data@.len(),
        (hi - lo) % 2 == 0,
    ensures
        r@ == spec_i16_list(data@.subrange(lo as int, hi as int)),
{
    let mut out: Vec<i64> = Vec::new();
    let mut pos = lo;
    proof {
        assert(Seq::<i64>::empty() + spec_i16_list(data@.subrange(lo as int, hi as int))
            =~= spec_i16_list(data@.subrange(lo as int, hi as int)));
    }
    while pos < hi
        invariant
            lo <= pos <= hi <= data@.len(),
            (hi - pos) % 2 == 0,
            spec_i16_list(data@.subrange(lo as int, hi as int)) == out@ + spec_i16_list(
                data@.subrange(pos as int, hi as int),
            ),
        decreases hi - pos,
    {
        let v = be_i16(data, pos);
        proof {
            lemma_i16_list_step(data@, lo as int, pos as int, hi as int);
            assert(out@ + (seq![v as i64] + spec_i16_list(
                data@.subrange(pos + 2, hi as int),
            )) =~= out@.push(v as i64) + spec_i16_list(data@.subrange(pos + 2, hi as int)));
        }
        out.push(v as i64);
        pos = pos + 2;
    }
    proof {
        assert(spec_i16_list(data@.subrange(hi as int, hi as int)) =~= Seq::<i64>::empty());
        assert(out@ =~= out@ + Seq::<i64>::empty());
    }
    out
}

proof fn lemma_gps_list_step(d: Seq<u8>, lo: int, pos: int, hi: int)
    requires
        0 <= lo <= pos,
        pos + 20 <= hi <= d.len(),
    ensures
        spec_gps_list(d.subrange(pos, hi)) == seq![spec_gps_at(d, pos)] + spec_gps_list(
            d.subrange(pos + 20, hi),
        ),
{
    let p = d.subrange(pos, hi);
    assert forall|j: int| 0 <= j < 20 implies p[j] == d[pos + j] by {}
    assert(spec_gps_at(p, 0) == spec_gps_at(d, pos));
    assert(p.subrange(20, p.len() as int) =~= d.subrange(pos + 20, hi));
}

#[verifier::rlimit(50)]
fn read_gps_list(data: &Vec<u8>, lo: usize, hi: usize) -> (r: Vec<GpsSample>)
    requires
        lo <= hi <= data@.len(),
        (hi - lo) % 20 == 0,
    ensures
        r@ == spec_gps_list(data@.subrange(lo as int, hi as int)),
{
    let mut out: Vec<GpsSample> = Vec::new();
    let mut pos = lo;
    proof {
        assert(Seq::<GpsSample>::empty() + spec_gps_list(data@.subrange(lo as int, hi as int))
            =~= spec_gps_list(data@.subrange(lo as int, hi as int)));
    }
    while pos < hi
        invariant
            lo <= pos <= hi <= data@.len(),
            (hi - pos) % 20 == 0,
            spec_gps_list(data@.subrange(lo as int, hi as int)) == out@ + spec_gps_list(
                data@.subrange(pos as int, hi as int),
            ),
        decreases hi - pos,
    {
        let sample = GpsSample {
            latitude: be_i32(data, pos),
            longitude: be_i32(data, pos + 4),
            altitude: be_i32(data, pos + 8),
            speed_2d: be_i32(data, pos + 12),
            speed_3d: be_i32(data, pos + 16),
        };
        proof {
            lemma_gps_list_step(data@, lo as int, pos as int, hi as int);
            assert(sample == spec_gps_at(data@, pos as int));
            assert(out@ + (seq![sample] + spec_gps_list(
                data@.subrange(pos + 20, hi as int),
            )) =~= out@.push(sample) + spec_gps_list(data@.subrange(pos + 20, hi as int)));
        }
        out.push(sample);
        pos = pos + 20;
    }
    proof {
        assert(spec_gps_list(data@.subrange(hi as int, hi as int)) =~= Seq::<GpsSample>::empty());
        assert(out@ =~= out@ + Seq::<GpsSample>::empty());
    }
    out
}


proof fn lemma_opt_prepend_compose(p: Seq<GpmfView>, e: GpmfView, o: Option<Seq<GpmfView>>)
    ensures
        opt_prepend(p, opt_prepend(seq![e], o)) == opt_prepend(p.push(e), o),
{
    match o {
        Some(r) => {
            assert(p + (seq![e] + r) =~= p.push(e) + r);
        },
        Option::None => {},
    }
}

/// Decodes the elements covering `data[lo..hi)` exactly, under the
/// scale scope `divs0` (threaded forward only when `strm`).
fn parse_block(data: &Vec<u8>, lo: usize, hi: usize, strm: bool, divs0: &Vec<i64>) -> (r: Result<
    Vec<Gpmf>,
    Error,
>)
    requires
        lo <= hi <= data@.len(),
    ensures
        (r is Ok) == (spec_parse_block(data@.subrange(lo as int, hi as int), strm, divs0@)
            is Some),
        r matches Ok(es) ==> Some(views_of(es@)) == spec_parse_block(
            data@.subrange(lo as int, hi as int),
            strm,
            divs0@,
        ),
        r matches Err(e) ==> e == Error::MalformedTelemetry,
    decreases hi - lo,
{
    let ghost whole = data@.subrange(lo as int, hi as int);
    let mut out: Vec<Gpmf> = Vec::new();
    let mut cur = copy_divs(divs0);
    let mut pos = lo;
    proof {
        assert(views_of(out@) =~= Seq::<GpmfView>::empty());
        match spec_parse_block(whole, strm, divs0@) {
            Some(r0) => {
                assert(Seq::<GpmfView>::empty() + r0 =~= r0);
            },
            Option::None => {},
        }
    }
    loop
        invariant
            lo <= pos <= hi <= data@.len(),
            whole == data@.subrange(lo as int, hi as int),
            spec_parse_block(whole, strm, divs0@) == opt_prepend(
                views_of(out@),
                spec_parse_block(data@.subrange(pos as int, hi as int), strm, cur@),
            ),
        decreases hi - pos,
    {
        let ghost tail = data@.subrange(pos as int, hi as int);
        let ghost cur0 = cur@;
        let ghost out0 = out@;
        if pos == hi {
            proof {
                assert(tail.len() == 0);
                assert(views_of(out@) + Seq::<GpmfView>::empty() =~= views_of(out@));
            }
            return Ok(out);
        }
        if hi - pos < 8 {
            proof {
                assert(0 < tail.len() < 8);
            }
            return Err(Error::MalformedTelemetry);
        }
        let key = be_u32(data, pos);
        let kind = data[pos + 4];
        let size = data[pos + 5];
        let count = be_u16(data, pos + 6);
        proof {
            assert((size as int) * (count as int) < 0x100_0000) by (nonlinear_arith)
                requires
                    size as int <= 255,
                    count as int <= 65535,
            ;
        }
        let dsz = (size as usize) * (count as usize);
        let padded = align(dsz);
        proof {
            assert(tail[4] == data@[pos + 4] && tail[5] == data@[pos + 5]);
            assert(tail[0] == data@[pos as int] && tail[1] == data@[pos + 1]);
            assert(tail[2] == data@[pos + 2] && tail[3] == data@[pos + 3]);
            assert(tail[6] == data@[pos + 6] && tail[7] == data@[pos + 7]);
            assert(be_u32_of(tail, 0) == be_u32_of(data@, pos as int));
            assert(be_u16_of(tail, 6) == be_u16_of(data@, pos as int + 6));
        }
        if hi - pos - 8 < padded {
            proof {
                assert(tail.len() < 8 + spec_pad4((size as nat) * (count as nat)));
            }
            return Err(Error::MalformedTelemetry);
        }
        let plo = pos + 8;
        let phi = pos + 8 + dsz;
        let ghost payload = data@.subrange(plo as int, phi as int);
        let ghost raw = data@.subrange(plo as int, pos + 8 + padded as int);
        proof {
            assert(tail.subrange(8, 8 + dsz as int) =~= payload);
            assert(tail.subrange(8, 8 + spec_pad4((size as nat) * (count as nat)) as int)
                =~= raw);
        }
        let elem: Gpmf;
        if key == KEY_DEVC && kind == KIND_NULL {
            let scope: Vec<i64> = Vec::new();
            match parse_block(data, plo, phi, false, &scope) {
                Ok(entries) => {
                    elem = Gpmf::Klv { key, entries };
                },
                Err(e) => {
                    proof {
                        assert(spec_parse_elem(key, kind, size, count, payload, raw, cur0) is None);
                    }
                    return Err(e);
                },
            }
        } else if key == KEY_STRM && kind == KIND_NULL {
            let scope: Vec<i64> = Vec::new();
            match parse_block(data, plo, phi, true, &scope) {
                Ok(entries) => {
                    elem = Gpmf::Klv { key, entries };
                },
                Err(e) => {
                    proof {
                        assert(spec_parse_elem(key, kind, size, count, payload, raw, cur0) is None);
                    }
                    return Err(e);
                },
            }
        } else if key == KEY_SCAL && kind == KIND_I32 {
            if dsz % 4 != 0 {
                proof {
                    assert(payload.len() % 4 != 0);
                    assert(spec_parse_elem(key, kind, size, count, payload, raw, cur0) is None);
                }
                return Err(Error::MalformedTelemetry);
            }
            let divisors = read_i32_list(data, plo, phi);
            if strm {
                cur = copy_divs(&divisors);
            }
            elem = Gpmf::Scale { divisors, wide: true };
        } else if key == KEY_SCAL && kind == KIND_I16 {
            if dsz % 2 != 0 {
                proof {
                    assert(payload.len() % 2 != 0);
                    assert(spec_parse_elem(key, kind, size, count, payload, raw, cur0) is None);
                }
                return Err(Error::MalformedTelemetry);
            }
            let divisors = read_i16_list(data, plo, phi);
            if strm {
                cur = copy_divs(&divisors);
            }
            elem = Gpmf::Scale { divisors, wide: false };
        } else if key == KEY_GPS5 && kind == KIND_I32 {
            if dsz % 20 != 0 {
                proof {
                    assert(payload.len() % 20 != 0);
                    assert(spec_parse_elem(key, kind, size, count, payload, raw, cur0) is None);
                }
                return Err(Error::MalformedTelemetry);
            }
            let entries = read_gps_list(data, plo, phi);
            let divisors = copy_divs(&cur);
            elem = Gpmf::Gps5 { entries, divisors };
        } else {
            let bytes = copy_bytes(data, plo, pos + 8 + padded);
            elem = Gpmf::Unknown { key, kind, size, count, data: bytes };
        }
        proof {
            let e = view_of(elem);
            assert(spec_parse_elem(key, kind, size, count, payload, raw, cur0) == Some(e));
            let divs2 = match e {
                GpmfView::Scale { divisors: ds, .. } => if strm {
                    ds
                } else {
                    cur0
                },
                _ => cur0,
            };
            assert(cur@ == divs2);
            let rest = data@.subrange(pos + 8 + padded as int, hi as int);
            assert(tail.subrange(8 + spec_pad4((size as nat) * (count as nat)) as int,
                tail.len() as int) =~= rest);
            assert(spec_parse_block(tail, strm, cur0) == opt_prepend(
                seq![e],
                spec_parse_block(rest, strm, cur@),
            ));
            lemma_views_of_push(out0, elem);
            lemma_opt_prepend_compose(views_of(out0), e, spec_parse_block(rest, strm, cur@));
        }
        out.push(elem);
        pos = pos + 8 + padded;
    }
}

/// Decodes a whole telemetry buffer into its top-level elements.
///
/// Succeeds exactly when the buffer is a valid encoding
/// (`spec_parse`), covering it entirely; the result is that
/// encoding's denotation.  An unrecognized element never fails the
/// decode; a truncated header, an overrunning payload or an ill-sized
/// recognized payload always does.
pub fn parse(input: &Vec<u8>) -> (r: Result<Vec<Gpmf>, Error>)
    ensures
        (r is Ok) == (spec_parse(input@) is Some),
        r matches Ok(es) ==> Some(views_of(es@)) == spec_parse(input@),
        r matches Err(e) ==> e == Error::MalformedTelemetry && spec_parse(input@) is None,
{
    let scope: Vec<i64> = Vec::new();
    let n = input.len();
    proof {
        assert(input@.subrange(0, n as int) =~= input@);
    }
    parse_block(input, 0, n, false, &scope)
}


/// The number of encoded bytes one element stands for: its eight-byte
/// header plus its payload padded to four-byte alignment.
pub open spec fn elem_len(e: GpmfView) -> nat
    decreases e,
{
    match e {
        GpmfView::Klv { entries, .. } => 8 + elems_len(entries),
        GpmfView::Gps5 { entries, .. } => 8 + spec_pad4(entries.len() * 20),
        GpmfView::Scale { divisors, wide } => 8 + spec_pad4(
            divisors.len() * (if wide {
                4nat
            } else {
                2nat
            }),
        ),
        GpmfView::Unknown { data, .. } => 8 + spec_pad4(data.len()),
    }
}

/// The number of encoded bytes a sequence of elements stands for.
pub open spec fn elems_len(es: Seq<GpmfView>) -> nat
    decreases es,
{
    if es.len() == 0 {
        0
    } else {
        elem_len(es[0]) + elems_len(es.subrange(1, es.len() as int))
    }
}

proof fn lemma_i32_list_len(p: Seq<u8>)
    requires
        p.len() % 4 == 0,
    ensures
        spec_i32_list(p).len() * 4 == p.len(),
    decreases p.len(),
{
    if p.len() >= 4 {
        lemma_i32_list_len(p.subrange(4, p.len() as int));
    }
}

proof fn lemma_i16_list_len(p: Seq<u8>)
    requires
        p.len() % 2 == 0,
    ensures
        spec_i16_list(p).len() * 2 == p.len(),
    decreases p.len(),
{
    if p.len() >= 2 {
        lemma_i16_list_len(p.subrange(2, p.len() as int));
    }
}

proof fn lemma_gps_list_len(p: Seq<u8>)
    requires
        p.len() % 20 == 0,
    ensures
        spec_gps_list(p).len() * 20 == p.len(),
    decreases p.len(),
{
    if p.len() >= 20 {
        lemma_gps_list_len(p.subrange(20, p.len() as int));
    }
}

/// Round-trip of structure for one block: a successful decode
/// accounts for every byte — the elements' encoded lengths sum to the
/// block's length exactly, and that length is four-byte aligned.
#[verifier::rlimit(50)]
pub proof fn lemma_parse_block_len(d: Seq<u8>, strm: bool, divs: Seq<i64>)
    requires
        spec_parse_block(d, strm, divs) is Some,
    ensures
        elems_len(spec_parse_block(d, strm, divs)->0) == d.len(),
        d.len() % 4 == 0,
    decreases d.len(),
{
    let es = spec_parse_block(d, strm, divs)->0;
    if d.len() == 0 {
    } else {
        let key = be_u32_of(d, 0);
        let kind = d[4];
        let size = d[5];
        let count = be_u16_of(d, 6);
        let dsz = (size as nat) * count;
        let padded = spec_pad4(dsz);
        let payload = d.subrange(8, 8 + dsz as int);
        let raw = d.subrange(8, 8 + padded as int);
        let elem = spec_parse_elem(key as u32, kind, size, count as u16, payload, raw, divs)->0;
        let divs2 = match elem {
            GpmfView::Scale { divisors: ds, .. } => if strm {
                ds
            } else {
                divs
            },
            _ => divs,
        };
        let rest = d.subrange(8 + padded as int, d.len() as int);
        let rest_es = spec_parse_block(rest, strm, divs2)->0;
        lemma_parse_block_len(rest, strm, divs2);
        assert(es == seq![elem] + rest_es);
        assert(es.subrange(1, es.len() as int) =~= rest_es);
        assert(es[0] == elem);
        if key == KEY_DEVC && kind == KIND_NULL {
            lemma_parse_block_len(payload, false, Seq::empty());
            assert(elem_len(elem) == 8 + dsz);
            assert(padded == dsz);
        } else if key == KEY_STRM && kind == KIND_NULL {
            lemma_parse_block_len(payload, true, Seq::empty());
            assert(elem_len(elem) == 8 + dsz);
            assert(padded == dsz);
        } else if key == KEY_SCAL && kind == KIND_I32 {
            lemma_i32_list_len(payload);
            assert(elem_len(elem) == 8 + spec_pad4(dsz));
        } else if key == KEY_SCAL && kind == KIND_I16 {
            lemma_i16_list_len(payload);
            assert(elem_len(elem) == 8 + spec_pad4(dsz));
        } else if key == KEY_GPS5 && kind == KIND_I32 {
            lemma_gps_list_len(payload);
            assert(elem_len(elem) == 8 + spec_pad4(dsz));
        } else {
            assert(raw.len() == padded);
            assert(spec_pad4(padded) == padded);
            assert(elem_len(elem) == 8 + spec_pad4(dsz));
        }
        assert(elems_len(es) == elem_len(elem) + elems_len(rest_es));
        assert(d.len() == 8 + padded + rest.len());
    }
}

/// Round-trip of structure for a whole buffer: decoding then
/// re-traversing the tree yields a byte count that matches the
/// buffer's length exactly — no leftover, no overrun.
pub proof fn lemma_parse_covers_buffer(d: Seq<u8>)
    requires
        spec_parse(d) is Some,
    ensures
        elems_len(spec_parse(d)->0) == d.len(),
{
    lemma_parse_block_len(d, false, Seq::empty());
}


/// The divisors a GPS run carries (empty for any other element).
pub open spec fn gps_divisors(e: GpmfView) -> Seq<i64> {
    match e {
        GpmfView::Gps5 { divisors, .. } => divisors,
        _ => Seq::empty(),
    }
}

/// The scale scope in force just before index `i` among siblings
/// `es`: the divisors of the nearest preceding `Scale` element, or
/// the entry scope `divs0` when none precedes.
pub open spec fn scope_before(es: Seq<GpmfView>, i: int, divs0: Seq<i64>) -> Seq<i64>
    decreases i,
{
    if i <= 0 {
        divs0
    } else {
        match es[i - 1] {
            GpmfView::Scale { divisors, .. } => divisors,
            _ => scope_before(es, i - 1, divs0),
        }
    }
}

/// Scale scoping holds throughout a decoded tree: inside a stream
/// container every GPS run carries the divisors of the nearest
/// preceding `Scale` sibling (none preceding: the empty scope, all
/// divisors defaulting to one), and inside a device container scale
/// elements do not apply at all.  Each container starts from the
/// empty scope, so no scope leaks across sibling streams.
pub open spec fn scopes_wf(e: GpmfView) -> bool
    decreases e,
{
    match e {
        GpmfView::Klv { key, entries } => {
            &&& forall|i: int| 0 <= i < entries.len() ==> scopes_wf(#[trigger] entries[i])
            &&& if key == KEY_STRM {
                forall|i: int|
                    0 <= i < entries.len() && entries[i] is Gps5 ==> gps_divisors(#[trigger] entries[i])
                        == scope_before(entries, i, Seq::empty())
            } else {
                forall|i: int|
                    0 <= i < entries.len() && entries[i] is Gps5 ==> gps_divisors(#[trigger] entries[i])
                        =~= Seq::<i64>::empty()
            }
        },
        _ => true,
    }
}

proof fn lemma_scope_before_shift(e: GpmfView, rest: Seq<GpmfView>, j: int, divs0: Seq<i64>)
    requires
        0 <= j <= rest.len(),
    ensures
        scope_before(seq![e] + rest, j + 1, divs0) == scope_before(
            rest,
            j,
            match e {
                GpmfView::Scale { divisors, .. } => divisors,
                _ => divs0,
            },
        ),
    decreases j,
{
    let es = seq![e] + rest;
    let d2 = match e {
        GpmfView::Scale { divisors, .. } => divisors,
        _ => divs0,
    };
    if j == 0 {
        assert(es[0] == e);
        match e {
            GpmfView::Scale { .. } => {
                assert(scope_before(es, 1, divs0) == d2);
            },
            _ => {
                assert(scope_before(es, 1, divs0) == scope_before(es, 0, divs0));
            },
        }
    } else {
        assert(es[j] == rest[j - 1]);
        lemma_scope_before_shift(e, rest, j - 1, divs0);
        match rest[j - 1] {
            GpmfView::Scale { .. } => {
                assert(scope_before(es, j + 1, divs0) == scope_before(rest, j, d2));
            },
            _ => {
                assert(scope_before(es, j + 1, divs0) == scope_before(es, j, divs0));
                assert(scope_before(rest, j, d2) == scope_before(rest, j - 1, d2));
            },
        }
    }
}

proof fn lemma_parse_block_scopes(d: Seq<u8>, strm: bool, divs: Seq<i64>)
    requires
        spec_parse_block(d, strm, divs) is Some,
    ensures
        ({
            let es = spec_parse_block(d, strm, divs)->0;
            &&& forall|i: int| 0 <= i < es.len() ==> scopes_wf(#[trigger] es[i])
            &&& strm ==> forall|i: int|
                0 <= i < es.len() && es[i] is Gps5 ==> gps_divisors(#[trigger] es[i])
                    == scope_before(es, i, divs)
            &&& !strm ==> forall|i: int|
                0 <= i < es.len() && es[i] is Gps5 ==> gps_divisors(#[trigger] es[i]) == divs
        }),
    decreases d.len(),
{
    let es = spec_parse_block(d, strm, divs)->0;
    if d.len() == 0 {
    } else {
        let key = be_u32_of(d, 0);
        let kind = d[4];
        let size = d[5];
        let count = be_u16_of(d, 6);
        let dsz = (size as nat) * count;
        let padded = spec_pad4(dsz);
        let payload = d.subrange(8, 8 + dsz as int);
        let raw = d.subrange(8, 8 + padded as int);
        let elem = spec_parse_elem(key as u32, kind, size, count as u16, payload, raw, divs)->0;
        let divs2 = match elem {
            GpmfView::Scale { divisors: ds, .. } => if strm {
                ds
            } else {
                divs
            },
            _ => divs,
        };
        let rest = d.subrange(8 + padded as int, d.len() as int);
        let rest_es = spec_parse_block(rest, strm, divs2)->0;
        lemma_parse_block_scopes(rest, strm, divs2);
        assert(es == seq![elem] + rest_es);
        if key == KEY_DEVC && kind == KIND_NULL {
            lemma_parse_block_scopes(payload, false, Seq::empty());
            assert(scopes_wf(elem));
        } else if key == KEY_STRM && kind == KIND_NULL {
            lemma_parse_block_scopes(payload, true, Seq::empty());
            assert(scopes_wf(elem));
        } else {
            assert(scopes_wf(elem));
        }
        assert forall|i: int| 0 <= i < es.len() implies scopes_wf(#[trigger] es[i]) by {
            if i == 0 {
                assert(es[0] == elem);
            } else {
                assert(es[i] == rest_es[i - 1]);
            }
        }
        if strm {
            assert forall|i: int| 0 <= i < es.len() && es[i] is Gps5 implies gps_divisors(
                #[trigger] es[i],
            ) == scope_before(es, i, divs) by {
                if i == 0 {
                    assert(es[0] == elem);
                } else {
                    assert(es[i] == rest_es[i - 1]);
                    lemma_scope_before_shift(elem, rest_es, i - 1, divs);
                }
            }
        } else {
            assert forall|i: int| 0 <= i < es.len() && es[i] is Gps5 implies gps_divisors(
                #[trigger] es[i],
            ) == divs by {
                if i == 0 {
                    assert(es[0] == elem);
                } else {
                    assert(es[i] == rest_es[i - 1]);
                }
            }
        }
    }
}

/// Scale scoping for a whole decode: every container in the tree
/// satisfies `scopes_wf`, and a GPS run at the top level (outside any
/// stream) carries the empty scope — every component divides by the
/// default of one.
pub proof fn lemma_parse_scale_scope(d: Seq<u8>)
    requires
        spec_parse(d) is Some,
    ensures
        forall|i: int|
            0 <= i < spec_parse(d)->0.len() ==> scopes_wf(#[trigger] spec_parse(d)->0[i]),
        forall|i: int|
            0 <= i < spec_parse(d)->0.len() && spec_parse(d)->0[i] is Gps5 ==> gps_divisors(
                #[trigger] spec_parse(d)->0[i],
            ) =~= Seq::<i64>::empty(),
{
    lemma_parse_block_scopes(d, false, Seq::empty());
}

/// The divisor applied to component `i` of a GPS sample: the `i`-th
/// scale divisor in scope, defaulting to one when the scope is
/// shorter.
pub open spec fn spec_divisor(divs: Seq<i64>, i: int) -> i64 {
    if 0 <= i < divs.len() {
        divs[i]
    } else {
        1
    }
}

/// The divisor for component `i` under the scope `divs`
/// (`spec_divisor`): divisors past the end of a scale element default
/// to one.
pub fn divisor(divs: &Vec<i64>, i: usize) -> (r: i64)
    ensures
        r == spec_divisor(divs@, i as int),
{
    if i < divs.len() {
        divs[i]
    } else {
        1
    }
}


proof fn lemma_elems_len_drop(es: Seq<GpmfView>, i: int)
    requires
        0 <= i < es.len(),
    ensures
        elems_len(es.subrange(i, es.len() as int)) == elem_len(es[i]) + elems_len(
            es.subrange(i + 1, es.len() as int),
        ),
{
    let t = es.subrange(i, es.len() as int);
    assert(t[0] == es[i]);
    assert(t.subrange(1, t.len() as int) =~= es.subrange(i + 1, es.len() as int));
}

/// The encoded length of one element (`elem_len`), or nothing when
/// it does not fit a machine word.
pub fn element_len(g: &Gpmf) -> (r: Option<u64>)
    ensures
        r matches Some(n) ==> n as nat == elem_len(view_of(*g)),
        r is None ==> elem_len(view_of(*g)) > u64::MAX,
    decreases *g,
{
    match g {
        Gpmf::Klv { entries, .. } => {
            match traversed_len(entries) {
                Some(n) => {
                    if n <= u64::MAX - 8 {
                        Some(8 + n)
                    } else {
                        Option::None
                    }
                },
                Option::None => Option::None,
            }
        },
        Gpmf::Gps5 { entries, .. } => {
            let total: u128 = (entries.len() as u128) * 20 + 8;
            proof {
                vstd::arithmetic::div_mod::lemma_mod_multiples_basic(
                    5 * entries@.len() as int,
                    4,
                );
                assert(entries@.len() * 20 == (5 * entries@.len()) * 4) by (nonlinear_arith);
                assert(spec_pad4((entries@.len() * 20) as nat) == entries@.len() * 20);
            }
            if total <= 0xFFFF_FFFF_FFFF_FFFF {
                Some(total as u64)
            } else {
                Option::None
            }
        },
        Gpmf::Scale { divisors, wide } => {
            let semantic: u128 = (divisors.len() as u128) * (if *wide {
                4
            } else {
                2
            });
            let padded: u128 = if semantic % 4 == 0 {
                semantic
            } else {
                semantic + (4 - semantic % 4)
            };
            proof {
                if *wide {
                    vstd::arithmetic::div_mod::lemma_mod_multiples_basic(
                        divisors@.len() as int,
                        4,
                    );
                }
                assert(padded as nat == spec_pad4(
                    (divisors@.len() * (if *wide {
                        4nat
                    } else {
                        2nat
                    })) as nat,
                ));
            }
            if padded <= 0xFFFF_FFFF_FFFF_FFF7 {
                Some((padded + 8) as u64)
            } else {
                Option::None
            }
        },
        Gpmf::Unknown { data, .. } => {
            let semantic: u128 = data.len() as u128;
            let padded: u128 = if semantic % 4 == 0 {
                semantic
            } else {
                semantic + (4 - semantic % 4)
            };
            proof {
                assert(padded as nat == spec_pad4(data@.len()));
            }
            if padded <= 0xFFFF_FFFF_FFFF_FFF7 {
                Some((padded + 8) as u64)
            } else {
                Option::None
            }
        },
    }
}

/// Re-traverses a decoded tree, summing every element's encoded
/// length (`elems_len`); nothing when the sum does not fit a machine
/// word.  On the result of a successful `parse` this is exactly the
/// input buffer's length (`lemma_parse_covers_buffer`).
pub fn traversed_len(elems: &Vec<Gpmf>) -> (r: Option<u64>)
    ensures
        r matches Some(n) ==> n as nat == elems_len(views_of(elems@)),
        r is None ==> elems_len(views_of(elems@)) > u64::MAX,
    decreases elems@,
{
    let ghost vs = views_of(elems@);
    proof {
        lemma_views_of(elems@);
        assert(vs.subrange(0, elems@.len() as int) =~= vs);
    }
    let n = elems.len();
    let mut total: u64 = 0;
    let mut i: usize = 0;
    while i < n
        invariant
            i <= n,
            n == elems@.len(),
            vs == views_of(elems@),
            vs.len() == n,
            forall|k: int| 0 <= k < n ==> vs[k] == view_of(#[trigger] elems@[k]),
            total as nat + elems_len(vs.subrange(i as int, n as int)) == elems_len(vs),
        decreases n - i,
    {
        proof {
            lemma_elems_len_drop(vs, i as int);
        }
        match element_len(&elems[i]) {
            Some(len) => {
                if total <= u64::MAX - len {
                    total = total + len;
                } else {
                    return Option::None;
                }
            },
            Option::None => {
                return Option::None;
            },
        }
        i = i + 1;
    }
    proof {
        assert(vs.subrange(n as int, n as int) =~= Seq::<GpmfView>::empty());
    }
    Some(total)
}

} // verus!
