//! Fixed-width value quantisation for page records.
//!
//! Every record in a page file is 8 bytes: `(object_val: u32, subject_id: u32)`.
//! The `object_val` encoding depends on the predicate's value type; all
//! encodings are sortable `u32` values.

use vstd::prelude::*;
use crate::codec::{get_le32, le32, lemma_get_le32_at, lemma_get_le32_sub, lemma_le32_roundtrip};
use crate::datatype_class::{classify_datatype, spec_classify_datatype, DatatypeClass};
use crate::decimal::{parse_i32, parse_u32, spec_parse_i32, spec_parse_u32};
use vstd::string::*;
use vstd::relations::sorted_by;
use crate::sort::{leq, merge_sort};

verus! {

/// A quantised page record: 8 bytes, ordered by `(object_val, subject_id)`.
#[derive(Debug, Clone, Copy, PartialEq, Eq, PartialOrd, Ord, Hash, Structural)]
pub struct PageRecord {
    /// Quantised object value (encoding depends on predicate type).
    pub object_val: u32,
    /// Subject resource, as dictionary ID.
    pub subject_id: u32,
}

/// The 8-byte encoding of a record.
pub open spec fn record_bytes(r: PageRecord) -> Seq<u8> {
    le32(r.object_val) + le32(r.subject_id)
}

/// The record encoded by the 8 bytes at `pos`.
pub open spec fn record_at(s: Seq<u8>, pos: int) -> PageRecord {
    PageRecord { object_val: get_le32(s, pos), subject_id: get_le32(s, pos + 4) }
}

pub proof fn lemma_record_roundtrip(a: Seq<u8>, r: PageRecord, b: Seq<u8>)
    ensures
        record_bytes(r).len() == 8,
        record_at(a + record_bytes(r) + b, a.len() as int) == r,
{
    lemma_le32_roundtrip(r.object_val);
    lemma_le32_roundtrip(r.subject_id);
    assert(a + record_bytes(r) + b == a + le32(r.object_val) + (le32(r.subject_id) + b));
    lemma_get_le32_at(a, r.object_val, le32(r.subject_id) + b);
    assert(a + record_bytes(r) + b == (a + le32(r.object_val)) + le32(r.subject_id) + b);
    lemma_get_le32_at(a + le32(r.object_val), r.subject_id, b);
}

impl PageRecord {
    pub fn to_bytes(&self) -> (r: [u8; 8])
        ensures
            r@ == record_bytes(*self),
    {
        let o = self.object_val;
        let s = self.subject_id;
        let r = [
            (o & 0xff) as u8,
            ((o >> 8) & 0xff) as u8,
            ((o >> 16) & 0xff) as u8,
            ((o >> 24) & 0xff) as u8,
            (s & 0xff) as u8,
            ((s >> 8) & 0xff) as u8,
            ((s >> 16) & 0xff) as u8,
            ((s >> 24) & 0xff) as u8,
        ];
        assert(r@ =~= record_bytes(*self));
        r
    }

    pub fn from_bytes(bytes: &[u8; 8]) -> (r: Self)
        ensures
            r == record_at(bytes@, 0),
    {
        let object_val = (bytes[0] as u32) | ((bytes[1] as u32) << 8u32) | ((bytes[2] as u32)
            << 16u32) | ((bytes[3] as u32) << 24u32);
        let subject_id = (bytes[4] as u32) | ((bytes[5] as u32) << 8u32) | ((bytes[6] as u32)
            << 16u32) | ((bytes[7] as u32) << 24u32);
        PageRecord { subject_id, object_val }
    }
}

/// The concatenated encodings of a sequence of records.
pub open spec fn records_bytes(rs: Seq<PageRecord>) -> Seq<u8>
    decreases rs.len(),
{
    if rs.len() == 0 {
        Seq::empty()
    } else {
        records_bytes(rs.drop_last()) + record_bytes(rs.last())
    }
}

pub proof fn lemma_records_bytes_len(rs: Seq<PageRecord>)
    ensures
        records_bytes(rs).len() == 8 * rs.len(),
    decreases rs.len(),
{
    if rs.len() > 0 {
        lemma_records_bytes_len(rs.drop_last());
    }
}

/// The `i`-th record of an encoded sequence sits at byte `8 * i`.
pub proof fn lemma_records_bytes_index(rs: Seq<PageRecord>, i: int)
    requires
        0 <= i < rs.len(),
    ensures
        record_at(records_bytes(rs), 8 * i) == rs[i],
    decreases rs.len(),
{
    let init = rs.drop_last();
    lemma_records_bytes_len(init);
    lemma_records_bytes_len(rs);
    if i == rs.len() - 1 {
        lemma_record_roundtrip(records_bytes(init), rs.last(), Seq::empty());
        assert(records_bytes(init) + record_bytes(rs.last()) + Seq::<u8>::empty()
            == records_bytes(rs));
    } else {
        lemma_records_bytes_index(init, i);
        let s = records_bytes(rs);
        let t = records_bytes(init);
        assert(s.subrange(8 * i, 8 * i + 4) =~= t.subrange(8 * i, 8 * i + 4));
        assert(s.subrange(8 * i + 4, 8 * i + 8) =~= t.subrange(8 * i + 4, 8 * i + 8));
        lemma_get_le32_sub(s, t, 8 * i, 8 * i);
        lemma_get_le32_sub(s, t, 8 * i + 4, 8 * i + 4);
    }
}

/// The type of quantisation applied to a predicate's values.
#[derive(Debug, Clone, Copy, PartialEq, Eq, Structural)]
pub enum QuantizeType {
    /// Exact dictionary ID (resource-instance, domain-value).
    DictionaryId,
    /// Concept DFS interval encoding (concept, concept-list).
    ConceptDfs,
    /// Boolean (0 or 1).
    Boolean,
    /// Days since Unix epoch (date, edtf).
    DaysSinceEpoch,
    /// 2D Hilbert index over a u16 grid (point or bbox centroid).
    HilbertGeo,
}

/// The quantisation strategy of a datatype; `None` for types that are not indexed.
pub open spec fn spec_quantize_type(d: Seq<char>) -> Option<QuantizeType> {
    match spec_classify_datatype(d) {
        Some(DatatypeClass::Concept) => Some(QuantizeType::ConceptDfs),
        Some(DatatypeClass::ResourceInstance) => Some(QuantizeType::DictionaryId),
        Some(DatatypeClass::DomainValue) => Some(QuantizeType::DictionaryId),
        Some(DatatypeClass::Boolean) => Some(QuantizeType::Boolean),
        Some(DatatypeClass::Date) => Some(QuantizeType::DaysSinceEpoch),
        Some(DatatypeClass::GeoJson) => Some(QuantizeType::HilbertGeo),
        _ => None,
    }
}

/// Classify an alizarin datatype into its quantisation strategy.
/// Returns `None` for types that are not indexed (string, number, etc.).
pub fn quantize_type_for_datatype(datatype: &str) -> (r: Option<QuantizeType>)
    ensures
        r == spec_quantize_type(datatype@),
{
    match classify_datatype(datatype) {
        Some(DatatypeClass::Concept) => Some(QuantizeType::ConceptDfs),
        Some(DatatypeClass::ResourceInstance) => Some(QuantizeType::DictionaryId),
        Some(DatatypeClass::DomainValue) => Some(QuantizeType::DictionaryId),
        Some(DatatypeClass::Boolean) => Some(QuantizeType::Boolean),
        Some(DatatypeClass::Date) => Some(QuantizeType::DaysSinceEpoch),
        Some(DatatypeClass::GeoJson) => Some(QuantizeType::HilbertGeo),
        _ => None,
    }
}

/// Boolean → 0 or 1.
pub fn quantize_bool(v: bool) -> (r: u32)
    ensures
        r == (if v { 1u32 } else { 0u32 }),
{
    if v {
        1
    } else {
        0
    }
}

// ---------------------------------------------------------------------------
// Dates
// ---------------------------------------------------------------------------

/// Integer division truncating toward zero, as Rust's `/` on signed values.
pub open spec fn tdiv(a: int, b: int) -> int {
    if a >= 0 {
        a / b
    } else {
        -((-a) / b)
    }
}

/// Days from 1970-01-01 to a civil date (the days-from-civil algorithm on a
/// year starting in March).
pub open spec fn civil_days(year: int, month: int, day: int) -> int {
    let yy = if month <= 2 { year - 1 } else { year };
    let mm = if month <= 2 { month + 9 } else { month - 3 };
    let era = tdiv(if yy >= 0 { yy } else { yy - 399 }, 400);
    let yoe = yy - era * 400;
    let doy = tdiv(153 * mm + 2, 5) + day - 1;
    let doe = yoe * 365 + tdiv(yoe, 4) - tdiv(yoe, 100) + doy;
    era * 146097 + doe - 719468
}

/// The encoded day of a date: days since 1970-01-01 plus 2^31, when the
/// month is 1..=12, the day 1..=31, and the result fits in a `u32`.
pub open spec fn spec_days_since_epoch(year: int, month: int, day: int) -> Option<u32> {
    if !(1 <= month <= 12) || !(1 <= day <= 31) {
        None
    } else {
        let shifted = civil_days(year, month, day) + 0x8000_0000;
        if shifted < 0 || shifted > u32::MAX {
            None
        } else {
            Some(shifted as u32)
        }
    }
}

proof fn lemma_tdiv_bound(a: int, b: int)
    requires
        b >= 1,
    ensures
        a >= 0 ==> 0 <= tdiv(a, b) <= a,
        a < 0 ==> a <= tdiv(a, b) <= 0,
{
    if a >= 0 {
        assert(a / b <= a) by (nonlinear_arith)
            requires
                a >= 0,
                b >= 1,
        ;
        assert(a / b >= 0) by (nonlinear_arith)
            requires
                a >= 0,
                b >= 1,
        ;
    } else {
        assert((-a) / b <= -a) by (nonlinear_arith)
            requires
                -a >= 0,
                b >= 1,
        ;
        assert((-a) / b >= 0) by (nonlinear_arith)
            requires
                -a >= 0,
                b >= 1,
        ;
    }
}

fn days_since_epoch(year: i32, month: u32, day: u32) -> (r: Option<u32>)
    ensures
        r == spec_days_since_epoch(year as int, month as int, day as int),
{
    if !(1 <= month && month <= 12) || !(1 <= day && day <= 31) {
        return None;
    }
    let (y, m): (i64, i64) = if month <= 2 {
        (year as i64 - 1, month as i64 + 9)
    } else {
        (year as i64, month as i64 - 3)
    };
    let num: i64 = if y >= 0 { y } else { y - 399 };
    let era: i64 = num / 400;
    proof {
        lemma_tdiv_bound(num as int, 400);
    }
    let yoe: i64 = y - era * 400;
    proof {
        lemma_tdiv_bound(153 * m + 2, 5);
    }
    let doy: i64 = (153 * m + 2) / 5 + day as i64 - 1;
    proof {
        lemma_tdiv_bound(yoe as int, 4);
        lemma_tdiv_bound(yoe as int, 100);
    }
    let doe: i64 = yoe * 365 + yoe / 4 - yoe / 100 + doy;
    let days: i64 = era * 146097 + doe - 719468;
    let shifted: i64 = days + 0x8000_0000i64;
    if shifted < 0 || shifted > 0xffff_ffffi64 {
        return None;
    }
    Some(shifted as u32)
}

/// The date an encoded day stands for: (year, month, day), by the
/// civil-from-days algorithm.
pub open spec fn spec_date_from_days(encoded: u32) -> (i32, u32, u32) {
    let z = encoded - 0x8000_0000 + 719468;
    let era = tdiv(if z >= 0 { z } else { z - 146096 }, 146097);
    let doe = z - era * 146097;
    let yoe = tdiv(doe - tdiv(doe, 1460) + tdiv(doe, 36524) - tdiv(doe, 146096), 365);
    let y = yoe + era * 400;
    let doy = doe - (365 * yoe + tdiv(yoe, 4) - tdiv(yoe, 100));
    let mp = tdiv(5 * doy + 2, 153);
    let d = doy - tdiv(153 * mp + 2, 5) + 1;
    let m = if mp < 10 { mp + 3 } else { mp - 9 };
    let year = if m <= 2 { y + 1 } else { y };
    (year as i32, m as u32, d as u32)
}

#[verifier::rlimit(40)]
fn date_from_epoch_days(encoded: u32) -> (r: (i32, u32, u32))
    ensures
        r == spec_date_from_days(encoded),
{
    let z: i64 = encoded as i64 - 0x8000_0000i64 + 719468;
    let num: i64 = if z >= 0 { z } else { z - 146096 };
    proof {
        lemma_tdiv_bound(num as int, 146097);
    }
    let era: i64 = num / 146097;
    let doe: i64 = z - era * 146097;
    proof {
        lemma_tdiv_bound(doe as int, 1460);
        lemma_tdiv_bound(doe as int, 36524);
        lemma_tdiv_bound(doe as int, 146096);
    }
    let t: i64 = doe - doe / 1460 + doe / 36524 - doe / 146096;
    proof {
        lemma_tdiv_bound(t as int, 365);
    }
    let yoe: i64 = t / 365;
    let y: i64 = yoe + era * 400;
    proof {
        lemma_tdiv_bound(yoe as int, 4);
        lemma_tdiv_bound(yoe as int, 100);
    }
    let doy: i64 = doe - (365 * yoe + yoe / 4 - yoe / 100);
    proof {
        lemma_tdiv_bound(5 * doy + 2, 153);
    }
    let mp: i64 = (5 * doy + 2) / 153;
    proof {
        lemma_tdiv_bound(153 * mp + 2, 5);
    }
    let d: i64 = doy - (153 * mp + 2) / 5 + 1;
    let m: i64 = if mp < 10 { mp + 3 } else { mp - 9 };
    let year: i64 = if m <= 2 { y + 1 } else { y };
    (year as i32, m as u32, d as u32)
}

/// Index of the first `-` at or after `i`, or the length.
pub open spec fn next_dash(b: Seq<u8>, i: int) -> int
    decreases b.len() - i,
{
    if i >= b.len() {
        b.len() as int
    } else if b[i] == 0x2d {
        i
    } else {
        next_dash(b, i + 1)
    }
}

/// `str::parse::<u32>` of a part, or 1 when the part is absent or does not parse.
pub open spec fn part_or_one(b: Seq<u8>, present: bool, from: int, to: int) -> u32 {
    if present {
        match spec_parse_u32(b.subrange(from, to)) {
            Some(v) => v,
            None => 1,
        }
    } else {
        1
    }
}

/// The encoded day of "YYYY-MM-DD", "YYYY-MM" or "YYYY" (missing parts are 1;
/// parts after the third are ignored).
pub open spec fn spec_quantize_date(b: Seq<u8>) -> Option<u32> {
    let d0 = next_dash(b, 0);
    let d1 = next_dash(b, d0 + 1);
    let d2 = next_dash(b, d1 + 1);
    let month = part_or_one(b, d0 < b.len(), d0 + 1, d1);
    let day = part_or_one(b, d0 < b.len() && d1 < b.len(), d1 + 1, d2);
    match spec_parse_i32(b.subrange(0, d0)) {
        None => None,
        Some(year) => spec_days_since_epoch(year as int, month as int, day as int),
    }
}

fn find_dash(b: &[u8], from: usize) -> (r: usize)
    requires
        from <= b@.len(),
    ensures
        r == next_dash(b@, from as int),
        from <= r <= b@.len(),
{
    let mut i = from;
    while i < b.len() && b[i] != 0x2du8
        invariant
            from <= i <= b@.len(),
            next_dash(b@, from as int) == next_dash(b@, i as int),
        decreases b@.len() - i,
    {
        i = i + 1;
    }
    i
}

/// Date string to its encoded day: days since 1970-01-01 plus 2^31, so that
/// dates before the epoch sort first.
///
/// Accepts "YYYY-MM-DD", "YYYY-MM" and "YYYY"; a truncated date stands for
/// the first day of its period.
pub fn quantize_date(date_str: &str) -> (r: Option<u32>)
    ensures
        r == spec_quantize_date(date_str.spec_bytes()),
{
    let b = date_str.as_bytes();
    let n = b.len();
    let d0 = find_dash(b, 0);
    let year = match parse_i32(vstd::slice::slice_subrange(b, 0, d0)) {
        Some(y) => y,
        None => {
            return None;
        },
    };
    let mut month: u32 = 1;
    let mut day: u32 = 1;
    if d0 < n {
        let d1 = find_dash(b, d0 + 1);
        month = match parse_u32(vstd::slice::slice_subrange(b, d0 + 1, d1)) {
            Some(v) => v,
            None => 1,
        };
        if d1 < n {
            let d2 = find_dash(b, d1 + 1);
            day = match parse_u32(vstd::slice::slice_subrange(b, d1 + 1, d2)) {
                Some(v) => v,
                None => 1,
            };
        }
    }
    days_since_epoch(year, month, day)
}

/// Encoded day to (year, month, day).
pub fn dequantize_date(days: u32) -> (r: (i32, u32, u32))
    ensures
        r == spec_date_from_days(days),
{
    date_from_epoch_days(days)
}

// ---------------------------------------------------------------------------
// 2D Hilbert curve at u16 resolution (16 bits per axis, 32 bits total)
// ---------------------------------------------------------------------------

/// `2s - 1 - v` modulo 2^16.
pub open spec fn flip16(s: u16, v: u16) -> u16 {
    let w = 2 * s - 1 - v;
    if w < 0 {
        (w + 0x10000) as u16
    } else {
        (w % 0x10000) as u16
    }
}

/// One level of the xy-to-index walk at cell size `s`: the quadrant's offset
/// and the coordinates rotated into that quadrant.
pub open spec fn xy_step(x: u16, y: u16, s: u16) -> (u16, u16, u32) {
    let rx: u32 = if x & s > 0 { 1 } else { 0 };
    let ry: u32 = if y & s > 0 { 1 } else { 0 };
    let quad: int = if rx == 0 {
        if ry == 0 { 0 } else { 1 }
    } else {
        if ry == 0 { 3 } else { 2 }
    };
    let add = (s * s * quad) as u32;
    if ry == 0 {
        let (a, b) = if rx == 1 {
            (flip16(s, x), flip16(s, y))
        } else {
            (x, y)
        };
        (b, a, add)
    } else {
        (x, y, add)
    }
}

/// The Hilbert index of (x, y) from cell size `s` down to 1.
pub open spec fn xy_to_d(x: u16, y: u16, s: u16) -> int
    decreases s,
{
    if s == 0 {
        0
    } else {
        let (x2, y2, add) = xy_step(x, y, s);
        add + xy_to_d(x2, y2, s / 2)
    }
}

/// The powers of two from 2^15 down, and 0.
pub open spec fn level(s: u16) -> bool {
    s == 0 || s == 1 || s == 2 || s == 4 || s == 8 || s == 16 || s == 32 || s == 64 || s == 128
        || s == 256 || s == 512 || s == 1024 || s == 2048 || s == 4096 || s == 8192 || s == 16384
        || s == 32768
}

pub(crate) proof fn lemma_xy_to_d_bound(x: u16, y: u16, s: u16)
    requires
        level(s),
    ensures
        0 <= xy_to_d(x, y, s) <= 4 * s * s - 1 || (s == 0 && xy_to_d(x, y, s) == 0),
    decreases s,
{
    if s > 0 {
        let (x2, y2, add) = xy_step(x, y, s);
        assert(s / 2 == 0 || level(s / 2));
        lemma_xy_to_d_bound(x2, y2, s / 2);
        assert(s * s * 3 <= 3 * s * s) by (nonlinear_arith);
        assert(s * s * 2 <= 3 * s * s) by (nonlinear_arith);
        assert(s * s * 1 <= 3 * s * s) by (nonlinear_arith);
        assert(s * s * 0 <= 3 * s * s) by (nonlinear_arith);
        assert(4 * (s / 2) * (s / 2) <= s * s) by (nonlinear_arith)
            requires
                s >= 1,
        ;
        assert(s * s <= 0x4000_0000) by (nonlinear_arith)
            requires
                s <= 32768,
        ;
    }
}

/// The Hilbert index of a cell of the 65536 x 65536 grid.
#[verifier::rlimit(40)]
pub fn xy_to_hilbert_u16(x: u16, y: u16) -> (r: u32)
    ensures
        r == xy_to_d(x, y, 32768),
{
    let mut x = x;
    let mut y = y;
    let ghost x0 = x;
    let ghost y0 = y;
    let mut d: u32 = 0;
    let mut s: u16 = 32768;
    proof {
        lemma_xy_to_d_bound(x0, y0, 32768);
    }
    while s > 0
        invariant
            level(s),
            d + xy_to_d(x, y, s) == xy_to_d(x0, y0, 32768),
            xy_to_d(x0, y0, 32768) <= 0xffff_ffff,
            0 <= xy_to_d(x, y, s),
        decreases s,
    {
        let ghost step = xy_step(x, y, s);
        let ghost d_old = d;
        let rx: u32 = if (x & s) > 0 { 1 } else { 0 };
        let ry: u32 = if (y & s) > 0 { 1 } else { 0 };
        let rx3: u32 = 3 * rx;
        let k: u32 = rx3 ^ ry;
        proof {
            assert(k == if rx == 0 {
                if ry == 0 { 0u32 } else { 1u32 }
            } else {
                if ry == 0 { 3u32 } else { 2u32 }
            }) by (bit_vector)
                requires
                    rx <= 1,
                    ry <= 1,
                    rx3 == 3 * rx,
                    k == rx3 ^ ry,
            ;
            assert((s as u32) * (s as u32) <= 0x4000_0000) by (nonlinear_arith)
                requires
                    s <= 32768,
            ;
            let (x2, y2, add) = xy_step(x, y, s);
            assert(s / 2 == 0 || level(s / 2));
            lemma_xy_to_d_bound(x2, y2, s / 2);
        }
        d = d + (s as u32) * (s as u32) * k;
        if ry == 0 {
            if rx == 1 {
                let ghost (ox, oy) = (x, y);
                x = s.wrapping_mul(2).wrapping_sub(1).wrapping_sub(x);
                y = s.wrapping_mul(2).wrapping_sub(1).wrapping_sub(y);
                proof {
                    assert(x == flip16(s, ox));
                    assert(y == flip16(s, oy));
                }
            }
            let t = x;
            x = y;
            y = t;
        }
        proof {
            assert(s >> 1 == s / 2) by (bit_vector);
            assert(x == step.0 && y == step.1);
            assert(d == d_old + step.2);
        }
        s = s >> 1;
    }
    d
}

/// One level of the index-to-xy walk at cell size `s`.
pub open spec fn d_step(d: u32, x: u32, y: u32, s: u32) -> (u32, u32) {
    let rx: u32 = 1 & (d / 2);
    let ry: u32 = 1 & (d ^ rx);
    let (a, b) = if ry == 0 {
        let (p, q) = if rx == 1 {
            ((s - 1 - x) as u32, (s - 1 - y) as u32)
        } else {
            (x, y)
        };
        (q, p)
    } else {
        (x, y)
    };
    ((a + s * rx) as u32, (b + s * ry) as u32)
}

/// The cell of a Hilbert index, walking cell sizes from `s` up to 2^15.
pub open spec fn d_to_xy(d: u32, x: u32, y: u32, s: int) -> (u32, u32)
    decreases 0x20000 - s,
{
    if s <= 0 || s >= 0x10000 {
        (x, y)
    } else {
        let (x2, y2) = d_step(d, x, y, s as u32);
        d_to_xy(d / 4, x2, y2, 2 * s)
    }
}

/// The powers of two from 1 to 2^16.
pub open spec fn level32(s: u32) -> bool {
    s == 1 || s == 2 || s == 4 || s == 8 || s == 16 || s == 32 || s == 64 || s == 128 || s == 256
        || s == 512 || s == 1024 || s == 2048 || s == 4096 || s == 8192 || s == 16384 || s == 32768
        || s == 65536
}

/// The cell of a Hilbert index on the 65536 x 65536 grid.
#[verifier::rlimit(40)]
pub fn hilbert_to_xy_u16(d: u32) -> (r: (u16, u16))
    ensures
        r.0 == d_to_xy(d, 0, 0, 1).0,
        r.1 == d_to_xy(d, 0, 0, 1).1,
{
    let mut d = d;
    let ghost d0 = d;
    let mut x: u32 = 0;
    let mut y: u32 = 0;
    let mut s: u32 = 1;
    while s < 65536
        invariant
            level32(s),
            x < s,
            y < s,
            d_to_xy(d, x, y, s as int) == d_to_xy(d0, 0, 0, 1),
        decreases 65536 - s,
    {
        let ghost step = d_step(d, x, y, s);
        let rx = 1 & (d / 2);
        let ry = 1 & (d ^ rx);
        proof {
            assert(rx <= 1) by (bit_vector)
                requires
                    rx == 1 & (d / 2),
            ;
            assert(ry <= 1) by (bit_vector)
                requires
                    ry == 1 & (d ^ rx),
            ;
        }
        if ry == 0 {
            if rx == 1 {
                x = s.wrapping_sub(1).wrapping_sub(x);
                y = s.wrapping_sub(1).wrapping_sub(y);
                assert(x < s && y < s);
            }
            let t = x;
            x = y;
            y = t;
        }
        assert(s * rx <= s && s * ry <= s) by (nonlinear_arith)
            requires
                rx <= 1,
                ry <= 1,
        ;
        x = x + s * rx;
        y = y + s * ry;
        proof {
            assert(x == step.0 && y == step.1);
        }
        d = d / 4;
        s = s * 2;
    }
    (x as u16, y as u16)
}

// ---------------------------------------------------------------------------
// Hilbert ranges for a box
// ---------------------------------------------------------------------------

/// The contiguous runs of strictly increasing values, as (start, end) pairs.
pub open spec fn initial_runs(vals: Seq<u32>) -> Seq<(u32, u32)>
    decreases vals.len(),
{
    if vals.len() == 0 {
        Seq::empty()
    } else {
        let r = initial_runs(vals.drop_last());
        let v = vals.last();
        if r.len() > 0 && v == r.last().1 + 1 {
            r.update(r.len() - 1, (r.last().0, v))
        } else {
            r.push((v, v))
        }
    }
}

/// The gap between range `i` and the next.
pub open spec fn gap(rs: Seq<(u32, u32)>, i: int) -> int {
    rs[i + 1].0 - rs[i].1
}

/// Range `i` is followed by the smallest gap, and is the first such range.
pub open spec fn is_first_min_gap(rs: Seq<(u32, u32)>, i: int) -> bool {
    &&& 0 <= i < rs.len() - 1
    &&& forall|j: int| 0 <= j < rs.len() - 1 ==> gap(rs, i) <= #[trigger] gap(rs, j)
    &&& forall|j: int| 0 <= j < i ==> gap(rs, i) < #[trigger] gap(rs, j)
}

/// Join range `i` with the next.
pub open spec fn merge_at(rs: Seq<(u32, u32)>, i: int) -> Seq<(u32, u32)> {
    rs.take(i) + seq![(rs[i].0, rs[i + 1].1)] + rs.skip(i + 2)
}

/// Join ranges across the smallest gap (the first one) until at most `max`
/// remain.
pub open spec fn merged(rs: Seq<(u32, u32)>, max: int) -> Seq<(u32, u32)>
    decreases rs.len(),
{
    if rs.len() <= max || rs.len() < 2 {
        rs
    } else {
        let i = choose|i: int| is_first_min_gap(rs, i);
        if 0 <= i < rs.len() - 1 {
            merged(merge_at(rs, i), max)
        } else {
            rs
        }
    }
}

/// Ranges sorted, each inside itself, with a gap of at least 2 between neighbours.
pub open spec fn separated(rs: Seq<(u32, u32)>) -> bool {
    &&& forall|i: int| 0 <= i < rs.len() ==> (#[trigger] rs[i]).0 <= rs[i].1
    &&& forall|i: int| 0 <= i < rs.len() - 1 ==> #[trigger] rs[i].1 + 1 < rs[i + 1].0
}

pub open spec fn strictly_increasing(vals: Seq<u32>) -> bool {
    forall|i: int, j: int| 0 <= i < j < vals.len() ==> vals[i] < vals[j]
}

proof fn lemma_runs_separated(vals: Seq<u32>)
    requires
        strictly_increasing(vals),
    ensures
        separated(initial_runs(vals)),
        vals.len() > 0 ==> initial_runs(vals).len() > 0 && initial_runs(vals).last().1 == vals.last(),
    decreases vals.len(),
{
    if vals.len() > 0 {
        let t = vals.drop_last();
        assert(strictly_increasing(t));
        lemma_runs_separated(t);
        if t.len() > 0 {
            assert(vals[t.len() - 1] < vals.last());
        }
    }
}

proof fn lemma_first_min_unique(rs: Seq<(u32, u32)>, i: int, k: int)
    requires
        is_first_min_gap(rs, i),
        is_first_min_gap(rs, k),
    ensures
        i == k,
{
    if i < k {
        assert(gap(rs, k) < gap(rs, i));
    } else if k < i {
        assert(gap(rs, i) < gap(rs, k));
    }
}

proof fn lemma_merge_separated(rs: Seq<(u32, u32)>, i: int)
    requires
        separated(rs),
        0 <= i < rs.len() - 1,
    ensures
        separated(merge_at(rs, i)),
        merge_at(rs, i).len() == rs.len() - 1,
{
    let m = merge_at(rs, i);
    assert forall|j: int| 0 <= j < m.len() implies (#[trigger] m[j]).0 <= m[j].1 by {
        if j < i {
            assert(m[j] == rs[j]);
        } else if j == i {
            assert(rs[i].1 + 1 < rs[i + 1].0);
        } else {
            assert(m[j] == rs[j + 1]);
        }
    }
    assert forall|j: int| 0 <= j < m.len() - 1 implies #[trigger] m[j].1 + 1 < m[j + 1].0 by {
        if j + 1 < i {
            assert(m[j] == rs[j] && m[j + 1] == rs[j + 1]);
        } else if j + 1 == i {
            assert(m[j] == rs[j]);
        } else if j == i {
            assert(m[j + 1] == rs[j + 2]);
        } else {
            assert(m[j] == rs[j + 1] && m[j + 1] == rs[j + 2]);
        }
    }
}

/// Value `h` lies in one of the ranges.
pub open spec fn covered(rs: Seq<(u32, u32)>, h: u32) -> bool {
    exists|k: int| 0 <= k < rs.len() && (#[trigger] rs[k]).0 <= h <= rs[k].1
}

proof fn lemma_runs_cover(vals: Seq<u32>)
    requires
        strictly_increasing(vals),
    ensures
        forall|j: int| 0 <= j < vals.len() ==> covered(initial_runs(vals), #[trigger] vals[j]),
    decreases vals.len(),
{
    if vals.len() > 0 {
        let t = vals.drop_last();
        assert(strictly_increasing(t));
        lemma_runs_cover(t);
        lemma_runs_separated(t);
        let r = initial_runs(t);
        let v = vals.last();
        let res = initial_runs(vals);
        let extend = r.len() > 0 && v == r.last().1 + 1;
        assert forall|j: int| 0 <= j < vals.len() implies covered(res, #[trigger] vals[j]) by {
            if j == vals.len() - 1 {
                if extend {
                    let k = r.len() - 1;
                    assert(r[k].0 <= r[k].1);
                    assert(res[k] == (r[k].0, v));
                } else {
                    assert(res[r.len() as int] == (v, v));
                }
            } else {
                assert(vals[j] == t[j]);
                assert(covered(r, t[j]));
                let k = choose|k: int| 0 <= k < r.len() && (#[trigger] r[k]).0 <= t[j] <= r[k].1;
                if extend && k == r.len() - 1 {
                    assert(res[k] == (r[k].0, v));
                } else {
                    assert(res[k] == r[k]);
                }
            }
        }
    }
}

proof fn lemma_merge_covers(rs: Seq<(u32, u32)>, i: int, h: u32)
    requires
        separated(rs),
        0 <= i < rs.len() - 1,
        covered(rs, h),
    ensures
        covered(merge_at(rs, i), h),
{
    let m = merge_at(rs, i);
    let k = choose|k: int| 0 <= k < rs.len() && (#[trigger] rs[k]).0 <= h <= rs[k].1;
    assert(rs[i].0 <= rs[i].1 && rs[i + 1].0 <= rs[i + 1].1);
    assert(rs[i].1 + 1 < rs[i + 1].0);
    if k < i {
        assert(m[k] == rs[k]);
    } else if k == i || k == i + 1 {
        assert(m[i] == (rs[i].0, rs[i + 1].1));
    } else {
        assert(m[k - 1] == rs[k]);
    }
}

proof fn lemma_merged_covers(rs: Seq<(u32, u32)>, max: int, h: u32)
    requires
        separated(rs),
        covered(rs, h),
    ensures
        covered(merged(rs, max), h),
    decreases rs.len(),
{
    if !(rs.len() <= max || rs.len() < 2) {
        let i = choose|i: int| is_first_min_gap(rs, i);
        if 0 <= i < rs.len() - 1 {
            lemma_merge_separated(rs, i);
            lemma_merge_covers(rs, i, h);
            lemma_merged_covers(merge_at(rs, i), max, h);
        }
    }
}

/// What `hilbert_ranges_for_bbox` returns for a box: for a box of at most
/// 4096 cells, the runs of the box's Hilbert values in increasing order with
/// the smallest gaps closed until at most `max_ranges` remain; for a larger
/// box, the whole curve.
pub open spec fn bbox_ranges(
    min_x: u16,
    min_y: u16,
    max_x: u16,
    max_y: u16,
    max_ranges: usize,
    ranges: Seq<(u32, u32)>,
) -> bool {
    &&& cell_count(min_x, min_y, max_x, max_y) <= 4096 ==> exists|vals: Seq<u32>|
        strictly_increasing(vals) && vals.to_set() == box_cells(min_x, min_y, max_x, max_y)
            && ranges == merged(initial_runs(vals), max_ranges as int)
    &&& cell_count(min_x, min_y, max_x, max_y) > 4096 ==> ranges == seq![(0u32, 0xffff_ffffu32)]
}

/// Every cell of a box lies in one of the Hilbert ranges that
/// `hilbert_ranges_for_bbox` returns for it, however few ranges are asked for.
pub proof fn lemma_box_ranges_cover(
    min_x: u16,
    min_y: u16,
    max_x: u16,
    max_y: u16,
    max_ranges: usize,
    ranges: Seq<(u32, u32)>,
    x: u16,
    y: u16,
)
    requires
        min_x <= x <= max_x,
        min_y <= y <= max_y,
        bbox_ranges(min_x, min_y, max_x, max_y, max_ranges, ranges),
    ensures
        covered(ranges, xy_to_d(x, y, 32768) as u32),
{
    let h = xy_to_d(x, y, 32768) as u32;
    if cell_count(min_x, min_y, max_x, max_y) > 4096 {
        assert(ranges[0] == (0u32, 0xffff_ffffu32));
    } else {
        let vals = choose|vals: Seq<u32>|
            strictly_increasing(vals) && vals.to_set() == box_cells(min_x, min_y, max_x, max_y)
                && ranges == merged(initial_runs(vals), max_ranges as int);
        lemma_xy_to_d_bound(x, y, 32768);
        assert(box_cells(min_x, min_y, max_x, max_y).contains(h));
        assert(vals.to_set().contains(h));
        let j = choose|j: int| 0 <= j < vals.len() && #[trigger] vals[j] == h;
        lemma_runs_cover(vals);
        lemma_runs_separated(vals);
        assert(covered(initial_runs(vals), vals[j]));
        lemma_merged_covers(initial_runs(vals), max_ranges as int, h);
    }
}

/// Merge sorted, distinct values into at most `max_ranges` covering ranges:
/// contiguous runs first, then the smallest gaps closed.
fn merge_ranges(sorted_vals: &Vec<u32>, max_ranges: usize) -> (r: Vec<(u32, u32)>)
    requires
        strictly_increasing(sorted_vals@),
        sorted_vals@.len() > 0 ==> max_ranges >= 1,
    ensures
        r@ == merged(initial_runs(sorted_vals@), max_ranges as int),
{
    if sorted_vals.len() == 0 {
        return Vec::new();
    }
    let mut ranges: Vec<(u32, u32)> = Vec::new();
    let mut start = sorted_vals[0];
    let mut end = sorted_vals[0];
    let mut i: usize = 1;
    proof {
        let t = sorted_vals@.take(1);
        assert(t.drop_last() =~= Seq::<u32>::empty());
        assert(initial_runs(t.drop_last()) == Seq::<(u32, u32)>::empty());
        assert(t.last() == start);
        assert(initial_runs(t) == Seq::<(u32, u32)>::empty().push((start, start)));
        assert(ranges@.push((start, end)) =~= Seq::<(u32, u32)>::empty().push((start, start)));
    }
    while i < sorted_vals.len()
        invariant
            strictly_increasing(sorted_vals@),
            1 <= i <= sorted_vals@.len(),
            end == sorted_vals@[i - 1],
            start <= end,
            initial_runs(sorted_vals@.take(i as int)) == ranges@.push((start, end)),
        decreases sorted_vals@.len() - i,
    {
        let v = sorted_vals[i];
        proof {
            let t = sorted_vals@.take(i + 1);
            assert(t.drop_last() =~= sorted_vals@.take(i as int));
            assert(t.last() == v);
            assert(sorted_vals@[i - 1] < sorted_vals@[i as int]);
        }
        if v == end + 1 {
            proof {
                assert(ranges@.push((start, end)).update(ranges@.len() as int, (start, v)) =~= ranges@.push((start, v)));
            }
            end = v;
        } else {
            ranges.push((start, end));
            start = v;
            end = v;
        }
        i = i + 1;
    }
    ranges.push((start, end));
    proof {
        assert(sorted_vals@.take(i as int) =~= sorted_vals@);
        lemma_runs_separated(sorted_vals@);
    }
    while ranges.len() > max_ranges
        invariant
            separated(ranges@),
            max_ranges >= 1,
            merged(ranges@, max_ranges as int) == merged(initial_runs(sorted_vals@), max_ranges as int),
        decreases ranges@.len(),
    {
        let mut min_gap: u64 = u64::MAX;
        let mut min_idx: usize = 0;
        let mut j: usize = 0;
        while j < ranges.len() - 1
            invariant
                separated(ranges@),
                ranges@.len() >= 2,
                j <= ranges@.len() - 1,
                min_idx < ranges@.len() - 1,
                j == 0 ==> min_gap == u64::MAX && min_idx == 0,
                j > 0 ==> min_idx < j && min_gap == gap(ranges@, min_idx as int),
                forall|q: int| 0 <= q < j ==> min_gap <= #[trigger] gap(ranges@, q),
                forall|q: int| 0 <= q < min_idx ==> min_gap < #[trigger] gap(ranges@, q),
            decreases ranges@.len() - 1 - j,
        {
            proof {
                assert(ranges@[j as int].1 + 1 < ranges@[j + 1].0);
            }
            let g = (ranges[j + 1].0 - ranges[j].1) as u64;
            if g < min_gap {
                min_gap = g;
                min_idx = j;
            }
            j = j + 1;
        }
        proof {
            assert(is_first_min_gap(ranges@, min_idx as int));
            let c = choose|q: int| is_first_min_gap(ranges@, q);
            lemma_first_min_unique(ranges@, min_idx as int, c);
            lemma_merge_separated(ranges@, min_idx as int);
        }
        let ghost before = ranges@;
        let merged_end = ranges[min_idx + 1].1;
        let first = ranges[min_idx].0;
        ranges.set(min_idx, (first, merged_end));
        ranges.remove(min_idx + 1);
        proof {
            assert(ranges@ =~= merge_at(before, min_idx as int));
        }
    }
    ranges
}

/// The Hilbert values of the cells of a box.
pub open spec fn box_cells(min_x: u16, min_y: u16, max_x: u16, max_y: u16) -> Set<u32> {
    Set::new(
        |h: u32|
            exists|x: u16, y: u16|
                min_x <= x <= max_x && min_y <= y <= max_y && h == #[trigger] xy_to_d(x, y, 32768),
    )
}

/// Number of cells of a box.
pub open spec fn cell_count(min_x: u16, min_y: u16, max_x: u16, max_y: u16) -> int {
    (max_x - min_x + 1) * (max_y - min_y + 1)
}

/// Hilbert ranges covering every cell of a box on the u16 grid.
///
/// A box of at most 4096 cells is enumerated: its distinct Hilbert values,
/// in order, become contiguous runs, and the smallest gaps are closed until
/// at most `max_ranges` remain. A larger box gets the single range of the
/// whole curve, which covers it too.
pub fn hilbert_ranges_for_bbox(min_x: u16, min_y: u16, max_x: u16, max_y: u16, max_ranges: usize) -> (r: Vec<(u32, u32)>)
    requires
        min_x <= max_x,
        min_y <= max_y,
        cell_count(min_x, min_y, max_x, max_y) <= 4096 ==> max_ranges >= 1,
    ensures
        bbox_ranges(min_x, min_y, max_x, max_y, max_ranges, r@),
{
    let width = (max_x - min_x) as usize + 1;
    let height = (max_y - min_y) as usize + 1;
    let small = if width <= 4096 && height <= 4096 {
        assert(width * height <= 4096 * 4096) by (nonlinear_arith)
            requires
                width <= 4096,
                height <= 4096,
        ;
        width * height <= 4096
    } else {
        false
    };
    if !small {
        proof {
            if width > 4096 {
                assert(width * height >= width) by (nonlinear_arith)
                    requires
                        height >= 1,
                ;
            }
            if height > 4096 {
                assert(width * height >= height) by (nonlinear_arith)
                    requires
                        width >= 1,
                ;
            }
        }
        let mut v: Vec<(u32, u32)> = Vec::new();
        v.push((0u32, 0xffff_ffffu32));
        proof {
            assert(v@ =~= seq![(0u32, 0xffff_ffffu32)]);
        }
        return v;
    }
    let ghost cells = box_cells(min_x, min_y, max_x, max_y);
    let mut vals: Vec<u32> = Vec::new();
    let mut x: u32 = min_x as u32;
    while x <= max_x as u32
        invariant
            min_x <= max_x,
            min_y <= max_y,
            min_x <= x <= max_x + 1,
            forall|k: int| 0 <= k < vals@.len() ==> cells.contains(#[trigger] vals@[k]),
            forall|xx: u16, yy: u16|
                min_x <= xx < x && min_y <= yy <= max_y ==> vals@.contains(#[trigger] xy_to_d(xx, yy, 32768) as u32),
            cells == box_cells(min_x, min_y, max_x, max_y),
        decreases max_x + 1 - x,
    {
        let mut y: u32 = min_y as u32;
        while y <= max_y as u32
            invariant
                min_x <= max_x,
                min_y <= max_y,
                min_x <= x <= max_x,
                min_y <= y <= max_y + 1,
                forall|k: int| 0 <= k < vals@.len() ==> cells.contains(#[trigger] vals@[k]),
                forall|xx: u16, yy: u16|
                    min_x <= xx < x && min_y <= yy <= max_y ==> vals@.contains(#[trigger] xy_to_d(xx, yy, 32768) as u32),
                forall|yy: u16| min_y <= yy < y ==> vals@.contains(#[trigger] xy_to_d(x as u16, yy, 32768) as u32),
                cells == box_cells(min_x, min_y, max_x, max_y),
            decreases max_y + 1 - y,
        {
            let h = xy_to_hilbert_u16(x as u16, y as u16);
            let ghost before = vals@;
            vals.push(h);
            proof {
                assert(cells.contains(h));
                assert forall|k: int| 0 <= k < vals@.len() implies cells.contains(#[trigger] vals@[k]) by {
                    if k < before.len() {
                        assert(vals@[k] == before[k]);
                    }
                }
                assert forall|xx: u16, yy: u16|
                    min_x <= xx < x && min_y <= yy <= max_y implies vals@.contains(#[trigger] xy_to_d(xx, yy, 32768) as u32) by {
                    let k = choose|k: int| 0 <= k < before.len() && before[k] == xy_to_d(xx, yy, 32768) as u32;
                    assert(vals@[k] == before[k]);
                }
                assert forall|yy: u16| min_y <= yy < y + 1 implies vals@.contains(#[trigger] xy_to_d(x as u16, yy, 32768) as u32) by {
                    if yy < y {
                        let k = choose|k: int| 0 <= k < before.len() && before[k] == xy_to_d(x as u16, yy, 32768) as u32;
                        assert(vals@[k] == before[k]);
                    } else {
                        assert(vals@[before.len() as int] == h);
                    }
                }
            }
            y = y + 1;
        }
        proof {
            assert forall|xx: u16, yy: u16|
                min_x <= xx < x + 1 && min_y <= yy <= max_y implies vals@.contains(#[trigger] xy_to_d(xx, yy, 32768) as u32) by {
                if xx as int == x as int {
                    assert(xx == x as u16);
                }
            }
        }
        x = x + 1;
    }
    let sorted = merge_sort(&vals);
    let mut uniq: Vec<u32> = Vec::new();
    let mut i: usize = 0;
    proof {
        <u32 as crate::sort::SortKey>::lemma_total();
    }
    while i < sorted.len()
        invariant
            i <= sorted@.len(),
            sorted_by(sorted@, leq::<u32>()),
            strictly_increasing(uniq@),
            uniq@.len() > 0 ==> i > 0 && uniq@.last() == sorted@[i - 1],
            forall|k: int| 0 <= k < uniq@.len() ==> sorted@.take(i as int).contains(#[trigger] uniq@[k]),
            forall|k: int| 0 <= k < i ==> uniq@.contains(#[trigger] sorted@[k]),
        decreases sorted@.len() - i,
    {
        let v = sorted[i];
        let ghost before = uniq@;
        if uniq.len() == 0 || uniq[uniq.len() - 1] != v {
            proof {
                if before.len() > 0 {
                    assert(leq::<u32>()(sorted@[i - 1], sorted@[i as int]));
                }
            }
            uniq.push(v);
            proof {
                assert forall|a: int, b: int| 0 <= a < b < uniq@.len() implies uniq@[a] < uniq@[b] by {
                    if b == uniq@.len() - 1 && a < b {
                        assert(uniq@[a] <= before.last());
                    }
                }
            }
        }
        proof {
            assert forall|k: int| 0 <= k < uniq@.len() implies sorted@.take(i + 1).contains(#[trigger] uniq@[k]) by {
                if k < before.len() {
                    assert(uniq@[k] == before[k]);
                    let j = choose|j: int| 0 <= j < i && sorted@.take(i as int)[j] == before[k];
                    assert(sorted@.take(i + 1)[j] == before[k]);
                } else {
                    assert(sorted@.take(i + 1)[i as int] == v);
                }
            }
            assert forall|k: int| 0 <= k < i + 1 implies uniq@.contains(#[trigger] sorted@[k]) by {
                if k < i {
                    let j = choose|j: int| 0 <= j < before.len() && before[j] == sorted@[k];
                    assert(uniq@[j] == before[j]);
                } else {
                    assert(uniq@.last() == v);
                }
            }
        }
        i = i + 1;
    }
    proof {
        broadcast use vstd::seq_lib::group_to_multiset_ensures;
        assert(sorted@.take(i as int) =~= sorted@);
        assert(uniq@.to_set() =~= cells) by {
            assert forall|h: u32| uniq@.to_set().contains(h) implies cells.contains(h) by {
                let k = choose|k: int| 0 <= k < uniq@.len() && uniq@[k] == h;
                assert(sorted@.contains(h));
                assert(sorted@.to_multiset().count(h) > 0);
                assert(vals@.contains(h));
            }
            assert forall|h: u32| cells.contains(h) implies uniq@.to_set().contains(h) by {
                let (xx, yy) = choose|xx: u16, yy: u16| min_x <= xx <= max_x && min_y <= yy <= max_y && h == #[trigger] xy_to_d(xx, yy, 32768);
                assert(vals@.contains(xy_to_d(xx, yy, 32768) as u32));
                assert(vals@.to_multiset().count(h) > 0);
                assert(sorted@.contains(h));
                let j = choose|j: int| 0 <= j < sorted@.len() && sorted@[j] == h;
                assert(uniq@.contains(sorted@[j]));
            }
        }
        assert(cell_count(min_x, min_y, max_x, max_y) == width * height);
    }
    merge_ranges(&uniq, max_ranges)
}

/// Exact encoding of a concept, resource or domain URI: its dictionary ID,
/// interning it when new.
pub fn quantize_dictionary_id(uri: &str, dict: &mut crate::dictionary::Dictionary) -> (r: u32)
    requires
        old(dict)@.len() < u32::MAX,
    ensures
        r < final(dict)@.len(),
        final(dict)@[r as int] == uri@,
        old(dict)@.contains(uri@) ==> final(dict)@ == old(dict)@,
        !old(dict)@.contains(uri@) ==> final(dict)@ == old(dict)@.push(uri@) && r == old(dict)@.len(),
{
    dict.intern(uri)
}


// ---------------------------------------------------------------------------
// Tile values to object values
// ---------------------------------------------------------------------------

/// `s` contains `://`.
pub open spec fn has_scheme_sep(s: Seq<char>) -> bool {
    exists|i: int|
        0 <= i && i + 3 <= s.len() && #[trigger] s[i] == ':' && s[i + 1] == '/' && s[i + 2] == '/'
}

/// The URI a reference id stands for: itself when it is already a URI,
/// else the id under `prefix`.
pub open spec fn reference_uri(id: Seq<char>, prefix: Seq<char>) -> Seq<char> {
    if has_scheme_sep(id) {
        id
    } else {
        prefix + id
    }
}

/// The URIs of a list of reference ids.
pub open spec fn reference_uris(ids: Seq<Seq<char>>, prefix: Seq<char>) -> Seq<Seq<char>> {
    ids.map_values(|id: Seq<char>| reference_uri(id, prefix))
}

/// A dictionary's terms after interning `ts` in order.
pub open spec fn interned_onto(d: Seq<Seq<char>>, ts: Seq<Seq<char>>) -> Seq<Seq<char>>
    decreases ts.len(),
{
    if ts.len() == 0 {
        d
    } else {
        let e = interned_onto(d, ts.drop_last());
        if e.contains(ts.last()) {
            e
        } else {
            e.push(ts.last())
        }
    }
}

proof fn lemma_interned_onto_len(d: Seq<Seq<char>>, ts: Seq<Seq<char>>)
    ensures
        d.len() <= interned_onto(d, ts).len() <= d.len() + ts.len(),
        interned_onto(d, ts).subrange(0, d.len() as int) == d,
    decreases ts.len(),
{
    if ts.len() > 0 {
        lemma_interned_onto_len(d, ts.drop_last());
        let e = interned_onto(d, ts.drop_last());
        assert(e.push(ts.last()).subrange(0, d.len() as int) =~= e.subrange(0, d.len() as int));
    }
}

/// `code` is the concept code of dictionary ID `id`: its DFS entry number
/// where the index has it (exactly so for a well-formed index), else `id`.
pub open spec fn dfs_code(c: &crate::concept_intervals::ConceptIntervalIndex, id: u32, code: u32) -> bool {
    &&& c.wf() ==> code == match crate::concept_intervals::spec_lookup(c@.0, id) {
        Some(p) => p.0,
        None => id,
    }
    &&& code == id || exists|i: int|
        0 <= i < c@.0.len() && (#[trigger] c@.0[i]).dict_id == id && code == c@.0[i].dfs_enter
}

/// `code` is the object value of dictionary ID `id` under `qtype`.
pub open spec fn id_code(
    qtype: QuantizeType,
    ci: Option<&crate::concept_intervals::ConceptIntervalIndex>,
    id: u32,
    code: u32,
) -> bool {
    match ci {
        Some(c) => if qtype == QuantizeType::ConceptDfs {
            dfs_code(c, id, code)
        } else {
            code == id
        },
        None => code == id,
    }
}

/// `code` is the object value, under `qtype`, of an ID of `t` in `d`.
pub open spec fn coded(
    d: Seq<Seq<char>>,
    t: Seq<char>,
    qtype: QuantizeType,
    ci: Option<&crate::concept_intervals::ConceptIntervalIndex>,
    code: u32,
) -> bool {
    exists|id: u32| (id as int) < d.len() && #[trigger] d[id as int] == t && id_code(qtype, ci, id, code)
}

proof fn lemma_coded_grows(
    d: Seq<Seq<char>>,
    e: Seq<Seq<char>>,
    t: Seq<char>,
    qtype: QuantizeType,
    ci: Option<&crate::concept_intervals::ConceptIntervalIndex>,
    code: u32,
)
    requires
        coded(d, t, qtype, ci, code),
        d.len() <= e.len(),
        e.subrange(0, d.len() as int) == d,
    ensures
        coded(e, t, qtype, ci, code),
{
    let id = choose|id: u32| (id as int) < d.len() && #[trigger] d[id as int] == t && id_code(qtype, ci, id, code);
    assert(e[id as int] == e.subrange(0, d.len() as int)[id as int]);
}

/// Whether a string contains `://`.
fn contains_scheme_sep(s: &str) -> (r: bool)
    ensures
        r == has_scheme_sep(s@),
{
    let mut p2: char = ' ';
    let mut p1: char = ' ';
    let mut found = false;
    let mut seen: u8 = 0;
    let ghost mut n: int = 0;
    for c in it: s.chars()
        invariant
            it.seq() == s@,
            n == it.index(),
            seen == if n < 2 { n } else { 2 },
            n >= 1 ==> p1 == s@[n - 1],
            n >= 2 ==> p2 == s@[n - 2],
            found == exists|i: int|
                0 <= i && i + 3 <= n && #[trigger] s@[i] == ':' && s@[i + 1] == '/' && s@[i + 2]
                    == '/',
    {
        proof {
            assert(s@[n] == c);
        }
        let hit = seen == 2 && p2 == ':' && p1 == '/' && c == '/';
        proof {
            if hit {
                assert(s@[n - 2] == ':' && s@[n - 1] == '/' && s@[n] == '/');
            }
            if exists|i: int|
                0 <= i && i + 3 <= n + 1 && #[trigger] s@[i] == ':' && s@[i + 1] == '/' && s@[i + 2]
                    == '/' {
                let i = choose|i: int|
                    0 <= i && i + 3 <= n + 1 && #[trigger] s@[i] == ':' && s@[i + 1] == '/' && s@[i
                        + 2] == '/';
                if i + 3 > n {
                    assert(i == n - 2);
                }
            }
        }
        found = found || hit;
        p2 = p1;
        p1 = c;
        if seen < 2 {
            seen = seen + 1;
        }
        proof {
            n = n + 1;
        }
    }
    proof {
        assert(n == s@.len());
    }
    found
}

/// The URI of a reference id: itself when it contains `://`, else the id
/// under `prefix`.
fn reference_uri_of(id: &str, prefix: &str) -> (r: String)
    ensures
        r@ == reference_uri(id@, prefix@),
{
    if contains_scheme_sep(id) {
        id.to_owned()
    } else {
        crate::text::concat(prefix, id)
    }
}

/// Quantize a tile value into its object values.
///
/// Reference values (`DictionaryId`, `ConceptDfs`) intern the URI of each
/// reference id (ids that are not URIs go under the datatype's prefix) and
/// give its dictionary ID, or, for concepts with an interval index, its DFS
/// entry number where the index has it. Booleans give 0 or 1, dates their
/// encoded day, and GeoJSON values `geo_cell`, the quantised centroid of
/// the value when it has one.
#[verifier::rlimit(50)]
#[verifier::spinoff_prover]
pub fn quantize_tile_value(
    value: &crate::value_extract::JsonValue,
    qtype: QuantizeType,
    datatype: &str,
    dict: &mut crate::dictionary::Dictionary,
    base_uri: &str,
    concept_intervals: Option<&crate::concept_intervals::ConceptIntervalIndex>,
    geo_cell: Option<u32>,
) -> (r: Vec<u32>)
    requires
        old(dict)@.len() + crate::value_extract::reference_ids(*value).len() < u32::MAX,
    ensures
        match qtype {
            QuantizeType::DictionaryId | QuantizeType::ConceptDfs => {
                let uris = reference_uris(
                    crate::value_extract::reference_ids(*value),
                    crate::uri::spec_prefix_for_datatype(base_uri@, datatype@),
                );
                &&& final(dict)@ == interned_onto(old(dict)@, uris)
                &&& r@.len() == uris.len()
                &&& forall|k: int|
                    0 <= k < r@.len() ==> coded(final(dict)@, uris[k], qtype, concept_intervals, #[trigger] r@[k])
            },
            QuantizeType::Boolean => final(dict)@ == old(dict)@ && r@ == match *value {
                crate::value_extract::JsonValue::Bool(b) => seq![if b { 1u32 } else { 0u32 }],
                _ => Seq::empty(),
            },
            QuantizeType::DaysSinceEpoch => final(dict)@ == old(dict)@ && r@ == match *value {
                crate::value_extract::JsonValue::Str(s) => match spec_quantize_date(
                    vstd::utf8::encode_utf8(s@),
                ) {
                    Some(d) => seq![d],
                    None => Seq::empty(),
                },
                _ => Seq::empty(),
            },
            QuantizeType::HilbertGeo => final(dict)@ == old(dict)@ && r@ == match geo_cell {
                Some(h) => seq![h],
                None => Seq::empty(),
            },
        },
{
    let mut out: Vec<u32> = Vec::new();
    match qtype {
        QuantizeType::Boolean => {
            if let crate::value_extract::JsonValue::Bool(b) = value {
                out.push(quantize_bool(*b));
            }
        },
        QuantizeType::DaysSinceEpoch => {
            if let crate::value_extract::JsonValue::Str(s) = value {
                if let Some(d) = quantize_date(s.as_str()) {
                    out.push(d);
                }
            }
        },
        QuantizeType::HilbertGeo => {
            if let Some(h) = geo_cell {
                out.push(h);
            }
        },
        _ => {
            let ids = crate::value_extract::extract_reference_ids(value);
            let prefix = crate::uri::prefix_for_datatype(base_uri, datatype);
            let ghost d0 = dict@;
            let ghost idv = ids@.map_values(|x: String| x@);
            let ghost uris = reference_uris(idv, prefix@);
            let mut i: usize = 0;
            while i < ids.len()
                invariant
                    qtype == QuantizeType::DictionaryId || qtype == QuantizeType::ConceptDfs,
                    i <= ids@.len(),
                    idv == ids@.map_values(|x: String| x@),
                    uris == reference_uris(idv, prefix@),
                    d0.len() + ids@.len() < u32::MAX,
                    dict@ == interned_onto(d0, uris.take(i as int)),
                    out@.len() == i,
                    forall|k: int|
                        0 <= k < i ==> coded(dict@, uris[k], qtype, concept_intervals, #[trigger] out@[k]),
                decreases ids@.len() - i,
            {
                let ghost before = dict@;
                let ghost out_before = out@;
                let uri = reference_uri_of(ids[i].as_str(), prefix.as_str());
                proof {
                    lemma_interned_onto_len(d0, uris.take(i as int));
                    assert(uri@ == uris[i as int]);
                }
                let id = dict.intern(uri.as_str());
                let mut code = id;
                if let QuantizeType::ConceptDfs = qtype {
                    if let Some(ci) = concept_intervals {
                        if let Some((enter, _)) = ci.lookup(id) {
                            code = enter;
                        }
                    }
                }
                out.push(code);
                proof {
                    assert(uris.take(i + 1).drop_last() =~= uris.take(i as int));
                    assert(uris.take(i + 1).last() == uris[i as int]);
                    assert(dict@ =~= interned_onto(d0, uris.take(i + 1)));
                    assert(before.len() <= dict@.len());
                    assert(dict@.subrange(0, before.len() as int) =~= before);
                    assert forall|k: int| 0 <= k < i + 1 implies coded(dict@, uris[k], qtype, concept_intervals, #[trigger] out@[k]) by {
                        if k < i {
                            assert(out@[k] == out_before[k]);
                            lemma_coded_grows(before, dict@, uris[k], qtype, concept_intervals, out@[k]);
                        } else {
                            assert(dict@[id as int] == uris[k]);
                            assert(id_code(qtype, concept_intervals, id, out@[k]));
                        }
                    }
                }
                i = i + 1;
            }
            proof {
                assert(uris.take(ids@.len() as int) =~= uris);
            }
        },
    }
    out
}

} // verus!
