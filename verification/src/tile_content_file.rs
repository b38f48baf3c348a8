//! Per-page tile content file for full-fidelity tile serving via range requests.
//!
//! ```text
//! [header]
//!   magic "RMTL", version 1, entry_count: u32,
//!   entries: (subject_id: u32, blob_offset: u32, blob_size: u32) × entry_count
//! [body]  one blob per resource, in entry order
//! ```

use vstd::prelude::*;
use crate::codec::{get_le32, le32, lemma_get_le32_at, push_bytes, push_u32, read_u32};

verus! {

/// Minimum bytes needed to determine the full header size (magic + version + entry_count).
pub const TILE_MIN_HEADER_PROBE: usize = 9;

/// Format version.
pub const TILE_VERSION: u8 = 1;

/// A single entry in the tile content header.
#[derive(Debug, Clone, Copy, PartialEq, Eq, Structural)]
pub struct TileContentEntry {
    /// Dictionary ID of the resource (subject).
    pub subject_id: u32,
    /// Byte offset from start of file where this resource's blob begins.
    pub blob_offset: u32,
    /// Size in bytes of this resource's blob.
    pub blob_size: u32,
}

/// Parsed tile content file header.
#[derive(Debug, Clone)]
pub struct TileContentHeader {
    pub entries: Vec<TileContentEntry>,
}

/// The tile magic "RMTL".
pub open spec fn tile_magic() -> Seq<u8> {
    seq![0x52u8, 0x4du8, 0x54u8, 0x4cu8]
}

/// Entries sorted by subject ID.
pub open spec fn sorted_by_subject(es: Seq<TileContentEntry>) -> bool {
    forall|i: int, j: int| 0 <= i <= j < es.len() ==> es[i].subject_id <= es[j].subject_id
}

impl TileContentHeader {
    /// Total header size in bytes: 9 + 12 × entry_count.
    pub fn header_size(&self) -> (r: usize)
        requires
            9 + 12 * self.entries@.len() <= usize::MAX,
        ensures
            r == 9 + 12 * self.entries@.len(),
    {
        9 + 12 * self.entries.len()
    }

    /// Find an entry for a given subject by binary search.
    pub fn entry_for_subject(&self, subject_id: u32) -> (r: Option<&TileContentEntry>)
        ensures
            r matches Some(e) ==> e.subject_id == subject_id && exists|i: int|
                0 <= i < self.entries@.len() && self.entries@[i] == *e,
            r is None && sorted_by_subject(self.entries@) ==> forall|i: int|
                0 <= i < self.entries@.len() ==> self.entries@[i].subject_id != subject_id,
    {
        let mut lo: usize = 0;
        let mut hi: usize = self.entries.len();
        while lo < hi
            invariant
                lo <= hi <= self.entries@.len(),
                sorted_by_subject(self.entries@) ==> forall|i: int|
                    0 <= i < lo ==> self.entries@[i].subject_id < subject_id,
                sorted_by_subject(self.entries@) ==> forall|i: int|
                    hi <= i < self.entries@.len() ==> self.entries@[i].subject_id > subject_id,
            decreases hi - lo,
        {
            let mid = lo + (hi - lo) / 2;
            let s = self.entries[mid].subject_id;
            if s == subject_id {
                return Some(&self.entries[mid]);
            } else if s < subject_id {
                proof {
                    if sorted_by_subject(self.entries@) {
                        assert forall|i: int| 0 <= i < mid + 1 implies self.entries@[i].subject_id
                            < subject_id by {
                            assert(self.entries@[i].subject_id
                                <= self.entries@[mid as int].subject_id);
                        }
                    }
                }
                lo = mid + 1;
            } else {
                proof {
                    if sorted_by_subject(self.entries@) {
                        assert forall|i: int| mid <= i < self.entries@.len() implies self.entries@[
                            i].subject_id > subject_id by {
                            assert(self.entries@[mid as int].subject_id
                                <= self.entries@[i].subject_id);
                        }
                    }
                }
                hi = mid;
            }
        }
        None
    }
}

/// The header entry encoded by the 12 bytes at `pos`.
pub open spec fn tile_entry_at(data: Seq<u8>, pos: int) -> TileContentEntry {
    TileContentEntry {
        subject_id: get_le32(data, pos),
        blob_offset: get_le32(data, pos + 4),
        blob_size: get_le32(data, pos + 8),
    }
}

/// Magic and version are right.
pub open spec fn tile_prelude_ok(data: Seq<u8>) -> bool {
    data.len() >= 9 && data.subrange(0, 4) == tile_magic() && data[4] == TILE_VERSION
}

fn check_prelude(data: &[u8]) -> (r: bool)
    requires
        data@.len() >= 9,
    ensures
        r == tile_prelude_ok(data@),
{
    let ok = data[0] == 0x52u8 && data[1] == 0x4du8 && data[2] == 0x54u8 && data[3] == 0x4cu8;
    proof {
        if ok {
            assert(data@.subrange(0, 4) =~= tile_magic());
        } else if data@.subrange(0, 4) == tile_magic() {
            assert(data@[0] == data@.subrange(0, 4)[0]);
            assert(data@[1] == data@.subrange(0, 4)[1]);
            assert(data@[2] == data@.subrange(0, 4)[2]);
            assert(data@[3] == data@.subrange(0, 4)[3]);
        }
    }
    ok && data[4] == TILE_VERSION
}

/// The header entries a tile file holds, when well formed.
pub open spec fn spec_parse_tile_header(data: Seq<u8>) -> Option<Seq<TileContentEntry>> {
    if !tile_prelude_ok(data) {
        None
    } else {
        let n = get_le32(data, 5) as int;
        if data.len() < 9 + 12 * n {
            None
        } else {
            Some(Seq::new(n as nat, |i: int| tile_entry_at(data, 9 + 12 * i)))
        }
    }
}

/// Calculate the full header size from the first `TILE_MIN_HEADER_PROBE` bytes.
pub fn tile_full_header_size(probe: &[u8]) -> (r: Result<usize, String>)
    requires
        tile_prelude_ok(probe@) ==> 9 + 12 * get_le32(probe@, 5) <= usize::MAX,
    ensures
        r is Ok <==> tile_prelude_ok(probe@),
        r matches Ok(n) ==> n == 9 + 12 * get_le32(probe@, 5),
{
    if probe.len() < TILE_MIN_HEADER_PROBE {
        return Err("Tile probe too short".to_string());
    }
    if !check_prelude(probe) {
        return Err("Invalid tile file magic or version".to_string());
    }
    let entry_count = read_u32(probe, 5) as usize;
    Ok(9 + 12 * entry_count)
}

/// Parse a tile content header from bytes.
pub fn parse_tile_content_header(data: &[u8]) -> (r: Result<TileContentHeader, String>)
    requires
        tile_prelude_ok(data@) ==> 9 + 12 * get_le32(data@, 5) <= usize::MAX,
    ensures
        r matches Ok(h) ==> spec_parse_tile_header(data@) == Some(h.entries@),
        r is Err ==> spec_parse_tile_header(data@) is None,
{
    if data.len() < TILE_MIN_HEADER_PROBE {
        return Err("Tile file too short for header".to_string());
    }
    if !check_prelude(data) {
        return Err("Invalid tile file magic or version".to_string());
    }
    let entry_count = read_u32(data, 5) as usize;
    if data.len() < 9 + 12 * entry_count {
        return Err("Tile header truncated".to_string());
    }
    let mut entries: Vec<TileContentEntry> = Vec::new();
    let mut i: usize = 0;
    while i < entry_count
        invariant
            i <= entry_count,
            entry_count == get_le32(data@, 5),
            data@.len() >= 9 + 12 * entry_count,
            entries@ =~= Seq::new(i as nat, |q: int| tile_entry_at(data@, 9 + 12 * q)),
        decreases entry_count - i,
    {
        assert(data@.len() == data.len());
        let base = 9 + 12 * i;
        let subject_id = read_u32(data, base);
        let blob_offset = read_u32(data, base + 4);
        let blob_size = read_u32(data, base + 8);
        entries.push(TileContentEntry { subject_id, blob_offset, blob_size });
        i = i + 1;
    }
    Ok(TileContentHeader { entries })
}

/// Total size of the blobs.
pub open spec fn total_blob_size(es: Seq<(u32, Seq<u8>)>) -> int
    decreases es.len(),
{
    if es.len() == 0 {
        0
    } else {
        total_blob_size(es.drop_last()) + es.last().1.len()
    }
}

/// The header entries written for `(subject_id, blob)` pairs.
pub open spec fn tile_entries(es: Seq<(u32, Seq<u8>)>) -> Seq<TileContentEntry> {
    Seq::new(
        es.len(),
        |k: int|
            TileContentEntry {
                subject_id: es[k].0,
                blob_offset: (9 + 12 * es.len() + total_blob_size(es.take(k))) as u32,
                blob_size: es[k].1.len() as u32,
            },
    )
}

pub open spec fn tile_entry_bytes(e: TileContentEntry) -> Seq<u8> {
    le32(e.subject_id) + le32(e.blob_offset) + le32(e.blob_size)
}

pub open spec fn tile_entries_bytes(es: Seq<TileContentEntry>) -> Seq<u8>
    decreases es.len(),
{
    if es.len() == 0 {
        Seq::empty()
    } else {
        tile_entries_bytes(es.drop_last()) + tile_entry_bytes(es.last())
    }
}

pub open spec fn blobs_bytes(es: Seq<(u32, Seq<u8>)>) -> Seq<u8>
    decreases es.len(),
{
    if es.len() == 0 {
        Seq::empty()
    } else {
        blobs_bytes(es.drop_last()) + es.last().1
    }
}

/// The complete tile content file.
pub open spec fn spec_tile_file(es: Seq<(u32, Seq<u8>)>) -> Seq<u8> {
    tile_magic() + seq![TILE_VERSION] + le32(es.len() as u32) + tile_entries_bytes(
        tile_entries(es),
    ) + blobs_bytes(es)
}

pub open spec fn entries_view(entries: Seq<(u32, Vec<u8>)>) -> Seq<(u32, Seq<u8>)> {
    entries.map_values(|e: (u32, Vec<u8>)| (e.0, e.1@))
}

proof fn lemma_total_blob_take(es: Seq<(u32, Seq<u8>)>, k: int)
    requires
        0 <= k <= es.len(),
    ensures
        0 <= total_blob_size(es.take(k)) <= total_blob_size(es),
        k < es.len() ==> total_blob_size(es.take(k + 1)) == total_blob_size(es.take(k))
            + es[k].1.len(),
    decreases es.len(),
{
    if k < es.len() {
        assert(es.take(k + 1).drop_last() =~= es.take(k));
        lemma_total_blob_take(es.drop_last(), k);
        assert(es.drop_last().take(k) =~= es.take(k));
    } else {
        assert(es.take(k) =~= es);
        lemma_total_blob_nonneg(es);
    }
}

proof fn lemma_total_blob_nonneg(es: Seq<(u32, Seq<u8>)>)
    ensures
        total_blob_size(es) >= 0,
    decreases es.len(),
{
    if es.len() > 0 {
        lemma_total_blob_nonneg(es.drop_last());
    }
}

/// Write a complete tile content file from `(subject_id, blob)` pairs, in
/// the given order (callers sort them by subject ID).
pub fn write_tile_content_file(entries: &[(u32, Vec<u8>)]) -> (r: Vec<u8>)
    requires
        9 + 12 * entries@.len() + total_blob_size(entries_view(entries@)) <= u32::MAX,
    ensures
        r@ == spec_tile_file(entries_view(entries@)),
{
    let ghost es = entries_view(entries@);
    proof {
        lemma_total_blob_nonneg(es);
    }
    let n = entries.len();
    let mut blob_offset: u32 = (9 + 12 * n) as u32;
    let mut header: Vec<TileContentEntry> = Vec::new();
    let mut k: usize = 0;
    while k < n
        invariant
            n == entries@.len(),
            es == entries_view(entries@),
            9 + 12 * n + total_blob_size(es) <= u32::MAX,
            k <= n,
            blob_offset == 9 + 12 * n + total_blob_size(es.take(k as int)),
            header@ == tile_entries(es).take(k as int),
        decreases n - k,
    {
        proof {
            lemma_total_blob_take(es, k as int);
            lemma_total_blob_take(es, (k + 1) as int);
            assert(es[k as int] == (entries@[k as int].0, entries@[k as int].1@));
        }
        let len = entries[k].1.len();
        header.push(TileContentEntry { subject_id: entries[k].0, blob_offset, blob_size: len as u32 });
        blob_offset = blob_offset + len as u32;
        k = k + 1;
        proof {
            assert(header@ =~= tile_entries(es).take(k as int));
        }
    }
    proof {
        assert(tile_entries(es).take(n as int) =~= tile_entries(es));
    }
    let mut buf: Vec<u8> = Vec::new();
    buf.push(0x52u8);
    buf.push(0x4du8);
    buf.push(0x54u8);
    buf.push(0x4cu8);
    buf.push(TILE_VERSION);
    push_u32(&mut buf, n as u32);
    let ghost head = buf@;
    let mut e: usize = 0;
    while e < header.len()
        invariant
            e <= header@.len(),
            buf@ == head + tile_entries_bytes(header@.take(e as int)),
        decreases header@.len() - e,
    {
        let en = header[e];
        push_u32(&mut buf, en.subject_id);
        push_u32(&mut buf, en.blob_offset);
        push_u32(&mut buf, en.blob_size);
        e = e + 1;
        proof {
            assert(header@.take(e as int).drop_last() =~= header@.take(e - 1));
            assert(buf@ =~= head + tile_entries_bytes(header@.take(e as int)));
        }
    }
    assert(header@.take(header@.len() as int) =~= header@);
    let ghost head2 = buf@;
    let mut k: usize = 0;
    while k < n
        invariant
            n == entries@.len(),
            es == entries_view(entries@),
            k <= n,
            buf@ == head2 + blobs_bytes(es.take(k as int)),
        decreases n - k,
    {
        push_bytes(&mut buf, entries[k].1.as_slice());
        k = k + 1;
        proof {
            assert(es.take(k as int).drop_last() =~= es.take(k - 1));
            assert(es[k - 1] == (entries@[k - 1].0, entries@[k - 1].1@));
            assert(buf@ =~= head2 + blobs_bytes(es.take(k as int)));
        }
    }
    proof {
        assert(es.take(n as int) =~= es);
        assert(buf@ =~= spec_tile_file(es));
    }
    buf
}

// ---------------------------------------------------------------------------
// Reading back
// ---------------------------------------------------------------------------

proof fn lemma_tile_entries_bytes_len(es: Seq<TileContentEntry>)
    ensures
        tile_entries_bytes(es).len() == 12 * es.len(),
    decreases es.len(),
{
    if es.len() > 0 {
        lemma_tile_entries_bytes_len(es.drop_last());
    }
}

proof fn lemma_tile_entries_bytes_index(es: Seq<TileContentEntry>, i: int)
    requires
        0 <= i < es.len(),
    ensures
        tile_entry_at(tile_entries_bytes(es), 12 * i) == es[i],
    decreases es.len(),
{
    let init = es.drop_last();
    lemma_tile_entries_bytes_len(init);
    let t = tile_entries_bytes(init);
    let s = tile_entries_bytes(es);
    if i == es.len() - 1 {
        let e = es.last();
        assert(s == t + le32(e.subject_id) + (le32(e.blob_offset) + le32(e.blob_size)));
        lemma_get_le32_at(t, e.subject_id, le32(e.blob_offset) + le32(e.blob_size));
        assert(s == (t + le32(e.subject_id)) + le32(e.blob_offset) + le32(e.blob_size));
        lemma_get_le32_at(t + le32(e.subject_id), e.blob_offset, le32(e.blob_size));
        assert(s == (t + le32(e.subject_id) + le32(e.blob_offset)) + le32(e.blob_size) + Seq::<
            u8,
        >::empty());
        lemma_get_le32_at(t + le32(e.subject_id) + le32(e.blob_offset), e.blob_size, Seq::empty());
    } else {
        lemma_tile_entries_bytes_index(init, i);
        assert(Seq::<u8>::empty() + t + tile_entry_bytes(es.last()) == s);
        crate::codec::lemma_get_le32_shift(Seq::empty(), t, tile_entry_bytes(es.last()), 12 * i);
        crate::codec::lemma_get_le32_shift(
            Seq::empty(),
            t,
            tile_entry_bytes(es.last()),
            12 * i + 4,
        );
        crate::codec::lemma_get_le32_shift(
            Seq::empty(),
            t,
            tile_entry_bytes(es.last()),
            12 * i + 8,
        );
    }
}

proof fn lemma_blobs_bytes_len(es: Seq<(u32, Seq<u8>)>)
    ensures
        blobs_bytes(es).len() == total_blob_size(es),
    decreases es.len(),
{
    if es.len() > 0 {
        lemma_blobs_bytes_len(es.drop_last());
    }
}

proof fn lemma_total_blob_monotone(es: Seq<(u32, Seq<u8>)>, j: int, k: int)
    requires
        0 <= j <= k <= es.len(),
    ensures
        total_blob_size(es.take(j)) <= total_blob_size(es.take(k)),
    decreases k - j,
{
    if j < k {
        lemma_total_blob_monotone(es, j, k - 1);
        lemma_total_blob_take(es, k - 1);
    }
}

proof fn lemma_blobs_bytes_blob(es: Seq<(u32, Seq<u8>)>, k: int)
    requires
        0 <= k < es.len(),
    ensures
        blobs_bytes(es).subrange(total_blob_size(es.take(k)), total_blob_size(es.take(k))
            + es[k].1.len()) == es[k].1,
    decreases es.len(),
{
    let init = es.drop_last();
    lemma_blobs_bytes_len(init);
    lemma_total_blob_take(es, k);
    if k == es.len() - 1 {
        assert(es.take(k) =~= init);
        assert(blobs_bytes(es).subrange(total_blob_size(init), total_blob_size(init)
            + es[k].1.len()) =~= es[k].1);
    } else {
        lemma_blobs_bytes_blob(init, k);
        assert(init.take(k) =~= es.take(k));
        assert(init.take(k + 1) =~= es.take(k + 1));
        lemma_total_blob_take(init, k + 1);
        lemma_total_blob_monotone(init, k + 1, init.len() as int);
        assert(init.take(init.len() as int) =~= init);
        assert(blobs_bytes(es).subrange(total_blob_size(es.take(k)), total_blob_size(es.take(k))
            + es[k].1.len()) =~= blobs_bytes(init).subrange(
            total_blob_size(es.take(k)),
            total_blob_size(es.take(k)) + es[k].1.len(),
        ));
    }
}

proof fn lemma_tile_file_entries(h: Seq<u8>, te: Seq<TileContentEntry>, rest: Seq<u8>)
    requires
        h.len() == 9,
    ensures
        Seq::new(te.len(), |i: int| tile_entry_at(h + tile_entries_bytes(te) + rest, 9 + 12 * i))
            == te,
{
    let f = h + tile_entries_bytes(te) + rest;
    lemma_tile_entries_bytes_len(te);
    let parsed = Seq::new(te.len(), |i: int| tile_entry_at(f, 9 + 12 * i));
    assert forall|i: int| 0 <= i < te.len() implies parsed[i] == te[i] by {
        lemma_tile_entries_bytes_index(te, i);
        crate::codec::lemma_get_le32_shift(h, tile_entries_bytes(te), rest, 12 * i);
        crate::codec::lemma_get_le32_shift(h, tile_entries_bytes(te), rest, 12 * i + 4);
        crate::codec::lemma_get_le32_shift(h, tile_entries_bytes(te), rest, 12 * i + 8);
    }
    assert(parsed =~= te);
}

proof fn lemma_tile_file_blob(pre: Seq<u8>, es: Seq<(u32, Seq<u8>)>, k: int)
    requires
        0 <= k < es.len(),
        pre.len() == 9 + 12 * es.len(),
        9 + 12 * es.len() + total_blob_size(es) <= u32::MAX,
    ensures
        (pre + blobs_bytes(es)).subrange(
            tile_entries(es)[k].blob_offset as int,
            tile_entries(es)[k].blob_offset + tile_entries(es)[k].blob_size,
        ) == es[k].1,
{
    let n = es.len();
    let f = pre + blobs_bytes(es);
    lemma_blobs_bytes_blob(es, k);
    lemma_blobs_bytes_len(es);
    lemma_total_blob_take(es, k);
    lemma_total_blob_take(es, k + 1);
    lemma_total_blob_monotone(es, k + 1, n as int);
    assert(es.take(n as int) =~= es);
    let start = total_blob_size(es.take(k));
    let len = es[k].1.len();
    assert(f.subrange(pre.len() + start, pre.len() + start + len) =~= blobs_bytes(es).subrange(
        start,
        start + len,
    ));
}

/// Reading back a written tile file: the header lists one entry per blob, in
/// order, and each entry's byte range holds exactly that blob.
pub proof fn lemma_tile_file_roundtrip(es: Seq<(u32, Seq<u8>)>)
    requires
        9 + 12 * es.len() + total_blob_size(es) <= u32::MAX,
    ensures
        spec_parse_tile_header(spec_tile_file(es)) == Some(tile_entries(es)),
        forall|k: int|
            0 <= k < es.len() ==> spec_tile_file(es).subrange(
                #[trigger] tile_entries(es)[k].blob_offset as int,
                tile_entries(es)[k].blob_offset + tile_entries(es)[k].blob_size,
            ) == es[k].1,
{
    let n = es.len();
    let te = tile_entries(es);
    let h1 = tile_magic() + seq![TILE_VERSION];
    let h = h1 + le32(n as u32);
    let eb = tile_entries_bytes(te);
    let bb = blobs_bytes(es);
    let f = spec_tile_file(es);
    assert(f == h + eb + bb);
    lemma_tile_entries_bytes_len(te);
    lemma_blobs_bytes_len(es);
    lemma_total_blob_nonneg(es);
    crate::codec::lemma_le32_roundtrip(n as u32);
    assert(f == h1 + le32(n as u32) + (eb + bb));
    lemma_get_le32_at(h1, n as u32, eb + bb);
    assert(f.subrange(0, 4) =~= tile_magic());
    assert(f[4] == TILE_VERSION);
    lemma_tile_file_entries(h, te, bb);
    assert forall|k: int| 0 <= k < n implies f.subrange(
        #[trigger] te[k].blob_offset as int,
        te[k].blob_offset + te[k].blob_size,
    ) == es[k].1 by {
        lemma_tile_file_blob(h + eb, es, k);
    }
}

/// A tile file written from blobs in strictly increasing subject order reads
/// back with its header sorted by subject, so a lookup by subject succeeds for
/// every written subject, and the entry it finds spans exactly that subject's
/// blob.
pub proof fn lemma_written_tiles_found(es: Seq<(u32, Seq<u8>)>, k: int)
    requires
        9 + 12 * es.len() + total_blob_size(es) <= u32::MAX,
        forall|i: int, j: int| 0 <= i < j < es.len() ==> es[i].0 < es[j].0,
        0 <= k < es.len(),
    ensures
        spec_parse_tile_header(spec_tile_file(es)) matches Some(hs) && sorted_by_subject(hs) && (
        exists|i: int| 0 <= i < hs.len() && hs[i].subject_id == es[k].0) && forall|i: int|
            0 <= i < hs.len() && #[trigger] hs[i].subject_id == es[k].0 ==> spec_tile_file(
                es,
            ).subrange(hs[i].blob_offset as int, hs[i].blob_offset + hs[i].blob_size) == es[k].1,
{
    lemma_tile_file_roundtrip(es);
    let hs = tile_entries(es);
    assert(hs[k].subject_id == es[k].0);
    assert forall|i: int, j: int| 0 <= i <= j < hs.len() implies hs[i].subject_id
        <= hs[j].subject_id by {
        if i < j {
            assert(es[i].0 < es[j].0);
        }
    }
    assert forall|i: int| 0 <= i < hs.len() && #[trigger] hs[i].subject_id == es[k].0 implies i
        == k by {
        if i < k {
            assert(es[i].0 < es[k].0);
        } else if k < i {
            assert(es[k].0 < es[i].0);
        }
    }
}

} // verus!
