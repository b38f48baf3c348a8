//! Per-page binary file format with predicate-partitioned fixed-width records.
//!
//! ```text
//! [header]
//!   magic "RMPG", version 3, predicate_count: u16,
//!   resource_meta_offset: u32, resource_meta_size: u32,
//!   entries: (pred_id: u32, offset: u32, record_count: u32) × predicate_count
//! [body]  one block of 8-byte records per predicate
//! [resource metadata]
//!   count: u32, then (dict_id: u32, name, slug, model) with u16-length strings
//! ```

use vstd::prelude::*;
use vstd::utf8::encode_utf8;
use vstd::string::*;
use crate::codec::{
    get_le16, get_le32, le16, le32, lemma_get_le16_at, lemma_get_le32_at, push_bytes, push_u16,
    push_u32, read_u16, read_u32,
};
use crate::quantize::{
    lemma_records_bytes_index, lemma_records_bytes_len, record_at, records_bytes, PageRecord,
};
use crate::text::{decode_string, decoded, lemma_decoded_encode};

verus! {

// ---------------------------------------------------------------------------
// Resource metadata
// ---------------------------------------------------------------------------

/// Resource metadata embedded in page files.
#[derive(Debug, Clone)]
pub struct ResourceMeta {
    pub dict_id: u32,
    pub name: String,
    pub slug: String,
    pub model: String,
}

/// `(dict_id, name, slug, model)`.
pub type MetaView = (u32, Seq<char>, Seq<char>, Seq<char>);

impl View for ResourceMeta {
    type V = MetaView;

    open spec fn view(&self) -> MetaView {
        (self.dict_id, self.name@, self.slug@, self.model@)
    }
}

/// A string with its UTF-8 byte length as a `u16` in front.
pub open spec fn str16_bytes(s: Seq<char>) -> Seq<u8> {
    le16(encode_utf8(s).len() as u16) + encode_utf8(s)
}

/// The encoding of one metadata entry.
pub open spec fn meta_entry_bytes(m: MetaView) -> Seq<u8> {
    le32(m.0) + str16_bytes(m.1) + str16_bytes(m.2) + str16_bytes(m.3)
}

/// The encodings of a sequence of entries, concatenated.
pub open spec fn meta_entries_bytes(ms: Seq<MetaView>) -> Seq<u8>
    decreases ms.len(),
{
    if ms.len() == 0 {
        Seq::empty()
    } else {
        meta_entries_bytes(ms.drop_last()) + meta_entry_bytes(ms.last())
    }
}

/// The metadata section: entry count, then the entries.
pub open spec fn spec_resource_meta_bytes(ms: Seq<MetaView>) -> Seq<u8> {
    le32(ms.len() as u32) + meta_entries_bytes(ms)
}

/// Read a u16-length-prefixed string at `pos`: the string and the position after it.
pub open spec fn parse_str16(data: Seq<u8>, pos: int) -> Option<(Seq<char>, int)> {
    if pos + 2 > data.len() {
        None
    } else {
        let len = get_le16(data, pos) as int;
        if pos + 2 + len > data.len() {
            None
        } else {
            match decoded(data.subrange(pos + 2, pos + 2 + len)) {
                Some(s) => Some((s, pos + 2 + len)),
                None => None,
            }
        }
    }
}

/// Read one metadata entry at `pos`: the entry and the position after it.
pub open spec fn parse_meta_entry(data: Seq<u8>, pos: int) -> Option<(MetaView, int)> {
    if pos + 4 > data.len() {
        None
    } else {
        match parse_str16(data, pos + 4) {
            None => None,
            Some((name, p1)) => match parse_str16(data, p1) {
                None => None,
                Some((slug, p2)) => match parse_str16(data, p2) {
                    None => None,
                    Some((model, p3)) => Some(((get_le32(data, pos), name, slug, model), p3)),
                },
            },
        }
    }
}

/// Read `count` entries starting at `pos`.
pub open spec fn parse_meta_entries(data: Seq<u8>, pos: int, count: nat) -> Option<
    (Seq<MetaView>, int),
>
    decreases count,
{
    if count == 0 {
        Some((Seq::empty(), pos))
    } else {
        match parse_meta_entries(data, pos, (count - 1) as nat) {
            None => None,
            Some((ms, p)) => match parse_meta_entry(data, p) {
                None => None,
                Some((m, q)) => Some((ms.push(m), q)),
            },
        }
    }
}

/// The entries a metadata section holds, when it is well formed.
pub open spec fn spec_parse_resource_meta(data: Seq<u8>) -> Option<Seq<MetaView>> {
    if data.len() < 4 {
        None
    } else {
        match parse_meta_entries(data, 4, get_le32(data, 0) as nat) {
            Some((ms, _)) => Some(ms),
            None => None,
        }
    }
}

fn push_str16(buf: &mut Vec<u8>, s: &String)
    ensures
        final(buf)@ == old(buf)@ + str16_bytes(s@),
{
    let b = s.as_str().as_bytes();
    push_u16(buf, b.len() as u16);
    push_bytes(buf, b);
    assert(final(buf)@ =~= old(buf)@ + str16_bytes(s@));
}

/// Serialize resource metadata to bytes.
pub fn serialize_resource_meta(meta: &[ResourceMeta]) -> (r: Vec<u8>)
    ensures
        r@ == spec_resource_meta_bytes(meta@.map_values(|m: ResourceMeta| m@)),
{
    let ghost views = meta@.map_values(|m: ResourceMeta| m@);
    let mut buf: Vec<u8> = Vec::new();
    push_u32(&mut buf, meta.len() as u32);
    let ghost head = buf@;
    let mut i: usize = 0;
    while i < meta.len()
        invariant
            i <= meta@.len(),
            views == meta@.map_values(|m: ResourceMeta| m@),
            head == le32(meta@.len() as u32),
            buf@ == head + meta_entries_bytes(views.take(i as int)),
        decreases meta@.len() - i,
    {
        let m = &meta[i];
        push_u32(&mut buf, m.dict_id);
        push_str16(&mut buf, &m.name);
        push_str16(&mut buf, &m.slug);
        push_str16(&mut buf, &m.model);
        i = i + 1;
        proof {
            assert(views.take(i as int).drop_last() =~= views.take(i - 1));
            assert(views.take(i as int).last() == m@);
            assert(buf@ =~= head + meta_entries_bytes(views.take(i as int)));
        }
    }
    assert(views.take(meta@.len() as int) =~= views);
    buf
}

fn read_str16(data: &[u8], pos: usize) -> (r: Result<(String, usize), String>)
    ensures
        r matches Ok((s, p)) ==> parse_str16(data@, pos as int) == Some((s@, p as int)),
        r is Err ==> parse_str16(data@, pos as int) is None,
{
    if pos > data.len() || data.len() - pos < 2 {
        return Err("Resource metadata truncated (string length)".to_string());
    }
    let len = read_u16(data, pos) as usize;
    let start = pos + 2;
    if data.len() - start < len {
        return Err("Resource metadata truncated (string data)".to_string());
    }
    let bytes = crate::codec::copy_range(data, start, start + len);
    match decode_string(bytes.as_slice()) {
        Some(s) => Ok((s, start + len)),
        None => Err("Invalid UTF-8 in resource metadata".to_string()),
    }
}

/// Parse resource metadata from bytes.
pub fn parse_resource_meta(data: &[u8]) -> (r: Result<Vec<ResourceMeta>, String>)
    ensures
        r matches Ok(ms) ==> spec_parse_resource_meta(data@) == Some(
            ms@.map_values(|m: ResourceMeta| m@),
        ),
        r is Err ==> spec_parse_resource_meta(data@) is None,
{
    if data.len() < 4 {
        return Err("Resource metadata too short".to_string());
    }
    let count = read_u32(data, 0);
    let mut pos: usize = 4;
    let mut result: Vec<ResourceMeta> = Vec::new();
    let mut i: u32 = 0;
    while i < count
        invariant
            data@.len() >= 4,
            count == get_le32(data@, 0),
            i <= count,
            parse_meta_entries(data@, 4, i as nat) == Some(
                (result@.map_values(|m: ResourceMeta| m@), pos as int),
            ),
        decreases count - i,
    {
        if pos > data.len() || data.len() - pos < 4 {
            proof {
                assert(parse_meta_entry(data@, pos as int) is None);
                lemma_parse_entries_fail(data@, (i + 1) as nat, count as nat);
            }
            return Err("Resource metadata truncated (dict_id)".to_string());
        }
        let dict_id = read_u32(data, pos);
        let r1 = read_str16(data, pos + 4);
        let (name, p1) = match r1 {
            Ok(v) => v,
            Err(e) => {
                proof {
                    lemma_parse_entries_fail(data@, (i + 1) as nat, count as nat);
                }
                return Err(e);
            },
        };
        let (slug, p2) = match read_str16(data, p1) {
            Ok(v) => v,
            Err(e) => {
                proof {
                    lemma_parse_entries_fail(data@, (i + 1) as nat, count as nat);
                }
                return Err(e);
            },
        };
        let (model, p3) = match read_str16(data, p2) {
            Ok(v) => v,
            Err(e) => {
                proof {
                    lemma_parse_entries_fail(data@, (i + 1) as nat, count as nat);
                }
                return Err(e);
            },
        };
        let ghost old_views = result@.map_values(|m: ResourceMeta| m@);
        let m = ResourceMeta { dict_id, name, slug, model };
        result.push(m);
        pos = p3;
        i = i + 1;
        proof {
            assert(result@.map_values(|m: ResourceMeta| m@) =~= old_views.push(m@));
        }
    }
    Ok(result)
}

/// Once an entry fails to parse, every longer read fails too.
proof fn lemma_parse_entries_fail(data: Seq<u8>, k: nat, n: nat)
    requires
        k <= n,
        parse_meta_entries(data, 4, k) is None,
    ensures
        parse_meta_entries(data, 4, n) is None,
    decreases n - k,
{
    if k < n {
        lemma_parse_entries_fail(data, k + 1, n);
    }
}

/// Reading a string from its encoding, inside any surrounding bytes.
proof fn lemma_parse_str16_at(a: Seq<u8>, s: Seq<char>, b: Seq<u8>)
    requires
        encode_utf8(s).len() < 0x10000,
    ensures
        parse_str16(a + str16_bytes(s) + b, a.len() as int) == Some(
            (s, (a.len() + str16_bytes(s).len()) as int),
        ),
{
    let e = encode_utf8(s);
    let n = e.len() as u16;
    let data = a + str16_bytes(s) + b;
    crate::codec::lemma_le16_roundtrip(n);
    assert(data == a + le16(n) + (e + b));
    lemma_get_le16_at(a, n, e + b);
    let pos = a.len() as int;
    assert(data.subrange(pos + 2, pos + 2 + e.len()) =~= e);
    lemma_decoded_encode(s);
}

/// Reading an entry from its encoding, inside any surrounding bytes.
#[verifier::rlimit(40)]
proof fn lemma_parse_meta_entry_at(a: Seq<u8>, m: MetaView, b: Seq<u8>)
    requires
        encode_utf8(m.1).len() < 0x10000,
        encode_utf8(m.2).len() < 0x10000,
        encode_utf8(m.3).len() < 0x10000,
    ensures
        parse_meta_entry(a + meta_entry_bytes(m) + b, a.len() as int) == Some(
            (m, (a.len() + meta_entry_bytes(m).len()) as int),
        ),
{
    let data = a + meta_entry_bytes(m) + b;
    let s1 = str16_bytes(m.1);
    let s2 = str16_bytes(m.2);
    let s3 = str16_bytes(m.3);
    crate::codec::lemma_le32_roundtrip(m.0);
    assert(data == a + le32(m.0) + (s1 + s2 + s3 + b));
    lemma_get_le32_at(a, m.0, s1 + s2 + s3 + b);
    let a1 = a + le32(m.0);
    assert(data == a1 + s1 + (s2 + s3 + b));
    lemma_parse_str16_at(a1, m.1, s2 + s3 + b);
    let a2 = a1 + s1;
    assert(data == a2 + s2 + (s3 + b));
    lemma_parse_str16_at(a2, m.2, s3 + b);
    let a3 = a2 + s2;
    assert(data == a3 + s3 + b);
    lemma_parse_str16_at(a3, m.3, b);
}

/// All strings of the entries fit a u16 length.
pub open spec fn meta_strings_fit(ms: Seq<MetaView>) -> bool {
    forall|i: int|
        0 <= i < ms.len() ==> {
            &&& encode_utf8(#[trigger] ms[i].1).len() < 0x10000
            &&& encode_utf8(ms[i].2).len() < 0x10000
            &&& encode_utf8(ms[i].3).len() < 0x10000
        }
}

proof fn lemma_parse_meta_entries_at(a: Seq<u8>, ms: Seq<MetaView>, b: Seq<u8>)
    requires
        meta_strings_fit(ms),
        a.len() == 4,
    ensures
        parse_meta_entries(a + meta_entries_bytes(ms) + b, 4, ms.len()) == Some(
            (ms, (4 + meta_entries_bytes(ms).len()) as int),
        ),
    decreases ms.len(),
{
    if ms.len() > 0 {
        let init = ms.drop_last();
        let last = ms.last();
        let data = a + meta_entries_bytes(ms) + b;
        assert(meta_strings_fit(init)) by {
            assert forall|i: int| 0 <= i < init.len() implies {
                &&& encode_utf8(#[trigger] init[i].1).len() < 0x10000
                &&& encode_utf8(init[i].2).len() < 0x10000
                &&& encode_utf8(init[i].3).len() < 0x10000
            } by {
                assert(init[i] == ms[i]);
            }
        }
        assert(data == a + meta_entries_bytes(init) + (meta_entry_bytes(last) + b));
        lemma_parse_meta_entries_at(a, init, meta_entry_bytes(last) + b);
        assert(encode_utf8(ms[ms.len() - 1].1).len() < 0x10000);
        assert(data == (a + meta_entries_bytes(init)) + meta_entry_bytes(last) + b);
        lemma_parse_meta_entry_at(a + meta_entries_bytes(init), last, b);
        assert(init.push(last) =~= ms);
    }
}

/// Parsing a serialized metadata section gives back the entries (when
/// every string fits the u16 length field and the count fits a u32).
pub proof fn lemma_resource_meta_roundtrip(ms: Seq<MetaView>)
    requires
        meta_strings_fit(ms),
        ms.len() <= u32::MAX,
    ensures
        spec_parse_resource_meta(spec_resource_meta_bytes(ms)) == Some(ms),
{
    let data = spec_resource_meta_bytes(ms);
    crate::codec::lemma_le32_roundtrip(ms.len() as u32);
    lemma_get_le32_at(Seq::empty(), ms.len() as u32, meta_entries_bytes(ms));
    assert(Seq::<u8>::empty() + le32(ms.len() as u32) + meta_entries_bytes(ms) == data);
    lemma_parse_meta_entries_at(le32(ms.len() as u32), ms, Seq::empty());
    assert(le32(ms.len() as u32) + meta_entries_bytes(ms) + Seq::<u8>::empty() == data);
}

// ---------------------------------------------------------------------------
// Page header and blocks
// ---------------------------------------------------------------------------

/// Size of a record in bytes.
pub const RECORD_SIZE: u32 = 8;

/// Minimum header bytes needed to determine the full header size.
pub const MIN_HEADER_PROBE: usize = 15;

/// A predicate block entry in the page header.
#[derive(Debug, Clone, Copy, PartialEq, Eq, Structural)]
pub struct PredicateEntry {
    /// Dictionary ID of the predicate.
    pub pred_id: u32,
    /// Byte offset from start of file where this block begins.
    pub offset: u32,
    /// Number of 8-byte records in this block.
    pub record_count: u32,
}

/// Parsed page file header.
#[derive(Debug, Clone)]
pub struct PageHeader {
    pub entries: Vec<PredicateEntry>,
    /// (offset, size) of the resource metadata section.
    pub resource_meta_range: Option<(u32, u32)>,
}

/// A predicate block with its records, ready to write.
pub struct PredicateBlock {
    pub pred_id: u32,
    pub records: Vec<PageRecord>,
}

/// `(pred_id, records)`.
pub type BlockView = (u32, Seq<PageRecord>);

impl View for PredicateBlock {
    type V = BlockView;

    open spec fn view(&self) -> BlockView {
        (self.pred_id, self.records@)
    }
}

/// The first entry for a predicate, if any.
pub open spec fn first_entry_for(es: Seq<PredicateEntry>, pred_id: u32) -> Option<int> {
    if exists|i: int| 0 <= i < es.len() && es[i].pred_id == pred_id {
        Some(choose|i: int| 0 <= i < es.len() && es[i].pred_id == pred_id && (forall|j: int| 0 <= j < i ==> es[j].pred_id != pred_id))
    } else {
        None
    }
}

impl PageHeader {
    /// Total header size in bytes: 15 + 12 × predicate_count.
    pub fn header_size(&self) -> (r: u32)
        requires
            15 + 12 * self.entries@.len() <= u32::MAX,
        ensures
            r == 15 + 12 * self.entries@.len(),
    {
        15 + 12 * self.entries.len() as u32
    }

    /// Find the first entry for a given predicate ID.
    pub fn entry_for_predicate(&self, pred_id: u32) -> (r: Option<&PredicateEntry>)
        ensures
            r matches Some(e) ==> exists|i: int|
                0 <= i < self.entries@.len() && self.entries@[i] == *e && e.pred_id == pred_id
                    && (forall|j: int| 0 <= j < i ==> self.entries@[j].pred_id != pred_id),
            r is None ==> forall|i: int|
                0 <= i < self.entries@.len() ==> self.entries@[i].pred_id != pred_id,
    {
        let mut i: usize = 0;
        while i < self.entries.len()
            invariant
                i <= self.entries@.len(),
                forall|j: int| 0 <= j < i ==> self.entries@[j].pred_id != pred_id,
            decreases self.entries@.len() - i,
        {
            if self.entries[i].pred_id == pred_id {
                return Some(&self.entries[i]);
            }
            i = i + 1;
        }
        None
    }

    /// Byte range (start, end exclusive) for a predicate's record block.
    pub fn predicate_byte_range(&self, pred_id: u32) -> (r: Option<(u32, u32)>)
        requires
            forall|i: int|
                0 <= i < self.entries@.len() ==> #[trigger] self.entries@[i].offset + 8
                    * self.entries@[i].record_count <= u32::MAX,
        ensures
            r matches Some((s, e)) ==> exists|i: int|
                0 <= i < self.entries@.len() && self.entries@[i].pred_id == pred_id && (forall|
                    j: int,
                | 0 <= j < i ==> self.entries@[j].pred_id != pred_id) && s
                    == self.entries@[i].offset && e == self.entries@[i].offset + 8
                    * self.entries@[i].record_count,
            r is None ==> forall|i: int|
                0 <= i < self.entries@.len() ==> self.entries@[i].pred_id != pred_id,
    {
        match self.entry_for_predicate(pred_id) {
            Some(e) => Some((e.offset, e.offset + e.record_count * RECORD_SIZE)),
            None => None,
        }
    }
}

/// Sum of the record counts of a sequence of blocks.
pub open spec fn total_records(bs: Seq<BlockView>) -> int
    decreases bs.len(),
{
    if bs.len() == 0 {
        0
    } else {
        total_records(bs.drop_last()) + bs.last().1.len()
    }
}

/// Header size for `n` predicates.
pub open spec fn page_header_size(n: int) -> int {
    15 + 12 * n
}

/// The header entries written for a sequence of blocks.
pub open spec fn page_entries(bs: Seq<BlockView>) -> Seq<PredicateEntry> {
    Seq::new(
        bs.len(),
        |k: int|
            PredicateEntry {
                pred_id: bs[k].0,
                offset: (page_header_size(bs.len() as int) + 8 * total_records(bs.take(k))) as u32,
                record_count: bs[k].1.len() as u32,
            },
    )
}

/// Encoding of header entries.
pub open spec fn entry_bytes(e: PredicateEntry) -> Seq<u8> {
    le32(e.pred_id) + le32(e.offset) + le32(e.record_count)
}

pub open spec fn entries_bytes(es: Seq<PredicateEntry>) -> Seq<u8>
    decreases es.len(),
{
    if es.len() == 0 {
        Seq::empty()
    } else {
        entries_bytes(es.drop_last()) + entry_bytes(es.last())
    }
}

/// The record blocks, concatenated.
pub open spec fn blocks_bytes(bs: Seq<BlockView>) -> Seq<u8>
    decreases bs.len(),
{
    if bs.len() == 0 {
        Seq::empty()
    } else {
        blocks_bytes(bs.drop_last()) + records_bytes(bs.last().1)
    }
}

/// The page magic "RMPG".
pub open spec fn page_magic() -> Seq<u8> {
    seq![0x52u8, 0x4du8, 0x50u8, 0x47u8]
}

/// The complete page file for (already ordered) blocks and metadata.
pub open spec fn spec_page_file(bs: Seq<BlockView>, ms: Seq<MetaView>) -> Seq<u8> {
    let meta = spec_resource_meta_bytes(ms);
    let meta_offset = page_header_size(bs.len() as int) + 8 * total_records(bs);
    page_magic() + seq![3u8] + le16(bs.len() as u16) + le32(meta_offset as u32) + le32(
        meta.len() as u32,
    ) + entries_bytes(page_entries(bs)) + blocks_bytes(bs) + meta
}

/// Number of blocks with a predicate ID no greater than `x`.
pub open spec fn count_le(bs: Seq<BlockView>, x: u32) -> int
    decreases bs.len(),
{
    if bs.len() == 0 {
        0
    } else {
        count_le(bs.drop_last(), x) + if bs.last().0 <= x {
            1int
        } else {
            0int
        }
    }
}

/// Insert a block after every block with a predicate ID no greater than its own.
pub open spec fn insert_block(bs: Seq<BlockView>, b: BlockView) -> Seq<BlockView> {
    bs.insert(count_le(bs, b.0), b)
}

/// Stable sort of blocks by predicate ID.
pub open spec fn sort_blocks(bs: Seq<BlockView>) -> Seq<BlockView>
    decreases bs.len(),
{
    if bs.len() == 0 {
        Seq::empty()
    } else {
        insert_block(sort_blocks(bs.drop_last()), bs.last())
    }
}

pub open spec fn blocks_sorted(bs: Seq<BlockView>) -> bool {
    forall|i: int, j: int| 0 <= i < j < bs.len() ==> bs[i].0 <= bs[j].0
}

proof fn lemma_count_le_split(bs: Seq<BlockView>, x: u32, j: int)
    requires
        0 <= j <= bs.len(),
        forall|k: int| 0 <= k < j ==> bs[k].0 <= x,
        forall|k: int| j <= k < bs.len() ==> bs[k].0 > x,
    ensures
        count_le(bs, x) == j,
    decreases bs.len(),
{
    if bs.len() > 0 {
        if j == bs.len() {
            lemma_count_le_split(bs.drop_last(), x, j - 1);
        } else {
            lemma_count_le_split(bs.drop_last(), x, j);
        }
    }
}

/// In a sorted sequence, `count_le` is the split point around `x`.
proof fn lemma_count_le_sorted(s: Seq<BlockView>, x: u32)
    requires
        blocks_sorted(s),
    ensures
        0 <= count_le(s, x) <= s.len(),
        forall|k: int| 0 <= k < count_le(s, x) ==> s[k].0 <= x,
        forall|k: int| count_le(s, x) <= k < s.len() ==> s[k].0 > x,
    decreases s.len(),
{
    if s.len() > 0 {
        let init = s.drop_last();
        lemma_count_le_sorted(init, x);
        let c0 = count_le(init, x);
        if s.last().0 <= x {
            assert forall|k: int| 0 <= k < s.len() implies s[k].0 <= x by {
                if k < s.len() - 1 {
                    assert(s[k].0 <= s.last().0);
                }
            }
            if c0 < init.len() {
                assert(init[c0].0 > x);
                assert(s[c0].0 <= s.last().0);
            }
        } else {
            assert forall|k: int| 0 <= k < c0 implies s[k].0 <= x by {
                assert(init[k] == s[k]);
            }
            assert forall|k: int| c0 <= k < s.len() implies s[k].0 > x by {
                if k < s.len() - 1 {
                    assert(init[k] == s[k]);
                }
            }
        }
    }
}

proof fn lemma_sort_blocks_props(bs: Seq<BlockView>)
    ensures
        blocks_sorted(sort_blocks(bs)),
        sort_blocks(bs).len() == bs.len(),
    decreases bs.len(),
{
    if bs.len() > 0 {
        let s = sort_blocks(bs.drop_last());
        lemma_sort_blocks_props(bs.drop_last());
        let b = bs.last();
        lemma_count_le_sorted(s, b.0);
        let j = count_le(s, b.0);
        let r = s.insert(j, b);
        assert(r == sort_blocks(bs));
        assert forall|p: int, q: int| 0 <= p < q < r.len() implies r[p].0 <= r[q].0 by {
            if p < j && q < j {
            } else if p < j && q == j {
            } else if p < j {
                assert(r[q] == s[q - 1]);
            } else if p == j {
                assert(r[q] == s[q - 1]);
            } else {
                assert(r[p] == s[p - 1]);
                assert(r[q] == s[q - 1]);
            }
        }
    }
}

proof fn lemma_total_records_insert(s: Seq<BlockView>, j: int, b: BlockView)
    requires
        0 <= j <= s.len(),
    ensures
        total_records(s.insert(j, b)) == total_records(s) + b.1.len(),
    decreases s.len(),
{
    if j == s.len() {
        assert(s.insert(j, b).drop_last() =~= s);
    } else {
        let init = s.drop_last();
        lemma_total_records_insert(init, j, b);
        assert(s.insert(j, b).drop_last() =~= init.insert(j, b));
    }
}

proof fn lemma_total_records_sort(bs: Seq<BlockView>)
    ensures
        total_records(sort_blocks(bs)) == total_records(bs),
    decreases bs.len(),
{
    if bs.len() > 0 {
        lemma_total_records_sort(bs.drop_last());
        lemma_sort_blocks_props(bs.drop_last());
        lemma_count_le_sorted(sort_blocks(bs.drop_last()), bs.last().0);
        lemma_total_records_insert(
            sort_blocks(bs.drop_last()),
            count_le(sort_blocks(bs.drop_last()), bs.last().0),
            bs.last(),
        );
    }
}

proof fn lemma_total_records_take(bs: Seq<BlockView>, k: int)
    requires
        0 <= k <= bs.len(),
    ensures
        0 <= total_records(bs.take(k)) <= total_records(bs),
        k < bs.len() ==> total_records(bs.take(k + 1)) == total_records(bs.take(k))
            + bs[k].1.len(),
    decreases bs.len(),
{
    if k < bs.len() {
        assert(bs.take(k + 1).drop_last() =~= bs.take(k));
        lemma_total_records_take(bs.drop_last(), k);
        assert(bs.drop_last().take(k) =~= bs.take(k));
    } else {
        assert(bs.take(k) =~= bs);
        lemma_total_records_nonneg(bs);
    }
}

proof fn lemma_total_records_nonneg(bs: Seq<BlockView>)
    ensures
        total_records(bs) >= 0,
    decreases bs.len(),
{
    if bs.len() > 0 {
        lemma_total_records_nonneg(bs.drop_last());
    }
}

/// Stable in-place sort of blocks by predicate ID.
fn sort_predicate_blocks(blocks: &mut Vec<PredicateBlock>)
    ensures
        final(blocks)@.map_values(|b: PredicateBlock| b@) == sort_blocks(
            old(blocks)@.map_values(|b: PredicateBlock| b@),
        ),
{
    let ghost orig = blocks@.map_values(|b: PredicateBlock| b@);
    let n = blocks.len();
    let mut i: usize = 0;
    while i < n
        invariant
            blocks@.len() == n,
            orig.len() == n,
            i <= n,
            blocks@.map_values(|b: PredicateBlock| b@).take(i as int) == sort_blocks(
                orig.take(i as int),
            ),
            blocks@.map_values(|b: PredicateBlock| b@).skip(i as int) == orig.skip(i as int),
        decreases n - i,
    {
        let ghost before = blocks@.map_values(|b: PredicateBlock| b@);
        let ghost prefix = before.take(i as int);
        proof {
            lemma_sort_blocks_props(orig.take(i as int));
            assert(before[i as int] == before.skip(i as int)[0]);
            assert(orig[i as int] == orig.skip(i as int)[0]);
        }
        let b = blocks.remove(i);
        proof {
            assert(blocks@.map_values(|b: PredicateBlock| b@).take(i as int) =~= prefix);
        }
        let mut j: usize = 0;
        while j < i && blocks[j].pred_id <= b.pred_id
            invariant
                j <= i,
                i < n,
                blocks@.len() == n - 1,
                blocks@.map_values(|b: PredicateBlock| b@).take(i as int) == prefix,
                forall|k: int| 0 <= k < j ==> prefix[k].0 <= b.pred_id,
            decreases i - j,
        {
            proof {
                assert(prefix[j as int] == blocks@[j as int]@);
            }
            j = j + 1;
        }
        proof {
            if j < i {
                assert(prefix[j as int] == blocks@[j as int]@);
                assert forall|k: int| j <= k < prefix.len() implies prefix[k].0 > b.pred_id by {
                    assert(prefix[j as int].0 <= prefix[k].0);
                }
            }
            lemma_count_le_split(prefix, b.pred_id, j as int);
        }
        let ghost bv = b@;
        blocks.insert(j, b);
        i = i + 1;
        proof {
            let after = blocks@.map_values(|b: PredicateBlock| b@);
            assert(orig.take(i as int).drop_last() =~= orig.take(i - 1));
            assert(orig.take(i as int).last() == orig[i - 1]);
            assert(bv == before[i - 1]);
            assert(after.take(i as int) =~= prefix.insert(j as int, bv));
            assert(after.skip(i as int) =~= before.skip(i as int));
            let old_i = i - 1;
            assert forall|q: int| 0 <= q < orig.skip(i as int).len() implies before.skip(
                i as int,
            )[q] == orig.skip(i as int)[q] by {
                assert(before.skip(i as int)[q] == before.skip(old_i)[q + 1]);
                assert(orig.skip(i as int)[q] == orig.skip(old_i)[q + 1]);
            }
            assert(after.skip(i as int) =~= orig.skip(i as int));
        }
    }
    proof {
        let fin = blocks@.map_values(|b: PredicateBlock| b@);
        assert(fin.take(n as int) =~= fin);
        assert(orig.take(n as int) =~= orig);
    }
}

/// Write a complete page file from predicate blocks.
///
/// The blocks are first sorted (stably) by predicate ID. Records within each
/// block are written as given.
pub fn write_page_file(blocks: &mut Vec<PredicateBlock>, resource_meta: &[ResourceMeta]) -> (r:
    Vec<u8>)
    requires
        page_header_size(old(blocks)@.len() as int) + 8 * total_records(
            old(blocks)@.map_values(|b: PredicateBlock| b@),
        ) <= u32::MAX,
    ensures
        final(blocks)@.map_values(|b: PredicateBlock| b@) == sort_blocks(
            old(blocks)@.map_values(|b: PredicateBlock| b@),
        ),
        r@ == spec_page_file(
            final(blocks)@.map_values(|b: PredicateBlock| b@),
            resource_meta@.map_values(|m: ResourceMeta| m@),
        ),
{
    sort_predicate_blocks(blocks);
    let ghost bs = blocks@.map_values(|b: PredicateBlock| b@);
    proof {
        lemma_total_records_sort(old(blocks)@.map_values(|b: PredicateBlock| b@));
        lemma_sort_blocks_props(old(blocks)@.map_values(|b: PredicateBlock| b@));
    }
    proof {
        lemma_total_records_nonneg(bs);
    }
    let n = blocks.len();
    let header_size = 15 + 12 * n;
    let mut offset: u32 = header_size as u32;
    let mut entries: Vec<PredicateEntry> = Vec::new();
    let mut k: usize = 0;
    while k < n
        invariant
            n == blocks@.len(),
            bs == blocks@.map_values(|b: PredicateBlock| b@),
            header_size == page_header_size(n as int),
            page_header_size(n as int) + 8 * total_records(bs) <= u32::MAX,
            k <= n,
            offset == page_header_size(n as int) + 8 * total_records(bs.take(k as int)),
            entries@ == page_entries(bs).take(k as int),
        decreases n - k,
    {
        proof {
            lemma_total_records_take(bs, k as int);
            lemma_total_records_take(bs, (k + 1) as int);
            assert(bs[k as int] == blocks@[k as int]@);
        }
        let len = blocks[k].records.len();
        entries.push(PredicateEntry { pred_id: blocks[k].pred_id, offset, record_count: len as u32 });
        offset = offset + (len as u32) * RECORD_SIZE;
        k = k + 1;
        proof {
            assert(entries@ =~= page_entries(bs).take(k as int));
        }
    }
    proof {
        assert(bs.take(n as int) =~= bs);
        assert(page_entries(bs).take(n as int) =~= page_entries(bs));
    }
    let meta_bytes = serialize_resource_meta(resource_meta);
    let mut buf: Vec<u8> = Vec::new();
    buf.push(0x52u8);
    buf.push(0x4du8);
    buf.push(0x50u8);
    buf.push(0x47u8);
    buf.push(3u8);
    push_u16(&mut buf, n as u16);
    push_u32(&mut buf, offset);
    push_u32(&mut buf, meta_bytes.len() as u32);
    let ghost head = buf@;
    let mut e: usize = 0;
    while e < entries.len()
        invariant
            e <= entries@.len(),
            buf@ == head + entries_bytes(entries@.take(e as int)),
        decreases entries@.len() - e,
    {
        let en = entries[e];
        push_u32(&mut buf, en.pred_id);
        push_u32(&mut buf, en.offset);
        push_u32(&mut buf, en.record_count);
        e = e + 1;
        proof {
            assert(entries@.take(e as int).drop_last() =~= entries@.take(e - 1));
            assert(buf@ =~= head + entries_bytes(entries@.take(e as int)));
        }
    }
    assert(entries@.take(entries@.len() as int) =~= entries@);
    let ghost head2 = buf@;
    let mut k: usize = 0;
    while k < n
        invariant
            n == blocks@.len(),
            bs == blocks@.map_values(|b: PredicateBlock| b@),
            k <= n,
            buf@ == head2 + blocks_bytes(bs.take(k as int)),
        decreases n - k,
    {
        let recs = &blocks[k].records;
        let ghost mid = buf@;
        let mut m: usize = 0;
        while m < recs.len()
            invariant
                m <= recs@.len(),
                buf@ == mid + records_bytes(recs@.take(m as int)),
            decreases recs@.len() - m,
        {
            let rec = recs[m];
            push_u32(&mut buf, rec.object_val);
            push_u32(&mut buf, rec.subject_id);
            m = m + 1;
            proof {
                assert(recs@.take(m as int).drop_last() =~= recs@.take(m - 1));
                assert(buf@ =~= mid + records_bytes(recs@.take(m as int)));
            }
        }
        k = k + 1;
        proof {
            assert(recs@.take(recs@.len() as int) =~= recs@);
            assert(bs.take(k as int).drop_last() =~= bs.take(k - 1));
            assert(bs[k - 1] == blocks@[k - 1]@);
            assert(buf@ =~= head2 + blocks_bytes(bs.take(k as int)));
        }
    }
    push_bytes(&mut buf, meta_bytes.as_slice());
    proof {
        assert(bs.take(n as int) =~= bs);
        lemma_total_records_take(bs, n as int);
        assert(buf@ =~= spec_page_file(bs, resource_meta@.map_values(|m: ResourceMeta| m@)));
    }
    buf
}

/// The header entry encoded by the 12 bytes at `pos`.
pub open spec fn entry_at(data: Seq<u8>, pos: int) -> PredicateEntry {
    PredicateEntry {
        pred_id: get_le32(data, pos),
        offset: get_le32(data, pos + 4),
        record_count: get_le32(data, pos + 8),
    }
}

/// The header a page file holds: its entries and metadata range, when well formed.
pub open spec fn spec_parse_page_header(data: Seq<u8>) -> Option<
    (Seq<PredicateEntry>, Option<(u32, u32)>),
> {
    if data.len() < 15 || data.subrange(0, 4) != page_magic() || data[4] != 3 {
        None
    } else {
        let n = get_le16(data, 5) as int;
        if data.len() < 15 + 12 * n {
            None
        } else {
            let meta_size = get_le32(data, 11);
            Some(
                (
                    Seq::new(n as nat, |i: int| entry_at(data, 15 + 12 * i)),
                    if meta_size > 0 {
                        Some((get_le32(data, 7), meta_size))
                    } else {
                        None
                    },
                ),
            )
        }
    }
}

/// Parse a page file header from bytes.
pub fn parse_page_header(data: &[u8]) -> (r: Result<PageHeader, String>)
    ensures
        r matches Ok(h) ==> spec_parse_page_header(data@) == Some(
            (h.entries@, h.resource_meta_range),
        ),
        r is Err ==> spec_parse_page_header(data@) is None,
{
    if data.len() < 15 {
        return Err("Page file too short for header".to_string());
    }
    if !(data[0] == 0x52u8 && data[1] == 0x4du8 && data[2] == 0x50u8 && data[3] == 0x47u8) {
        proof {
            if data@.subrange(0, 4) == page_magic() {
                assert(data@[0] == data@.subrange(0, 4)[0]);
                assert(data@[1] == data@.subrange(0, 4)[1]);
                assert(data@[2] == data@.subrange(0, 4)[2]);
                assert(data@[3] == data@.subrange(0, 4)[3]);
            }
        }
        return Err("Invalid page file magic".to_string());
    }
    assert(data@.subrange(0, 4) =~= page_magic());
    if data[4] != 3 {
        return Err("Unsupported page file version".to_string());
    }
    let pred_count = read_u16(data, 5) as usize;
    let meta_offset = read_u32(data, 7);
    let meta_size = read_u32(data, 11);
    let resource_meta_range = if meta_size > 0 {
        Some((meta_offset, meta_size))
    } else {
        None
    };
    if data.len() < 15 + 12 * pred_count {
        return Err("Page header truncated".to_string());
    }
    let mut entries: Vec<PredicateEntry> = Vec::new();
    let mut i: usize = 0;
    while i < pred_count
        invariant
            i <= pred_count,
            pred_count == get_le16(data@, 5),
            data@.len() >= 15 + 12 * pred_count,
            entries@ =~= Seq::new(i as nat, |q: int| entry_at(data@, 15 + 12 * q)),
        decreases pred_count - i,
    {
        let base = 15 + 12 * i;
        let pred_id = read_u32(data, base);
        let offset = read_u32(data, base + 4);
        let record_count = read_u32(data, base + 8);
        entries.push(PredicateEntry { pred_id, offset, record_count });
        i = i + 1;
    }
    Ok(PageHeader { entries, resource_meta_range })
}

/// The records of a block: one per complete 8-byte chunk.
pub fn parse_records(block_bytes: &[u8]) -> (r: Vec<PageRecord>)
    ensures
        r@.len() == block_bytes@.len() / 8,
        forall|i: int| 0 <= i < r@.len() ==> #[trigger] r@[i] == record_at(block_bytes@, 8 * i),
{
    let n = block_bytes.len() / 8;
    let mut r: Vec<PageRecord> = Vec::new();
    let mut i: usize = 0;
    while i < n
        invariant
            n == block_bytes@.len() / 8,
            i <= n,
            r@.len() == i,
            forall|q: int| 0 <= q < i ==> #[trigger] r@[q] == record_at(block_bytes@, 8 * q),
        decreases n - i,
    {
        assert(8 * i + 8 <= block_bytes@.len()) by (nonlinear_arith)
            requires
                i < n,
                n == block_bytes@.len() / 8,
        ;
        assert(block_bytes@.len() == block_bytes.len());
        let object_val = read_u32(block_bytes, 8 * i);
        let subject_id = read_u32(block_bytes, 8 * i + 4);
        r.push(PageRecord { object_val, subject_id });
        i = i + 1;
    }
    r
}

/// Parsing the encoding of records gives them back.
pub proof fn lemma_parse_records_roundtrip(rs: Seq<PageRecord>)
    ensures
        records_bytes(rs).len() / 8 == rs.len(),
        forall|i: int| 0 <= i < rs.len() ==> #[trigger] record_at(records_bytes(rs), 8 * i) == rs[i],
{
    lemma_records_bytes_len(rs);
    assert forall|i: int| 0 <= i < rs.len() implies #[trigger] record_at(records_bytes(rs), 8 * i)
        == rs[i] by {
        lemma_records_bytes_index(rs, i);
    }
}

/// Calculate full header size from the first `MIN_HEADER_PROBE` bytes.
pub fn full_header_size(probe: &[u8]) -> (r: Result<usize, String>)
    ensures
        r is Ok <==> (probe@.len() >= 15 && probe@.subrange(0, 4) == page_magic()),
        r matches Ok(n) ==> n == 15 + 12 * get_le16(probe@, 5),
{
    if probe.len() < MIN_HEADER_PROBE {
        return Err("Probe too short".to_string());
    }
    if !(probe[0] == 0x52u8 && probe[1] == 0x4du8 && probe[2] == 0x50u8 && probe[3] == 0x47u8) {
        proof {
            if probe@.subrange(0, 4) == page_magic() {
                assert(probe@[0] == probe@.subrange(0, 4)[0]);
                assert(probe@[1] == probe@.subrange(0, 4)[1]);
                assert(probe@[2] == probe@.subrange(0, 4)[2]);
                assert(probe@[3] == probe@.subrange(0, 4)[3]);
            }
        }
        return Err("Invalid magic".to_string());
    }
    assert(probe@.subrange(0, 4) =~= page_magic());
    let pred_count = read_u16(probe, 5) as usize;
    Ok(15 + 12 * pred_count)
}

/// Records sorted by object value.
pub open spec fn sorted_by_object(rs: Seq<PageRecord>) -> bool {
    forall|i: int, j: int| 0 <= i <= j < rs.len() ==> rs[i].object_val <= rs[j].object_val
}

/// `r.object_val < bound` (strict) or `r.object_val <= bound`.
pub open spec fn below(r: PageRecord, bound: u32, strict: bool) -> bool {
    if strict {
        r.object_val < bound
    } else {
        r.object_val <= bound
    }
}

/// The first index at or after `from` whose record is not `below` the bound
/// (the partition point, when the records are sorted).
fn partition_point_from(records: &[PageRecord], from: usize, bound: u32, strict: bool) -> (r:
    usize)
    requires
        from <= records@.len(),
    ensures
        from <= r <= records@.len(),
        sorted_by_object(records@) ==> forall|k: int|
            from <= k < r ==> below(#[trigger] records@[k], bound, strict),
        sorted_by_object(records@) ==> forall|k: int|
            r <= k < records@.len() ==> !below(#[trigger] records@[k], bound, strict),
{
    let mut lo = from;
    let mut hi = records.len();
    while lo < hi
        invariant
            from <= lo <= hi <= records@.len(),
            sorted_by_object(records@) ==> forall|k: int|
                from <= k < lo ==> below(#[trigger] records@[k], bound, strict),
            sorted_by_object(records@) ==> forall|k: int|
                hi <= k < records@.len() ==> !below(#[trigger] records@[k], bound, strict),
        decreases hi - lo,
    {
        let mid = lo + (hi - lo) / 2;
        let is_below = if strict {
            records[mid].object_val < bound
        } else {
            records[mid].object_val <= bound
        };
        if is_below {
            proof {
                if sorted_by_object(records@) {
                    assert forall|k: int| from <= k < mid + 1 implies below(
                        #[trigger] records@[k],
                        bound,
                        strict,
                    ) by {
                        assert(records@[k].object_val <= records@[mid as int].object_val);
                    }
                }
            }
            lo = mid + 1;
        } else {
            proof {
                if sorted_by_object(records@) {
                    assert forall|k: int| mid <= k < records@.len() implies !below(
                        #[trigger] records@[k],
                        bound,
                        strict,
                    ) by {
                        assert(records@[mid as int].object_val <= records@[k].object_val);
                    }
                }
            }
            hi = mid;
        }
    }
    lo
}

/// Binary search within a sorted record block for records matching a specific
/// object value. Returns the range of matching record indices.
pub fn binary_search_object(records: &[PageRecord], target: u32) -> (r: (usize, usize))
    ensures
        r.0 <= r.1 <= records@.len(),
        sorted_by_object(records@) ==> forall|k: int|
            0 <= k < r.0 ==> #[trigger] records@[k].object_val < target,
        sorted_by_object(records@) ==> forall|k: int|
            r.0 <= k < r.1 ==> #[trigger] records@[k].object_val == target,
        sorted_by_object(records@) ==> forall|k: int|
            r.1 <= k < records@.len() ==> #[trigger] records@[k].object_val > target,
{
    let lo = partition_point_from(records, 0, target, true);
    let hi = partition_point_from(records, lo, target, false);
    proof {
        if sorted_by_object(records@) {
            assert forall|k: int| lo <= k < hi implies #[trigger] records@[k].object_val
                == target by {
                assert(!below(records@[k], target, true));
                assert(below(records@[k], target, false));
            }
            assert forall|k: int| hi <= k < records@.len() implies #[trigger] records@[k].object_val
                > target by {
                assert(!below(records@[k], target, false));
            }
            assert forall|k: int| 0 <= k < lo implies #[trigger] records@[k].object_val
                < target by {
                assert(below(records@[k], target, true));
            }
        }
    }
    (lo, hi)
}

/// Binary search for records within an object value range `[lo_val, hi_val]` inclusive.
pub fn range_search_object(records: &[PageRecord], lo_val: u32, hi_val: u32) -> (r: (
    usize,
    usize,
))
    ensures
        r.0 <= r.1 <= records@.len(),
        sorted_by_object(records@) ==> forall|k: int|
            0 <= k < r.0 ==> #[trigger] records@[k].object_val < lo_val,
        sorted_by_object(records@) ==> forall|k: int|
            r.0 <= k < r.1 ==> lo_val <= #[trigger] records@[k].object_val <= hi_val,
        sorted_by_object(records@) ==> forall|k: int|
            r.1 <= k < records@.len() ==> #[trigger] records@[k].object_val > hi_val,
{
    let lo = partition_point_from(records, 0, lo_val, true);
    let hi = partition_point_from(records, lo, hi_val, false);
    proof {
        if sorted_by_object(records@) {
            assert forall|k: int| lo <= k < hi implies lo_val <= #[trigger] records@[k].object_val
                <= hi_val by {
                assert(!below(records@[k], lo_val, true));
                assert(below(records@[k], hi_val, false));
            }
            assert forall|k: int| hi <= k < records@.len() implies #[trigger] records@[k].object_val
                > hi_val by {
                assert(!below(records@[k], hi_val, false));
            }
            assert forall|k: int| 0 <= k < lo implies #[trigger] records@[k].object_val
                < lo_val by {
                assert(below(records@[k], lo_val, true));
            }
        }
    }
    (lo, hi)
}

proof fn lemma_entries_bytes_len(es: Seq<PredicateEntry>)
    ensures
        entries_bytes(es).len() == 12 * es.len(),
    decreases es.len(),
{
    if es.len() > 0 {
        lemma_entries_bytes_len(es.drop_last());
    }
}

proof fn lemma_entries_bytes_index(es: Seq<PredicateEntry>, i: int)
    requires
        0 <= i < es.len(),
    ensures
        entry_at(entries_bytes(es), 12 * i) == es[i],
    decreases es.len(),
{
    let init = es.drop_last();
    lemma_entries_bytes_len(init);
    let t = entries_bytes(init);
    let s = entries_bytes(es);
    if i == es.len() - 1 {
        let e = es.last();
        crate::codec::lemma_le32_roundtrip(e.pred_id);
        crate::codec::lemma_le32_roundtrip(e.offset);
        crate::codec::lemma_le32_roundtrip(e.record_count);
        assert(s == t + le32(e.pred_id) + (le32(e.offset) + le32(e.record_count)));
        lemma_get_le32_at(t, e.pred_id, le32(e.offset) + le32(e.record_count));
        assert(s == (t + le32(e.pred_id)) + le32(e.offset) + le32(e.record_count));
        lemma_get_le32_at(t + le32(e.pred_id), e.offset, le32(e.record_count));
        assert(s == (t + le32(e.pred_id) + le32(e.offset)) + le32(e.record_count) + Seq::<
            u8,
        >::empty());
        lemma_get_le32_at(t + le32(e.pred_id) + le32(e.offset), e.record_count, Seq::empty());
    } else {
        lemma_entries_bytes_index(init, i);
        assert(s == t + entry_bytes(es.last()));
        crate::codec::lemma_get_le32_shift(Seq::empty(), t, entry_bytes(es.last()), 12 * i);
        crate::codec::lemma_get_le32_shift(Seq::empty(), t, entry_bytes(es.last()), 12 * i + 4);
        crate::codec::lemma_get_le32_shift(Seq::empty(), t, entry_bytes(es.last()), 12 * i + 8);
        assert(Seq::<u8>::empty() + t + entry_bytes(es.last()) == s);
    }
}

proof fn lemma_blocks_bytes_len(bs: Seq<BlockView>)
    ensures
        blocks_bytes(bs).len() == 8 * total_records(bs),
    decreases bs.len(),
{
    if bs.len() > 0 {
        lemma_blocks_bytes_len(bs.drop_last());
        lemma_records_bytes_len(bs.last().1);
    }
}

/// Block `k`'s records sit after the records of the blocks before it.
proof fn lemma_blocks_bytes_block(bs: Seq<BlockView>, k: int)
    requires
        0 <= k < bs.len(),
    ensures
        blocks_bytes(bs).subrange(8 * total_records(bs.take(k)), 8 * total_records(bs.take(k))
            + 8 * bs[k].1.len()) == records_bytes(bs[k].1),
    decreases bs.len(),
{
    let init = bs.drop_last();
    lemma_blocks_bytes_len(init);
    lemma_records_bytes_len(bs[k].1);
    lemma_total_records_take(bs, k);
    if k == bs.len() - 1 {
        assert(bs.take(k) =~= init);
        assert(blocks_bytes(bs).subrange(8 * total_records(init), 8 * total_records(init) + 8
            * bs[k].1.len()) =~= records_bytes(bs[k].1));
    } else {
        lemma_blocks_bytes_block(init, k);
        assert(init.take(k) =~= bs.take(k));
        lemma_total_records_take(init, k);
        lemma_total_records_take(init, k + 1);
        lemma_total_records_take(init, init.len() as int);
        assert(init.take(init.len() as int) =~= init);
        assert(init.take(k + 1) =~= bs.take(k + 1));
        lemma_total_records_take(init, k + 1);
        lemma_total_records_monotone(init, k + 1, init.len() as int);
        assert(blocks_bytes(bs).subrange(8 * total_records(bs.take(k)), 8 * total_records(
            bs.take(k),
        ) + 8 * bs[k].1.len()) =~= blocks_bytes(init).subrange(
            8 * total_records(bs.take(k)),
            8 * total_records(bs.take(k)) + 8 * bs[k].1.len(),
        ));
    }
}

proof fn lemma_total_records_monotone(bs: Seq<BlockView>, j: int, k: int)
    requires
        0 <= j <= k <= bs.len(),
    ensures
        total_records(bs.take(j)) <= total_records(bs.take(k)),
    decreases k - j,
{
    if j < k {
        lemma_total_records_monotone(bs, j, k - 1);
        lemma_total_records_take(bs, k - 1);
    }
}

proof fn lemma_page_file_fields(h1: Seq<u8>, n: u16, moff: u32, mlen: u32, rest: Seq<u8>)
    requires
        h1 == page_magic() + seq![3u8],
    ensures
        ({
            let f = h1 + le16(n) + le32(moff) + le32(mlen) + rest;
            &&& f.len() == 15 + rest.len()
            &&& f.subrange(0, 4) == page_magic()
            &&& f[4] == 3u8
            &&& get_le16(f, 5) == n
            &&& get_le32(f, 7) == moff
            &&& get_le32(f, 11) == mlen
        }),
{
    let f = h1 + le16(n) + le32(moff) + le32(mlen) + rest;
    crate::codec::lemma_le16_roundtrip(n);
    crate::codec::lemma_le32_roundtrip(moff);
    crate::codec::lemma_le32_roundtrip(mlen);
    assert(f == h1 + le16(n) + (le32(moff) + le32(mlen) + rest));
    lemma_get_le16_at(h1, n, le32(moff) + le32(mlen) + rest);
    assert(f == (h1 + le16(n)) + le32(moff) + (le32(mlen) + rest));
    lemma_get_le32_at(h1 + le16(n), moff, le32(mlen) + rest);
    assert(f == (h1 + le16(n) + le32(moff)) + le32(mlen) + rest);
    lemma_get_le32_at(h1 + le16(n) + le32(moff), mlen, rest);
    assert(f.subrange(0, 4) =~= page_magic());
}

proof fn lemma_page_file_entries(h: Seq<u8>, es: Seq<PredicateEntry>, rest: Seq<u8>)
    requires
        h.len() == 15,
    ensures
        Seq::new(es.len(), |i: int| entry_at(h + entries_bytes(es) + rest, 15 + 12 * i)) == es,
{
    let f = h + entries_bytes(es) + rest;
    lemma_entries_bytes_len(es);
    let parsed = Seq::new(es.len(), |i: int| entry_at(f, 15 + 12 * i));
    assert forall|i: int| 0 <= i < es.len() implies parsed[i] == es[i] by {
        lemma_entries_bytes_index(es, i);
        crate::codec::lemma_get_le32_shift(h, entries_bytes(es), rest, 12 * i);
        crate::codec::lemma_get_le32_shift(h, entries_bytes(es), rest, 12 * i + 4);
        crate::codec::lemma_get_le32_shift(h, entries_bytes(es), rest, 12 * i + 8);
    }
    assert(parsed =~= es);
}

proof fn lemma_page_file_block(pre: Seq<u8>, bs: Seq<BlockView>, meta: Seq<u8>, k: int)
    requires
        0 <= k < bs.len(),
        pre.len() == page_header_size(bs.len() as int),
        page_header_size(bs.len() as int) + 8 * total_records(bs) <= u32::MAX,
    ensures
        (pre + blocks_bytes(bs) + meta).subrange(
            page_entries(bs)[k].offset as int,
            page_entries(bs)[k].offset + 8 * page_entries(bs)[k].record_count,
        ) == records_bytes(bs[k].1),
{
    let n = bs.len() as int;
    let f = pre + blocks_bytes(bs) + meta;
    lemma_blocks_bytes_block(bs, k);
    lemma_blocks_bytes_len(bs);
    lemma_total_records_take(bs, k);
    lemma_total_records_take(bs, k + 1);
    lemma_total_records_monotone(bs, k + 1, n);
    assert(bs.take(n) =~= bs);
    lemma_records_bytes_len(bs[k].1);
    let start = 8 * total_records(bs.take(k));
    let len = 8 * bs[k].1.len();
    assert(f.subrange(pre.len() + start, pre.len() + start + len) =~= blocks_bytes(bs).subrange(
        start,
        start + len,
    ));
}

/// Reading back a written page file: the header holds one entry per block
/// (in written order) and the metadata range, each block's bytes are the
/// encoding of its records, and the metadata range holds the metadata section.
pub proof fn lemma_page_file_roundtrip(bs: Seq<BlockView>, ms: Seq<MetaView>)
    requires
        bs.len() <= 0xffff,
        page_header_size(bs.len() as int) + 8 * total_records(bs) + spec_resource_meta_bytes(
            ms,
        ).len() <= u32::MAX,
    ensures
        spec_parse_page_header(spec_page_file(bs, ms)) == Some(
            (
                page_entries(bs),
                Some(
                    (
                        (page_header_size(bs.len() as int) + 8 * total_records(bs)) as u32,
                        spec_resource_meta_bytes(ms).len() as u32,
                    ),
                ),
            ),
        ),
        forall|k: int|
            0 <= k < bs.len() ==> spec_page_file(bs, ms).subrange(
                #[trigger] page_entries(bs)[k].offset as int,
                page_entries(bs)[k].offset + 8 * page_entries(bs)[k].record_count,
            ) == records_bytes(bs[k].1),
        spec_page_file(bs, ms).subrange(
            page_header_size(bs.len() as int) + 8 * total_records(bs),
            page_header_size(bs.len() as int) + 8 * total_records(bs) + spec_resource_meta_bytes(
                ms,
            ).len(),
        ) == spec_resource_meta_bytes(ms),
{
    let n = bs.len() as int;
    let es = page_entries(bs);
    let meta = spec_resource_meta_bytes(ms);
    let moff = page_header_size(n) + 8 * total_records(bs);
    lemma_total_records_nonneg(bs);
    let h1 = page_magic() + seq![3u8];
    let h = h1 + le16(n as u16) + le32(moff as u32) + le32(meta.len() as u32);
    let eb = entries_bytes(es);
    let bb = blocks_bytes(bs);
    let f = spec_page_file(bs, ms);
    assert(f == h + (eb + bb + meta));
    lemma_page_file_fields(h1, n as u16, moff as u32, meta.len() as u32, eb + bb + meta);
    lemma_entries_bytes_len(es);
    lemma_blocks_bytes_len(bs);
    assert(meta.len() >= 4);
    assert(f == h + eb + (bb + meta));
    lemma_page_file_entries(h, es, bb + meta);
    assert forall|k: int| 0 <= k < n implies f.subrange(
        #[trigger] es[k].offset as int,
        es[k].offset + 8 * es[k].record_count,
    ) == records_bytes(bs[k].1) by {
        assert(f == (h + eb) + bb + meta);
        lemma_page_file_block(h + eb, bs, meta, k);
    }
    assert(f == (h + eb + bb) + meta);
    assert(f.subrange(moff, moff + meta.len()) =~= meta);
}

// ---------------------------------------------------------------------------
// Reading sections of a page file
// ---------------------------------------------------------------------------

/// Why a section of a page file could not be read.
#[derive(Debug, Clone)]
pub enum PageReadError {
    /// The header, or the metadata section it names, is malformed.
    Malformed(String),
    /// The metadata section `[start, end)` runs past the file's `len` bytes.
    MetaOutOfRange { start: u64, end: u64, len: u64 },
    /// The block of `pred_id` runs past the end of the file.
    BlockOutOfRange { pred_id: u32 },
}

/// The resource metadata embedded in a page file; empty when the header names
/// no metadata section.
pub fn page_resource_meta(data: &[u8]) -> (r: Result<Vec<ResourceMeta>, PageReadError>)
    ensures
        match spec_parse_page_header(data@) {
            None => r matches Err(PageReadError::Malformed(_)),
            Some((_, None)) => r matches Ok(ms) && ms@.len() == 0,
            Some((_, Some((off, size)))) => if off + size > data@.len() {
                r matches Err(PageReadError::MetaOutOfRange { start, end, len }) && start == off
                    && end == off + size && len == data@.len()
            } else {
                match spec_parse_resource_meta(data@.subrange(off as int, off + size)) {
                    Some(ms) => r matches Ok(v) && v@.map_values(|m: ResourceMeta| m@) == ms,
                    None => r matches Err(PageReadError::Malformed(_)),
                }
            },
        },
{
    let header = match parse_page_header(data) {
        Ok(h) => h,
        Err(e) => {
            return Err(PageReadError::Malformed(e));
        },
    };
    match header.resource_meta_range {
        Some((offset, size)) => {
            let start = offset as u64;
            let end = start + size as u64;
            if end > data.len() as u64 {
                return Err(PageReadError::MetaOutOfRange { start, end, len: data.len() as u64 });
            }
            let section = vstd::slice::slice_subrange(data, start as usize, end as usize);
            match parse_resource_meta(section) {
                Ok(ms) => Ok(ms),
                Err(e) => Err(PageReadError::Malformed(e)),
            }
        },
        None => Ok(Vec::new()),
    }
}

/// The records held in a block's bytes: one per complete 8-byte chunk.
pub open spec fn block_records(bytes: Seq<u8>) -> Seq<PageRecord> {
    Seq::new((bytes.len() / 8) as nat, |i: int| record_at(bytes, 8 * i))
}

/// The blocks of the requested predicates that a page with entries `es`
/// holds, in request order and with the predicates it lacks left out; or the
/// first requested predicate whose block runs past the end of `data`.
pub open spec fn requested_blocks(data: Seq<u8>, es: Seq<PredicateEntry>, preds: Seq<u32>) -> Result<
    Seq<(u32, Seq<PageRecord>)>,
    u32,
>
    decreases preds.len(),
{
    if preds.len() == 0 {
        Ok(Seq::empty())
    } else {
        match requested_blocks(data, es, preds.drop_last()) {
            Err(p) => Err(p),
            Ok(bs) => {
                let p = preds.last();
                match first_entry_for(es, p) {
                    None => Ok(bs),
                    Some(i) => {
                        let start = es[i].offset as int;
                        let end = start + 8 * es[i].record_count;
                        if end > data.len() {
                            Err(p)
                        } else {
                            Ok(bs.push((p, block_records(data.subrange(start, end)))))
                        }
                    },
                }
            },
        }
    }
}

/// A block that runs past the end of the file for some requested predicate
/// stays the answer when more predicates are requested after it.
proof fn lemma_requested_blocks_err(
    data: Seq<u8>,
    es: Seq<PredicateEntry>,
    preds: Seq<u32>,
    k: int,
    p: u32,
)
    requires
        0 <= k <= preds.len(),
        requested_blocks(data, es, preds.subrange(0, k)) == Err::<Seq<(u32, Seq<PageRecord>)>, u32>(p),
    ensures
        requested_blocks(data, es, preds) == Err::<Seq<(u32, Seq<PageRecord>)>, u32>(p),
    decreases preds.len() - k,
{
    if k < preds.len() {
        let next = preds.subrange(0, k + 1);
        assert(next.drop_last() == preds.subrange(0, k));
        lemma_requested_blocks_err(data, es, preds, k + 1, p);
    } else {
        assert(preds.subrange(0, k) == preds);
    }
}

/// The records of each requested predicate that a page file holds, in request
/// order; a predicate the page lacks is left out.
pub fn page_predicate_records(data: &[u8], preds: &[u32]) -> (r: Result<
    Vec<(u32, Vec<PageRecord>)>,
    PageReadError,
>)
    ensures
        match spec_parse_page_header(data@) {
            None => r matches Err(PageReadError::Malformed(_)),
            Some((es, _)) => match requested_blocks(data@, es, preds@) {
                Ok(bs) => r matches Ok(v) && v@.len() == bs.len() && forall|k: int|
                    0 <= k < bs.len() ==> (#[trigger] v@[k]).0 == bs[k].0 && v@[k].1@ == bs[k].1,
                Err(p) => r matches Err(PageReadError::BlockOutOfRange { pred_id }) && pred_id == p,
            },
        },
{
    let header = match parse_page_header(data) {
        Ok(h) => h,
        Err(e) => {
            return Err(PageReadError::Malformed(e));
        },
    };
    let ghost es = header.entries@;
    let mut out: Vec<(u32, Vec<PageRecord>)> = Vec::new();
    let mut k: usize = 0;
    while k < preds.len()
        invariant
            k <= preds@.len(),
            es == header.entries@,
            spec_parse_page_header(data@) == Some((es, header.resource_meta_range)),
            requested_blocks(data@, es, preds@.subrange(0, k as int)) matches Ok(bs) && out@.len()
                == bs.len() && forall|j: int|
                0 <= j < bs.len() ==> (#[trigger] out@[j]).0 == bs[j].0 && out@[j].1@ == bs[j].1,
        decreases preds@.len() - k,
    {
        let p = preds[k];
        let ghost prefix = preds@.subrange(0, k as int);
        let ghost next = preds@.subrange(0, k + 1);
        proof {
            assert(next.drop_last() == prefix);
            assert(next.last() == p);
        }
        match header.entry_for_predicate(p) {
            None => {
                proof {
                    assert(first_entry_for(es, p) is None);
                }
            },
            Some(e) => {
                proof {
                    let i = choose|i: int|
                        0 <= i < es.len() && es[i] == *e && e.pred_id == p && (forall|j: int|
                            0 <= j < i ==> es[j].pred_id != p);
                    let c = choose|c: int|
                        0 <= c < es.len() && es[c].pred_id == p && (forall|j: int|
                            0 <= j < c ==> es[j].pred_id != p);
                    assert(es[i].pred_id == p);
                    if c < i {
                        assert(es[c].pred_id != p);
                    }
                    if i < c {
                        assert(es[i].pred_id != p);
                    }
                    assert(first_entry_for(es, p) == Some(i));
                }
                let start = e.offset as u64;
                let end = start + 8 * (e.record_count as u64);
                if end > data.len() as u64 {
                    proof {
                        lemma_requested_blocks_err(data@, es, preds@, k + 1, p);
                    }
                    return Err(PageReadError::BlockOutOfRange { pred_id: p });
                }
                let block = vstd::slice::slice_subrange(data, start as usize, end as usize);
                let recs = parse_records(block);
                proof {
                    assert(recs@ == block_records(block@));
                }
                out.push((p, recs));
            },
        }
        k = k + 1;
    }
    proof {
        assert(preds@.subrange(0, preds@.len() as int) == preds@);
    }
    Ok(out)
}

} // verus!
