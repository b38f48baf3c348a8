//! Resource-to-page mapping for O(1) lookup by dictionary ID.
//!
//! ```text
//! magic: "RMRM" (4 bytes)
//! entry_count: u32 LE (= dictionary.len())
//! entries: [u16 LE x entry_count]  -- page_id per dict entry, 0xFFFF = not a resource
//! ```

use vstd::prelude::*;
use vstd::utf8::*;
use vstd::string::*;
use vstd::hash_map::StringHashMap;
use crate::codec::{get_le16, get_le32, le16, le32, lemma_get_le16_at, lemma_get_le32_at, push_u16, push_u32, read_u16, read_u32};
use crate::dictionary::Dictionary;
use crate::uri::resource_prefix;

verus! {

/// Marks a dictionary entry that is not a resource.
pub const NOT_A_RESOURCE: u16 = 0xFFFF;

/// The map a list of (resource id, page) pairs describes; a later pair
/// overrides an earlier one with the same resource id.
pub open spec fn pairs_map(ps: Seq<(Seq<char>, u32)>) -> Map<Seq<char>, u32>
    decreases ps.len(),
{
    if ps.len() == 0 {
        Map::empty()
    } else {
        pairs_map(ps.drop_last()).insert(ps.last().0, ps.last().1)
    }
}

/// What follows `prefix` in `t`, when `t` starts with it (byte-wise, at a
/// character boundary).
pub open spec fn stripped(t: Seq<char>, prefix: Seq<char>) -> Option<Seq<char>> {
    let tb = encode_utf8(t);
    let pb = encode_utf8(prefix);
    if pb.len() <= tb.len() && tb.subrange(0, pb.len() as int) == pb && is_char_boundary(
        tb,
        pb.len() as int,
    ) {
        Some(decode_utf8(tb.subrange(pb.len() as int, tb.len() as int)))
    } else {
        None
    }
}

/// The page entry of a term: its page when it is a resource URI with a page
/// below 0xFFFF, else `NOT_A_RESOURCE`.
pub open spec fn page_entry(t: Seq<char>, prefix: Seq<char>, m: Map<Seq<char>, u32>) -> u16 {
    match stripped(t, prefix) {
        Some(r) => if m.contains_key(r) && m[r] < 0xFFFF {
            m[r] as u16
        } else {
            NOT_A_RESOURCE
        },
        None => NOT_A_RESOURCE,
    }
}

/// Maps dictionary IDs to page IDs for resource terms.
pub struct ResourceMap {
    entries: Vec<u16>,
}

impl View for ResourceMap {
    type V = Seq<u16>;

    closed spec fn view(&self) -> Seq<u16> {
        self.entries@
    }
}

/// The magic "RMRM".
pub open spec fn resource_map_magic() -> Seq<u8> {
    seq![0x52u8, 0x4du8, 0x52u8, 0x4du8]
}

/// The little-endian encodings of the entries.
pub open spec fn entries_bytes(es: Seq<u16>) -> Seq<u8>
    decreases es.len(),
{
    if es.len() == 0 {
        Seq::empty()
    } else {
        entries_bytes(es.drop_last()) + le16(es.last())
    }
}

/// The serialized map.
pub open spec fn resource_map_bytes(es: Seq<u16>) -> Seq<u8> {
    resource_map_magic() + le32(es.len() as u32) + entries_bytes(es)
}

/// The map a byte string holds, when well formed.
pub open spec fn spec_parse_resource_map(d: Seq<u8>) -> Option<Seq<u16>> {
    if d.len() < 8 || d.subrange(0, 4) != resource_map_magic() {
        None
    } else {
        let n = get_le32(d, 4) as int;
        if d.len() < 8 + 2 * n {
            None
        } else {
            Some(Seq::new(n as nat, |i: int| get_le16(d, 8 + 2 * i)))
        }
    }
}

pub(crate) fn strip_prefix<'a>(term: &'a str, prefix: &str) -> (r: Option<&'a str>)
    ensures
        r is Some <==> stripped(term@, prefix@) is Some,
        r matches Some(rest) ==> stripped(term@, prefix@) == Some(rest@),
{
    let tb = term.as_bytes();
    let pb = prefix.as_bytes();
    if pb.len() > tb.len() {
        return None;
    }
    let head = vstd::slice::slice_subrange(tb, 0, pb.len());
    if !crate::text::bytes_eq(head, pb) {
        return None;
    }
    if !term.is_char_boundary(pb.len()) {
        return None;
    }
    let (_, rest) = term.split_at(pb.len());
    proof {
        encode_utf8_decode_utf8(rest@);
    }
    Some(rest)
}

impl ResourceMap {
    #[verifier::type_invariant]
    closed spec fn count_fits(self) -> bool {
        self.entries@.len() <= u32::MAX
    }

    /// Build from a dictionary and (resource id, page id) pairs.
    ///
    /// Resource ids are raw (without URI prefix); `base_uri` is the prefix of
    /// resource URIs in the dictionary, whose terms read
    /// `"{base_uri}resource/{id}"`.
    pub fn build(dict: &Dictionary, resource_to_page: &[(String, u32)], base_uri: &str) -> (r: Self)
        ensures
            r@.len() == dict@.len(),
            forall|i: int|
                0 <= i < r@.len() ==> #[trigger] r@[i] == page_entry(
                    dict@[i],
                    base_uri@ + "resource/"@,
                    pairs_map(resource_to_page@.map_values(|p: (String, u32)| (p.0@, p.1))),
                ),
    {
        let ghost pv = resource_to_page@.map_values(|p: (String, u32)| (p.0@, p.1));
        let mut map: StringHashMap<u32> = StringHashMap::new();
        let mut k: usize = 0;
        while k < resource_to_page.len()
            invariant
                k <= resource_to_page@.len(),
                pv == resource_to_page@.map_values(|p: (String, u32)| (p.0@, p.1)),
                map@ == pairs_map(pv.take(k as int)),
            decreases resource_to_page@.len() - k,
        {
            let key = resource_to_page[k].0.clone();
            map.insert(key, resource_to_page[k].1);
            k = k + 1;
            proof {
                assert(pv.take(k as int).drop_last() =~= pv.take(k - 1));
            }
        }
        assert(pv.take(k as int) =~= pv);
        let prefix = resource_prefix(base_uri);
        let count = dict.len();
        let mut entries: Vec<u16> = Vec::new();
        let mut i: usize = 0;
        while i < count
            invariant
                count == dict@.len(),
                count <= u32::MAX,
                i <= count,
                prefix@ == base_uri@ + "resource/"@,
                map@ == pairs_map(pv),
                entries@.len() == i,
                forall|q: int| 0 <= q < i ==> #[trigger] entries@[q] == page_entry(dict@[q], prefix@, map@),
            decreases count - i,
        {
            let mut e: u16 = NOT_A_RESOURCE;
            match dict.resolve(i as u32) {
                Some(term) => {
                    match strip_prefix(term, prefix.as_str()) {
                        Some(rid) => {
                            match map.get(rid) {
                                Some(p) => {
                                    if *p < NOT_A_RESOURCE as u32 {
                                        e = *p as u16;
                                    }
                                },
                                None => {},
                            }
                        },
                        None => {},
                    }
                },
                None => {},
            }
            entries.push(e);
            i = i + 1;
        }
        ResourceMap { entries }
    }

    /// Serialize to the binary format.
    pub fn to_bytes(&self) -> (r: Vec<u8>)
        ensures
            r@ == resource_map_bytes(self@),
    {
        proof {
            use_type_invariant(self);
        }
        let mut buf: Vec<u8> = Vec::new();
        buf.push(0x52u8);
        buf.push(0x4du8);
        buf.push(0x52u8);
        buf.push(0x4du8);
        push_u32(&mut buf, self.entries.len() as u32);
        let ghost head = buf@;
        let mut i: usize = 0;
        while i < self.entries.len()
            invariant
                i <= self.entries@.len(),
                buf@ == head + entries_bytes(self.entries@.take(i as int)),
            decreases self.entries@.len() - i,
        {
            push_u16(&mut buf, self.entries[i]);
            i = i + 1;
            proof {
                assert(self.entries@.take(i as int).drop_last() =~= self.entries@.take(i - 1));
            }
        }
        proof {
            assert(self.entries@.take(i as int) =~= self.entries@);
            assert(buf@ =~= resource_map_bytes(self@));
        }
        buf
    }

    /// Deserialize from the binary format.
    pub fn from_bytes(data: &[u8]) -> (r: Result<Self, String>)
        ensures
            r is Ok <==> spec_parse_resource_map(data@) is Some,
            r matches Ok(m) ==> spec_parse_resource_map(data@) == Some(m@),
    {
        if data.len() < 8 {
            return Err("ResourceMap data too short".to_string());
        }
        let magic_ok = data[0] == 0x52u8 && data[1] == 0x4du8 && data[2] == 0x52u8 && data[3]
            == 0x4du8;
        proof {
            if magic_ok {
                assert(data@.subrange(0, 4) =~= resource_map_magic());
            } else if data@.subrange(0, 4) == resource_map_magic() {
                assert(data@[0] == data@.subrange(0, 4)[0]);
                assert(data@[1] == data@.subrange(0, 4)[1]);
                assert(data@[2] == data@.subrange(0, 4)[2]);
                assert(data@[3] == data@.subrange(0, 4)[3]);
            }
        }
        if !magic_ok {
            return Err("Invalid ResourceMap magic".to_string());
        }
        let count = read_u32(data, 4) as usize;
        if (data.len() - 8) / 2 < count {
            return Err("ResourceMap truncated".to_string());
        }
        let mut entries: Vec<u16> = Vec::new();
        let mut i: usize = 0;
        while i < count
            invariant
                i <= count,
                count == get_le32(data@, 4),
                8 + 2 * count <= data@.len(),
                data@.len() == data.len(),
                entries@ =~= Seq::new(i as nat, |q: int| get_le16(data@, 8 + 2 * q)),
            decreases count - i,
        {
            entries.push(read_u16(data, 8 + 2 * i));
            i = i + 1;
        }
        Ok(ResourceMap { entries })
    }

    /// The page of a dictionary entry, or `None` when it is not a resource.
    pub fn page_for(&self, dict_id: u32) -> (r: Option<u32>)
        ensures
            r is Some <==> (dict_id < self@.len() && self@[dict_id as int] != NOT_A_RESOURCE),
            r matches Some(p) ==> p == self@[dict_id as int],
    {
        if (dict_id as usize) < self.entries.len() {
            let p = self.entries[dict_id as usize];
            if p == NOT_A_RESOURCE {
                None
            } else {
                Some(p as u32)
            }
        } else {
            None
        }
    }

    /// Whether a dictionary entry is a resource.
    pub fn is_resource(&self, dict_id: u32) -> (r: bool)
        ensures
            r == (dict_id < self@.len() && self@[dict_id as int] != NOT_A_RESOURCE),
    {
        self.page_for(dict_id).is_some()
    }

    /// Number of entries (the dictionary's size).
    pub fn len(&self) -> (r: usize)
        ensures
            r == self@.len(),
            r <= u32::MAX,
    {
        proof {
            use_type_invariant(self);
        }
        self.entries.len()
    }

    /// Whether the map holds no entry.
    pub fn is_empty(&self) -> (r: bool)
        ensures
            r == (self@.len() == 0),
    {
        self.entries.len() == 0
    }
}

proof fn lemma_entries_bytes(es: Seq<u16>, i: int)
    requires
        0 <= i < es.len(),
    ensures
        entries_bytes(es).len() == 2 * es.len(),
        get_le16(entries_bytes(es), 2 * i) == es[i],
    decreases es.len(),
{
    let t = es.drop_last();
    lemma_entries_bytes_len(t);
    lemma_entries_bytes_len(es);
    if i == es.len() - 1 {
        lemma_get_le16_at(entries_bytes(t), es.last(), Seq::empty());
        assert(entries_bytes(t) + le16(es.last()) + Seq::<u8>::empty() == entries_bytes(es));
    } else {
        lemma_entries_bytes(t, i);
        let s = entries_bytes(es);
        let u = entries_bytes(t);
        assert(s[2 * i] == u[2 * i]);
        assert(s[2 * i + 1] == u[2 * i + 1]);
    }
}

proof fn lemma_entries_bytes_len(es: Seq<u16>)
    ensures
        entries_bytes(es).len() == 2 * es.len(),
    decreases es.len(),
{
    if es.len() > 0 {
        lemma_entries_bytes_len(es.drop_last());
    }
}

/// Reading back a serialized map gives the same entries.
pub proof fn lemma_resource_map_roundtrip(es: Seq<u16>)
    requires
        es.len() <= u32::MAX,
    ensures
        spec_parse_resource_map(resource_map_bytes(es)) == Some(es),
{
    let d = resource_map_bytes(es);
    lemma_entries_bytes_len(es);
    assert(d =~= resource_map_magic() + le32(es.len() as u32) + entries_bytes(es));
    lemma_get_le32_at(resource_map_magic(), es.len() as u32, entries_bytes(es));
    assert(d.subrange(0, 4) =~= resource_map_magic());
    assert forall|i: int| 0 <= i < es.len() implies get_le16(d, 8 + 2 * i) == es[i] by {
        lemma_entries_bytes(es, i);
        let b = entries_bytes(es);
        assert(d[8 + 2 * i] == b[2 * i]);
        assert(d[8 + 2 * i + 1] == b[2 * i + 1]);
    }
    assert(Seq::new(es.len(), |i: int| get_le16(d, 8 + 2 * i)) =~= es);
}

} // verus!
