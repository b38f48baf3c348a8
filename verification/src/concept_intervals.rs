//! DFS interval encoding for concept hierarchies.
//!
//! Each concept of a SKOS collection gets an Euler-tour interval
//! `[dfs_enter, dfs_leave]`; a hierarchical concept query becomes a range
//! scan. Bit 31 separates concept DFS values from page IDs in summary quads.
//!
//! ```text
//! magic "RMCI", version 1, 3 padding bytes, entry_count: u32
//! (dict_id, dfs_enter, dfs_leave) × entry_count   sorted by dict_id
//! (dfs_enter, dict_id) × entry_count              sorted by dfs_enter
//! ```

use vstd::prelude::*;
use vstd::relations::*;
use vstd::std_specs::hash::*;
use std::collections::HashSet;
use crate::codec::{get_le32, le32, lemma_get_le32_at, push_u32, read_u32};
use crate::sort::{leq, merge_sort, SortKey};

verus! {

broadcast use {vstd::seq_lib::group_to_multiset_ensures, vstd::std_specs::hash::group_hash_axioms};

/// Bit flag distinguishing concept DFS values from page IDs in summary quads.
pub const DFS_OFFSET: u32 = 0x8000_0000;

/// A single concept's DFS interval, keyed by its dictionary ID.
#[derive(Debug, Clone, Copy, PartialEq, Eq, Structural)]
pub struct ConceptInterval {
    pub dict_id: u32,
    pub dfs_enter: u32,
    pub dfs_leave: u32,
}

impl SortKey for ConceptInterval {
    open spec fn key_le(x: ConceptInterval, y: ConceptInterval) -> bool {
        x.dict_id < y.dict_id || (x.dict_id == y.dict_id && (x.dfs_enter < y.dfs_enter || (
        x.dfs_enter == y.dfs_enter && x.dfs_leave <= y.dfs_leave)))
    }

    proof fn lemma_total() {
    }

    fn le(x: &ConceptInterval, y: &ConceptInterval) -> (r: bool) {
        x.dict_id < y.dict_id || (x.dict_id == y.dict_id && (x.dfs_enter < y.dfs_enter || (
        x.dfs_enter == y.dfs_enter && x.dfs_leave <= y.dfs_leave)))
    }
}

/// A reverse-index entry: a DFS enter value and its concept's dictionary ID.
#[derive(Debug, Clone, Copy, PartialEq, Eq, Structural)]
pub struct DfsEntry {
    pub dfs_enter: u32,
    pub dict_id: u32,
}

impl SortKey for DfsEntry {
    open spec fn key_le(x: DfsEntry, y: DfsEntry) -> bool {
        x.dfs_enter < y.dfs_enter || (x.dfs_enter == y.dfs_enter && x.dict_id <= y.dict_id)
    }

    proof fn lemma_total() {
    }

    fn le(x: &DfsEntry, y: &DfsEntry) -> (r: bool) {
        x.dfs_enter < y.dfs_enter || (x.dfs_enter == y.dfs_enter && x.dict_id <= y.dict_id)
    }
}

/// Index mapping concept dictionary IDs to DFS intervals and back.
#[derive(Debug, Clone)]
pub struct ConceptIntervalIndex {
    /// Sorted by dict_id for forward lookup.
    by_dict_id: Vec<ConceptInterval>,
    /// Sorted by dfs_enter for reverse lookup.
    by_dfs_enter: Vec<DfsEntry>,
}

/// The first interval of each dictionary ID, in input order.
pub open spec fn first_per_dict_id(s: Seq<ConceptInterval>) -> Seq<ConceptInterval>
    decreases s.len(),
{
    if s.len() == 0 {
        Seq::empty()
    } else if exists|i: int| 0 <= i < s.len() - 1 && s[i].dict_id == s.last().dict_id {
        first_per_dict_id(s.drop_last())
    } else {
        first_per_dict_id(s.drop_last()).push(s.last())
    }
}

/// The reverse-index entry of an interval.
pub open spec fn dfs_entry_of(c: ConceptInterval) -> DfsEntry {
    DfsEntry { dfs_enter: c.dfs_enter, dict_id: c.dict_id }
}

/// The forward index built from a list of intervals: the first interval of
/// each dictionary ID, sorted by dictionary ID.
pub open spec fn spec_forward_index(s: Seq<ConceptInterval>) -> Seq<ConceptInterval> {
    first_per_dict_id(s).sort_by(leq::<ConceptInterval>())
}

/// The reverse index built from a forward index: `(dfs_enter, dict_id)` pairs
/// sorted by `dfs_enter` (and by `dict_id` among equal enter values).
pub open spec fn spec_reverse_index(fwd: Seq<ConceptInterval>) -> Seq<DfsEntry> {
    fwd.map_values(|c: ConceptInterval| dfs_entry_of(c)).sort_by(leq::<DfsEntry>())
}

/// No two intervals share a dictionary ID.
pub open spec fn unique_dict_ids(s: Seq<ConceptInterval>) -> bool {
    forall|i: int, j: int| 0 <= i < s.len() && 0 <= j < s.len() && i != j ==> s[i].dict_id != s[j].dict_id
}

/// The forward index is strictly increasing in dictionary ID.
pub open spec fn strictly_sorted_dict(s: Seq<ConceptInterval>) -> bool {
    forall|i: int, j: int| 0 <= i < j < s.len() ==> s[i].dict_id < s[j].dict_id
}

/// The reverse index is sorted by enter value.
pub open spec fn sorted_enter(s: Seq<DfsEntry>) -> bool {
    forall|i: int, j: int| 0 <= i <= j < s.len() ==> s[i].dfs_enter <= s[j].dfs_enter
}

impl View for ConceptIntervalIndex {
    type V = (Seq<ConceptInterval>, Seq<DfsEntry>);

    closed spec fn view(&self) -> (Seq<ConceptInterval>, Seq<DfsEntry>) {
        (self.by_dict_id@, self.by_dfs_enter@)
    }
}

proof fn lemma_firsts_from_input(s: Seq<ConceptInterval>)
    ensures
        forall|k: int|
            0 <= k < first_per_dict_id(s).len() ==> exists|i: int|
                0 <= i < s.len() && s[i] == #[trigger] first_per_dict_id(s)[k],
    decreases s.len(),
{
    if s.len() > 0 {
        let init = s.drop_last();
        lemma_firsts_from_input(init);
        let f0 = first_per_dict_id(init);
        let f = first_per_dict_id(s);
        assert forall|k: int| 0 <= k < f.len() implies exists|i: int|
            0 <= i < s.len() && s[i] == #[trigger] f[k] by {
            if k < f0.len() {
                assert(f[k] == f0[k]);
                let i = choose|i: int| 0 <= i < init.len() && init[i] == f0[k];
                assert(s[i] == init[i]);
            } else {
                assert(s[s.len() - 1] == f[k]);
            }
        }
    }
}

proof fn lemma_first_per_dict_id(s: Seq<ConceptInterval>)
    ensures
        unique_dict_ids(first_per_dict_id(s)),
    decreases s.len(),
{
    if s.len() > 0 {
        let init = s.drop_last();
        lemma_first_per_dict_id(init);
        lemma_firsts_from_input(init);
        let f0 = first_per_dict_id(init);
        if !(exists|i: int| 0 <= i < s.len() - 1 && s[i].dict_id == s.last().dict_id) {
            let f = f0.push(s.last());
            assert forall|a: int, b: int|
                0 <= a < f.len() && 0 <= b < f.len() && a != b implies f[a].dict_id
                != f[b].dict_id by {
                if a < f0.len() && b < f0.len() {
                } else if a == f0.len() {
                    let i = choose|i: int| 0 <= i < init.len() && init[i] == f0[b];
                    assert(s[i] == init[i]);
                } else {
                    let i = choose|i: int| 0 <= i < init.len() && init[i] == f0[a];
                    assert(s[i] == init[i]);
                }
            }
        }
    }
}

/// Sorting intervals with distinct dictionary IDs makes them strictly increasing.
proof fn lemma_sorted_unique_strict(s: Seq<ConceptInterval>)
    requires
        unique_dict_ids(s),
    ensures
        strictly_sorted_dict(s.sort_by(leq::<ConceptInterval>())),
        unique_dict_ids(s.sort_by(leq::<ConceptInterval>())),
        s.sort_by(leq::<ConceptInterval>()).to_multiset() == s.to_multiset(),
{
    let le = leq::<ConceptInterval>();
    ConceptInterval::lemma_total();
    s.lemma_sort_by_ensures(le);
    let t = s.sort_by(le);
    assert(s.no_duplicates());
    s.lemma_multiset_has_no_duplicates();
    t.lemma_multiset_has_no_duplicates_conv();
    assert forall|i: int, j: int| 0 <= i < t.len() && 0 <= j < t.len() && i != j implies t[i].dict_id
        != t[j].dict_id by {
        assert(t.to_multiset().count(t[i]) > 0);
        assert(t.to_multiset().count(t[j]) > 0);
        assert(s.contains(t[i]));
        assert(s.contains(t[j]));
        let a = choose|a: int| 0 <= a < s.len() && s[a] == t[i];
        let b = choose|b: int| 0 <= b < s.len() && s[b] == t[j];
        if t[i].dict_id == t[j].dict_id {
            assert(a == b);
        }
    }
    assert forall|i: int, j: int| 0 <= i < j < t.len() implies t[i].dict_id < t[j].dict_id by {
        assert(le(t[i], t[j]));
    }
}

/// Forward lookup over a sequence: the interval of `dict_id`, if present.
pub open spec fn spec_lookup(s: Seq<ConceptInterval>, dict_id: u32) -> Option<(u32, u32)> {
    if exists|i: int| 0 <= i < s.len() && s[i].dict_id == dict_id {
        let i = choose|i: int| 0 <= i < s.len() && s[i].dict_id == dict_id;
        Some((s[i].dfs_enter, s[i].dfs_leave))
    } else {
        None
    }
}

impl ConceptIntervalIndex {
    /// Both views are sorted as lookups need (true of every index built by
    /// `from_intervals`).
    pub open spec fn wf(&self) -> bool {
        strictly_sorted_dict(self@.0) && sorted_enter(self@.1)
    }

    /// Build from a pre-computed list of intervals. Only the first interval of
    /// each dictionary ID is kept.
    pub fn from_intervals(intervals: Vec<ConceptInterval>) -> (r: Self)
        ensures
            r@.0 == spec_forward_index(intervals@),
            r@.1 == spec_reverse_index(r@.0),
            r.wf(),
    {
        let mut seen: HashSet<u32> = HashSet::new();
        let mut firsts: Vec<ConceptInterval> = Vec::new();
        let mut i: usize = 0;
        while i < intervals.len()
            invariant
                i <= intervals@.len(),
                firsts@ == first_per_dict_id(intervals@.take(i as int)),
                forall|d: u32|
                    seen@.contains(d) <==> exists|k: int| 0 <= k < i && intervals@[k].dict_id == d,
            decreases intervals@.len() - i,
        {
            let ci = intervals[i];
            let ghost pre = intervals@.take(i as int);
            let ghost cur = intervals@.take(i + 1);
            proof {
                assert(cur.drop_last() =~= pre);
                assert(cur.last() == ci);
            }
            if !seen.contains(&ci.dict_id) {
                proof {
                    assert(!(exists|k: int| 0 <= k < cur.len() - 1 && cur[k].dict_id == cur.last().dict_id)) by {
                        if exists|k: int| 0 <= k < cur.len() - 1 && cur[k].dict_id == cur.last().dict_id {
                            let k = choose|k: int| 0 <= k < cur.len() - 1 && cur[k].dict_id == cur.last().dict_id;
                            assert(intervals@[k] == cur[k]);
                        }
                    }
                }
                seen.insert(ci.dict_id);
                firsts.push(ci);
            } else {
                proof {
                    let k = choose|k: int| 0 <= k < i && intervals@[k].dict_id == ci.dict_id;
                    assert(cur[k] == intervals@[k]);
                }
            }
            i = i + 1;
        }
        assert(intervals@.take(intervals@.len() as int) =~= intervals@);
        proof {
            lemma_first_per_dict_id(intervals@);
            lemma_sorted_unique_strict(firsts@);
        }
        let by_dict_id = merge_sort(&firsts);
        let mut pairs: Vec<DfsEntry> = Vec::new();
        let mut k: usize = 0;
        while k < by_dict_id.len()
            invariant
                k <= by_dict_id@.len(),
                pairs@ == by_dict_id@.take(k as int).map_values(|c: ConceptInterval| dfs_entry_of(c)),
            decreases by_dict_id@.len() - k,
        {
            let c = by_dict_id[k];
            pairs.push(DfsEntry { dfs_enter: c.dfs_enter, dict_id: c.dict_id });
            k = k + 1;
            proof {
                assert(pairs@ =~= by_dict_id@.take(k as int).map_values(|c: ConceptInterval| dfs_entry_of(c)));
            }
        }
        assert(by_dict_id@.take(by_dict_id@.len() as int) =~= by_dict_id@);
        let by_dfs_enter = merge_sort(&pairs);
        proof {
            DfsEntry::lemma_total();
            assert forall|a: int, b: int| 0 <= a <= b < by_dfs_enter@.len() implies by_dfs_enter@[a].dfs_enter
                <= by_dfs_enter@[b].dfs_enter by {
                if a < b {
                    assert(leq::<DfsEntry>()(by_dfs_enter@[a], by_dfs_enter@[b]));
                }
            }
        }
        ConceptIntervalIndex { by_dict_id, by_dfs_enter }
    }

    /// Forward lookup: dict_id → (dfs_enter, dfs_leave).
    pub fn lookup(&self, dict_id: u32) -> (r: Option<(u32, u32)>)
        ensures
            r matches Some(p) ==> exists|i: int|
                0 <= i < self@.0.len() && self@.0[i].dict_id == dict_id && p == (
                    self@.0[i].dfs_enter,
                    self@.0[i].dfs_leave,
                ),
            self.wf() ==> r == spec_lookup(self@.0, dict_id),
    {
        let mut lo: usize = 0;
        let mut hi: usize = self.by_dict_id.len();
        while lo < hi
            invariant
                lo <= hi <= self.by_dict_id@.len(),
                self.wf() ==> forall|i: int| 0 <= i < lo ==> self.by_dict_id@[i].dict_id < dict_id,
                self.wf() ==> forall|i: int|
                    hi <= i < self.by_dict_id@.len() ==> self.by_dict_id@[i].dict_id > dict_id,
            decreases hi - lo,
        {
            let mid = lo + (hi - lo) / 2;
            let c = self.by_dict_id[mid];
            if c.dict_id == dict_id {
                proof {
                    if self.wf() {
                        let s = self.by_dict_id@;
                        let j = choose|j: int| 0 <= j < s.len() && s[j].dict_id == dict_id;
                        if j < mid {
                            assert(s[j].dict_id < s[mid as int].dict_id);
                        } else if j > mid {
                            assert(s[mid as int].dict_id < s[j].dict_id);
                        }
                    }
                }
                return Some((c.dfs_enter, c.dfs_leave));
            } else if c.dict_id < dict_id {
                proof {
                    if self.wf() {
                        assert forall|i: int| 0 <= i < mid + 1 implies self.by_dict_id@[i].dict_id
                            < dict_id by {
                            if i < mid {
                                assert(self.by_dict_id@[i].dict_id
                                    < self.by_dict_id@[mid as int].dict_id);
                            }
                        }
                    }
                }
                lo = mid + 1;
            } else {
                proof {
                    if self.wf() {
                        assert forall|i: int| mid <= i < self.by_dict_id@.len() implies self.by_dict_id@[
                            i].dict_id > dict_id by {
                            if i > mid {
                                assert(self.by_dict_id@[mid as int].dict_id
                                    < self.by_dict_id@[i].dict_id);
                            }
                        }
                    }
                }
                hi = mid;
            }
        }
        None
    }

    /// Reverse lookup: dfs_enter → a dict_id whose interval enters there.
    pub fn reverse_lookup(&self, dfs_enter: u32) -> (r: Option<u32>)
        ensures
            r matches Some(d) ==> exists|i: int|
                0 <= i < self@.1.len() && self@.1[i].dfs_enter == dfs_enter && self@.1[i].dict_id
                    == d,
            r is None && self.wf() ==> forall|i: int|
                0 <= i < self@.1.len() ==> self@.1[i].dfs_enter != dfs_enter,
    {
        let mut lo: usize = 0;
        let mut hi: usize = self.by_dfs_enter.len();
        while lo < hi
            invariant
                lo <= hi <= self.by_dfs_enter@.len(),
                self.wf() ==> forall|i: int|
                    0 <= i < lo ==> self.by_dfs_enter@[i].dfs_enter < dfs_enter,
                self.wf() ==> forall|i: int|
                    hi <= i < self.by_dfs_enter@.len() ==> self.by_dfs_enter@[i].dfs_enter
                        > dfs_enter,
            decreases hi - lo,
        {
            let mid = lo + (hi - lo) / 2;
            let e = self.by_dfs_enter[mid];
            if e.dfs_enter == dfs_enter {
                proof {
                    assert(self@.1[mid as int] == e);
                }
                return Some(e.dict_id);
            } else if e.dfs_enter < dfs_enter {
                proof {
                    if self.wf() {
                        assert forall|i: int| 0 <= i < mid + 1 implies self.by_dfs_enter@[i].dfs_enter
                            < dfs_enter by {
                            assert(self.by_dfs_enter@[i].dfs_enter
                                <= self.by_dfs_enter@[mid as int].dfs_enter);
                        }
                    }
                }
                lo = mid + 1;
            } else {
                proof {
                    if self.wf() {
                        assert forall|i: int| mid <= i < self.by_dfs_enter@.len() implies self.by_dfs_enter@[
                            i].dfs_enter > dfs_enter by {
                            assert(self.by_dfs_enter@[mid as int].dfs_enter
                                <= self.by_dfs_enter@[i].dfs_enter);
                        }
                    }
                }
                hi = mid;
            }
        }
        None
    }

    /// Encode a DFS enter value for use as `page_o` in summary quads.
    pub fn encode_for_summary(dfs_enter: u32) -> (r: u32)
        ensures
            r == (if dfs_enter < 0x8000_0000 { dfs_enter + 0x8000_0000 } else { dfs_enter as int }),
    {
        let r = dfs_enter | DFS_OFFSET;
        assert(dfs_enter < 0x8000_0000u32 ==> dfs_enter | 0x8000_0000u32 == dfs_enter + 0x8000_0000u32)
            by (bit_vector);
        assert(dfs_enter >= 0x8000_0000u32 ==> dfs_enter | 0x8000_0000u32 == dfs_enter) by (bit_vector);
        r
    }

    /// Whether a `page_o` value represents a concept DFS entry.
    pub fn is_concept_page_o(page_o: u32) -> (r: bool)
        ensures
            r == (page_o >= 0x8000_0000),
    {
        assert((page_o & 0x8000_0000u32 != 0) == (page_o >= 0x8000_0000u32)) by (bit_vector);
        page_o & DFS_OFFSET != 0
    }

    /// Decode a concept `page_o` back to its raw DFS enter value.
    pub fn decode_from_summary(page_o: u32) -> (r: u32)
        ensures
            r == page_o % 0x8000_0000,
    {
        assert(page_o & !0x8000_0000u32 == page_o % 0x8000_0000u32) by (bit_vector);
        page_o & !DFS_OFFSET
    }

    /// Number of entries.
    pub fn len(&self) -> (r: usize)
        ensures
            r == self@.0.len(),
    {
        self.by_dict_id.len()
    }

    pub fn is_empty(&self) -> (r: bool)
        ensures
            r == (self@.0.len() == 0),
    {
        self.by_dict_id.len() == 0
    }

    /// The intervals, in ascending dictionary ID order.
    pub fn intervals(&self) -> (r: &[ConceptInterval])
        ensures
            r@ == self@.0,
    {
        self.by_dict_id.as_slice()
    }

    /// The `(dfs_enter, dict_id)` entries, in ascending DFS entry order.
    pub fn dfs_entries(&self) -> (r: &[DfsEntry])
        ensures
            r@ == self@.1,
    {
        self.by_dfs_enter.as_slice()
    }
}

/// Decoding an encoded DFS value gives it back, and the encoding is marked
/// as a concept value.
pub proof fn lemma_summary_encoding_roundtrip(dfs_enter: u32)
    requires
        dfs_enter < 0x8000_0000,
    ensures
        ({
            let e = (dfs_enter + 0x8000_0000) as u32;
            &&& e >= 0x8000_0000
            &&& e % 0x8000_0000 == dfs_enter
        }),
{
}

// ---------------------------------------------------------------------------
// Binary format
// ---------------------------------------------------------------------------

/// The magic "RMCI".
pub open spec fn intervals_magic() -> Seq<u8> {
    seq![0x52u8, 0x4du8, 0x43u8, 0x49u8]
}

pub open spec fn interval_bytes(c: ConceptInterval) -> Seq<u8> {
    le32(c.dict_id) + le32(c.dfs_enter) + le32(c.dfs_leave)
}

pub open spec fn dfs_entry_bytes(e: DfsEntry) -> Seq<u8> {
    le32(e.dfs_enter) + le32(e.dict_id)
}

pub open spec fn intervals_bytes(s: Seq<ConceptInterval>) -> Seq<u8>
    decreases s.len(),
{
    if s.len() == 0 {
        Seq::empty()
    } else {
        intervals_bytes(s.drop_last()) + interval_bytes(s.last())
    }
}

pub open spec fn dfs_entries_bytes(s: Seq<DfsEntry>) -> Seq<u8>
    decreases s.len(),
{
    if s.len() == 0 {
        Seq::empty()
    } else {
        dfs_entries_bytes(s.drop_last()) + dfs_entry_bytes(s.last())
    }
}

/// The serialized index.
pub open spec fn spec_intervals_file(fwd: Seq<ConceptInterval>, rev: Seq<DfsEntry>) -> Seq<u8> {
    intervals_magic() + seq![1u8, 0u8, 0u8, 0u8] + le32(fwd.len() as u32) + intervals_bytes(fwd)
        + dfs_entries_bytes(rev)
}

pub open spec fn interval_at(data: Seq<u8>, pos: int) -> ConceptInterval {
    ConceptInterval {
        dict_id: get_le32(data, pos),
        dfs_enter: get_le32(data, pos + 4),
        dfs_leave: get_le32(data, pos + 8),
    }
}

pub open spec fn dfs_entry_at(data: Seq<u8>, pos: int) -> DfsEntry {
    DfsEntry { dfs_enter: get_le32(data, pos), dict_id: get_le32(data, pos + 4) }
}

/// The index a byte string holds, when well formed.
pub open spec fn spec_parse_intervals(data: Seq<u8>) -> Option<(Seq<ConceptInterval>, Seq<DfsEntry>)> {
    if data.len() < 12 || data.subrange(0, 4) != intervals_magic() || data[4] != 1 {
        None
    } else {
        let n = get_le32(data, 8) as int;
        if data.len() < 12 + 20 * n {
            None
        } else {
            Some(
                (
                    Seq::new(n as nat, |i: int| interval_at(data, 12 + 12 * i)),
                    Seq::new(n as nat, |i: int| dfs_entry_at(data, 12 + 12 * n + 8 * i)),
                ),
            )
        }
    }
}

impl ConceptIntervalIndex {
    /// Serialize to binary format.
    pub fn to_bytes(&self) -> (r: Vec<u8>)
        requires
            self@.1.len() == self@.0.len(),
        ensures
            r@ == spec_intervals_file(self@.0, self@.1),
    {
        let mut buf: Vec<u8> = Vec::new();
        buf.push(0x52u8);
        buf.push(0x4du8);
        buf.push(0x43u8);
        buf.push(0x49u8);
        buf.push(1u8);
        buf.push(0u8);
        buf.push(0u8);
        buf.push(0u8);
        push_u32(&mut buf, self.by_dict_id.len() as u32);
        let ghost head = buf@;
        let mut i: usize = 0;
        while i < self.by_dict_id.len()
            invariant
                i <= self@.0.len(),
                buf@ == head + intervals_bytes(self@.0.take(i as int)),
            decreases self@.0.len() - i,
        {
            let c = self.by_dict_id[i];
            push_u32(&mut buf, c.dict_id);
            push_u32(&mut buf, c.dfs_enter);
            push_u32(&mut buf, c.dfs_leave);
            i = i + 1;
            proof {
                assert(self@.0.take(i as int).drop_last() =~= self@.0.take(i - 1));
                assert(buf@ =~= head + intervals_bytes(self@.0.take(i as int)));
            }
        }
        assert(self@.0.take(self@.0.len() as int) =~= self@.0);
        let ghost head2 = buf@;
        let mut j: usize = 0;
        while j < self.by_dfs_enter.len()
            invariant
                j <= self@.1.len(),
                buf@ == head2 + dfs_entries_bytes(self@.1.take(j as int)),
            decreases self@.1.len() - j,
        {
            let e = self.by_dfs_enter[j];
            push_u32(&mut buf, e.dfs_enter);
            push_u32(&mut buf, e.dict_id);
            j = j + 1;
            proof {
                assert(self@.1.take(j as int).drop_last() =~= self@.1.take(j - 1));
                assert(buf@ =~= head2 + dfs_entries_bytes(self@.1.take(j as int)));
            }
        }
        assert(self@.1.take(self@.1.len() as int) =~= self@.1);
        buf
    }

    /// Deserialize from binary format.
    pub fn from_bytes(data: &[u8]) -> (r: Result<Self, String>)
        requires
            data@.len() >= 12 ==> 12 + 20 * get_le32(data@, 8) <= usize::MAX,
        ensures
            r matches Ok(idx) ==> spec_parse_intervals(data@) == Some(idx@),
            r is Err ==> spec_parse_intervals(data@) is None,
    {
        if data.len() < 12 {
            return Err("Concept interval data too short".to_string());
        }
        let magic_ok = data[0] == 0x52u8 && data[1] == 0x4du8 && data[2] == 0x43u8 && data[3]
            == 0x49u8;
        proof {
            if magic_ok {
                assert(data@.subrange(0, 4) =~= intervals_magic());
            } else if data@.subrange(0, 4) == intervals_magic() {
                assert(data@[0] == data@.subrange(0, 4)[0]);
                assert(data@[1] == data@.subrange(0, 4)[1]);
                assert(data@[2] == data@.subrange(0, 4)[2]);
                assert(data@[3] == data@.subrange(0, 4)[3]);
            }
        }
        if !magic_ok {
            return Err("Invalid concept interval magic".to_string());
        }
        if data[4] != 1 {
            return Err("Unsupported concept interval version".to_string());
        }
        let n = read_u32(data, 8) as usize;
        if data.len() < 12 + 20 * n {
            return Err("Concept interval data truncated".to_string());
        }
        assert(data@.len() == data.len());
        let mut by_dict_id: Vec<ConceptInterval> = Vec::new();
        let mut i: usize = 0;
        while i < n
            invariant
                i <= n,
                n == get_le32(data@, 8),
                data@.len() >= 12 + 20 * n,
                data@.len() == data.len(),
                by_dict_id@ =~= Seq::new(i as nat, |q: int| interval_at(data@, 12 + 12 * q)),
            decreases n - i,
        {
            let base = 12 + 12 * i;
            let dict_id = read_u32(data, base);
            let dfs_enter = read_u32(data, base + 4);
            let dfs_leave = read_u32(data, base + 8);
            by_dict_id.push(ConceptInterval { dict_id, dfs_enter, dfs_leave });
            i = i + 1;
        }
        let rev_start = 12 + 12 * n;
        let mut by_dfs_enter: Vec<DfsEntry> = Vec::new();
        let mut j: usize = 0;
        while j < n
            invariant
                j <= n,
                n == get_le32(data@, 8),
                rev_start == 12 + 12 * n,
                data@.len() >= 12 + 20 * n,
                data@.len() == data.len(),
                by_dfs_enter@ =~= Seq::new(
                    j as nat,
                    |q: int| dfs_entry_at(data@, 12 + 12 * n + 8 * q),
                ),
            decreases n - j,
        {
            let base = rev_start + 8 * j;
            let dfs_enter = read_u32(data, base);
            let dict_id = read_u32(data, base + 4);
            by_dfs_enter.push(DfsEntry { dfs_enter, dict_id });
            j = j + 1;
        }
        Ok(ConceptIntervalIndex { by_dict_id, by_dfs_enter })
    }
}

proof fn lemma_intervals_bytes_len(s: Seq<ConceptInterval>)
    ensures
        intervals_bytes(s).len() == 12 * s.len(),
    decreases s.len(),
{
    if s.len() > 0 {
        lemma_intervals_bytes_len(s.drop_last());
    }
}

proof fn lemma_dfs_entries_bytes_len(s: Seq<DfsEntry>)
    ensures
        dfs_entries_bytes(s).len() == 8 * s.len(),
    decreases s.len(),
{
    if s.len() > 0 {
        lemma_dfs_entries_bytes_len(s.drop_last());
    }
}

proof fn lemma_intervals_bytes_index(s: Seq<ConceptInterval>, i: int)
    requires
        0 <= i < s.len(),
    ensures
        interval_at(intervals_bytes(s), 12 * i) == s[i],
    decreases s.len(),
{
    let init = s.drop_last();
    lemma_intervals_bytes_len(init);
    let t = intervals_bytes(init);
    let b = intervals_bytes(s);
    if i == s.len() - 1 {
        let c = s.last();
        assert(b == t + le32(c.dict_id) + (le32(c.dfs_enter) + le32(c.dfs_leave)));
        lemma_get_le32_at(t, c.dict_id, le32(c.dfs_enter) + le32(c.dfs_leave));
        assert(b == (t + le32(c.dict_id)) + le32(c.dfs_enter) + le32(c.dfs_leave));
        lemma_get_le32_at(t + le32(c.dict_id), c.dfs_enter, le32(c.dfs_leave));
        assert(b == (t + le32(c.dict_id) + le32(c.dfs_enter)) + le32(c.dfs_leave) + Seq::<
            u8,
        >::empty());
        lemma_get_le32_at(t + le32(c.dict_id) + le32(c.dfs_enter), c.dfs_leave, Seq::empty());
    } else {
        lemma_intervals_bytes_index(init, i);
        assert(Seq::<u8>::empty() + t + interval_bytes(s.last()) == b);
        crate::codec::lemma_get_le32_shift(Seq::empty(), t, interval_bytes(s.last()), 12 * i);
        crate::codec::lemma_get_le32_shift(Seq::empty(), t, interval_bytes(s.last()), 12 * i + 4);
        crate::codec::lemma_get_le32_shift(Seq::empty(), t, interval_bytes(s.last()), 12 * i + 8);
    }
}

proof fn lemma_dfs_entries_bytes_index(s: Seq<DfsEntry>, i: int)
    requires
        0 <= i < s.len(),
    ensures
        dfs_entry_at(dfs_entries_bytes(s), 8 * i) == s[i],
    decreases s.len(),
{
    let init = s.drop_last();
    lemma_dfs_entries_bytes_len(init);
    let t = dfs_entries_bytes(init);
    let b = dfs_entries_bytes(s);
    if i == s.len() - 1 {
        let e = s.last();
        assert(b == t + le32(e.dfs_enter) + le32(e.dict_id));
        lemma_get_le32_at(t, e.dfs_enter, le32(e.dict_id));
        assert(b == (t + le32(e.dfs_enter)) + le32(e.dict_id) + Seq::<u8>::empty());
        lemma_get_le32_at(t + le32(e.dfs_enter), e.dict_id, Seq::empty());
    } else {
        lemma_dfs_entries_bytes_index(init, i);
        assert(Seq::<u8>::empty() + t + dfs_entry_bytes(s.last()) == b);
        crate::codec::lemma_get_le32_shift(Seq::empty(), t, dfs_entry_bytes(s.last()), 8 * i);
        crate::codec::lemma_get_le32_shift(Seq::empty(), t, dfs_entry_bytes(s.last()), 8 * i + 4);
    }
}

/// Deserializing a serialized index gives back the same two views.
pub proof fn lemma_intervals_roundtrip(fwd: Seq<ConceptInterval>, rev: Seq<DfsEntry>)
    requires
        fwd.len() == rev.len(),
        fwd.len() <= u32::MAX,
    ensures
        spec_parse_intervals(spec_intervals_file(fwd, rev)) == Some((fwd, rev)),
{
    let n = fwd.len() as int;
    let h1 = intervals_magic() + seq![1u8, 0u8, 0u8, 0u8];
    let h = h1 + le32(n as u32);
    let fb = intervals_bytes(fwd);
    let rb = dfs_entries_bytes(rev);
    let f = spec_intervals_file(fwd, rev);
    assert(f == h + fb + rb);
    lemma_intervals_bytes_len(fwd);
    lemma_dfs_entries_bytes_len(rev);
    crate::codec::lemma_le32_roundtrip(n as u32);
    assert(f == h1 + le32(n as u32) + (fb + rb));
    lemma_get_le32_at(h1, n as u32, fb + rb);
    assert(f.subrange(0, 4) =~= intervals_magic());
    assert(f[4] == 1u8);
    let pf = Seq::new(n as nat, |i: int| interval_at(f, 12 + 12 * i));
    assert forall|i: int| 0 <= i < n implies pf[i] == fwd[i] by {
        lemma_intervals_bytes_index(fwd, i);
        crate::codec::lemma_get_le32_shift(h, fb, rb, 12 * i);
        crate::codec::lemma_get_le32_shift(h, fb, rb, 12 * i + 4);
        crate::codec::lemma_get_le32_shift(h, fb, rb, 12 * i + 8);
    }
    assert(pf =~= fwd);
    let pr = Seq::new(n as nat, |i: int| dfs_entry_at(f, 12 + 12 * n + 8 * i));
    assert forall|i: int| 0 <= i < n implies pr[i] == rev[i] by {
        lemma_dfs_entries_bytes_index(rev, i);
        assert(f == (h + fb) + rb + Seq::<u8>::empty());
        crate::codec::lemma_get_le32_shift(h + fb, rb, Seq::empty(), 8 * i);
        crate::codec::lemma_get_le32_shift(h + fb, rb, Seq::empty(), 8 * i + 4);
    }
    assert(pr =~= rev);
}

} // verus!
