//! Binary concept tree for browsing and label resolution.
//!
//! ```text
//! Header (20 bytes):
//!   magic: "RMCT", version: u8 = 1, 3 bytes padding,
//!   collection_count: u32, entry_count: u32, strings_offset: u32
//! Collection table (44 bytes each):
//!   collection_id: [u8; 36] (zero padded), first_entry: u32, entry_count: u32
//! Entries (52 bytes each, grouped by collection, sorted by (depth, dfs_enter)):
//!   dfs_enter: u32, dfs_leave: u32, depth: u16, label_len: u16,
//!   value_id: [u8; 36] (zero padded), label_offset: u32
//! String table: the labels' UTF-8 bytes, concatenated
//! ```
//!
//! One entry per (concept, language) pair: entries sharing a `dfs_enter` are
//! the same concept in different languages.

use vstd::prelude::*;
use vstd::utf8::*;
use vstd::string::*;
use std::collections::HashSet;
use crate::text::{decode_string, decoded, str_eq};
use crate::codec::{get_le16, get_le32, le16, le32, push_bytes, push_u16, push_u32, read_u16, read_u32};
pub use crate::concept_build::build_concept_indexes;

verus! {

broadcast use vstd::std_specs::hash::group_hash_axioms;

/// A single concept entry (one per language per concept).
#[derive(Debug, Clone)]
pub struct ConceptEntry {
    pub dfs_enter: u32,
    pub dfs_leave: u32,
    pub depth: u16,
    /// 36-char UUID.
    pub value_id: String,
    pub label: String,
}

/// A collection header: its entries are `first_entry..first_entry + entry_count`.
#[derive(Debug, Clone)]
pub struct CollectionHeader {
    /// 36-char UUID.
    pub collection_id: String,
    pub first_entry: u32,
    pub entry_count: u32,
}

/// Information about a concept, returned by the browsing functions.
#[derive(Debug, Clone)]
pub struct ConceptInfo {
    pub value_id: String,
    pub label: String,
    pub has_children: bool,
}

/// A collection header as plain values: (id, first entry, entry count).
pub type CollView = (Seq<char>, u32, u32);

/// An entry as plain values: (dfs_enter, dfs_leave, depth, value_id, label).
pub type EntryView = (u32, u32, u16, Seq<char>, Seq<char>);

pub open spec fn coll_view(c: CollectionHeader) -> CollView {
    (c.collection_id@, c.first_entry, c.entry_count)
}

pub open spec fn entry_view(e: ConceptEntry) -> EntryView {
    (e.dfs_enter, e.dfs_leave, e.depth, e.value_id@, e.label@)
}

/// A concept info as plain values: (value_id, label, has_children).
pub open spec fn info_view(i: ConceptInfo) -> (Seq<char>, Seq<char>, bool) {
    (i.value_id@, i.label@, i.has_children)
}

/// The Unicode lowercase mapping of a string.
pub uninterp spec fn lowercase(s: Seq<char>) -> Seq<char>;

/// Lowercase a string.
///
/// Calls `str::to_lowercase`; its result is the Unicode lowercase mapping of
/// the argument, which depends on the argument alone and is named
/// `lowercase` here.
#[verifier::external_body]
fn to_lower(s: &str) -> (r: String)
    ensures
        r@ == lowercase(s@),
{
    s.to_lowercase()
}

/// Every collection's entry range lies inside the entries.
pub open spec fn ranges_ok(cs: Seq<CollView>, n: int) -> bool {
    forall|k: int| 0 <= k < cs.len() ==> #[trigger] cs[k].1 + cs[k].2 <= n
}

/// Entry `i` belongs to collection `k`.
pub open spec fn in_coll(cs: Seq<CollView>, k: int, i: int) -> bool {
    0 <= k < cs.len() && cs[k].1 <= i < cs[k].1 + cs[k].2
}

/// (k1, i1) comes before (k2, i2): collections in table order, then entries.
pub open spec fn flat_before(k1: int, i1: int, k2: int, i2: int) -> bool {
    k1 < k2 || (k1 == k2 && i1 < i2)
}

/// Entry `i` of collection `k` answers a label lookup.
pub open spec fn label_hit(
    cs: Seq<CollView>,
    es: Seq<EntryView>,
    c: Seq<char>,
    l: Seq<char>,
    k: int,
    i: int,
) -> bool {
    &&& in_coll(cs, k, i)
    &&& cs[k].0 == c
    &&& es[i].4.len() > 0
    &&& es[i].3.len() > 0
    &&& lowercase(es[i].4) == lowercase(l)
}

/// Entry `i` of collection `k` carries value id `v`.
pub open spec fn value_hit(cs: Seq<CollView>, es: Seq<EntryView>, v: Seq<char>, k: int, i: int) -> bool {
    &&& in_coll(cs, k, i)
    &&& v.len() > 0
    &&& es[i].3 == v
}

/// Entry `i` is the first, in collection order, that carries value id `v`.
pub open spec fn first_value_hit(cs: Seq<CollView>, es: Seq<EntryView>, v: Seq<char>, i: int) -> bool {
    exists|k: int|
        #[trigger] value_hit(cs, es, v, k, i) && forall|k2: int, i2: int|
            value_hit(cs, es, v, k2, i2) ==> !flat_before(k2, i2, k, i)
}

/// The last collection with a given id.
pub open spec fn last_coll(cs: Seq<CollView>, c: Seq<char>, k: int) -> bool {
    0 <= k < cs.len() && cs[k].0 == c && forall|k2: int| k < k2 < cs.len() ==> cs[k2].0 != c
}

/// Entries deduplicated by `dfs_enter`, keeping the first of each.
pub open spec fn dedup_by_enter(s: Seq<EntryView>) -> Seq<EntryView>
    decreases s.len(),
{
    if s.len() == 0 {
        Seq::empty()
    } else {
        let d = dedup_by_enter(s.drop_last());
        if exists|j: int| 0 <= j < s.len() - 1 && s[j].0 == s.last().0 {
            d
        } else {
            d.push(s.last())
        }
    }
}

/// The browsing result for entries: value id, label, and whether the concept
/// has children (its DFS interval is wider than itself).
pub open spec fn infos_of(s: Seq<EntryView>) -> Seq<(Seq<char>, Seq<char>, bool)> {
    dedup_by_enter(s).map_values(|e: EntryView| (e.3, e.4, e.0 != e.1))
}

/// Binary concept tree supporting label resolution and hierarchy browsing.
pub struct ConceptTree {
    collections: Vec<CollectionHeader>,
    entries: Vec<ConceptEntry>,
    lower_labels: Vec<String>,
}

impl View for ConceptTree {
    type V = (Seq<CollView>, Seq<EntryView>);

    closed spec fn view(&self) -> (Seq<CollView>, Seq<EntryView>) {
        (self.collections@.map_values(|c: CollectionHeader| coll_view(c)), self.entries@.map_values(|e: ConceptEntry| entry_view(e)))
    }
}

impl ConceptTree {
    #[verifier::type_invariant]
    closed spec fn tree_ok(self) -> bool {
        &&& ranges_ok(self@.0, self@.1.len() as int)
        &&& self.lower_labels@.len() == self.entries@.len()
        &&& forall|i: int|
            0 <= i < self.entries@.len() ==> #[trigger] self.lower_labels@[i]@ == lowercase(
                self.entries@[i].label@,
            )
    }

    /// Build a tree from its collection headers and entries.
    pub fn from_parts(collections: Vec<CollectionHeader>, entries: Vec<ConceptEntry>) -> (r: Self)
        requires
            ranges_ok(
                collections@.map_values(|c: CollectionHeader| coll_view(c)),
                entries@.len() as int,
            ),
        ensures
            r@ == (
                collections@.map_values(|c: CollectionHeader| coll_view(c)),
                entries@.map_values(|e: ConceptEntry| entry_view(e)),
            ),
    {
        let mut lower_labels: Vec<String> = Vec::new();
        let mut i: usize = 0;
        while i < entries.len()
            invariant
                i <= entries@.len(),
                lower_labels@.len() == i,
                forall|q: int| 0 <= q < i ==> #[trigger] lower_labels@[q]@ == lowercase(entries@[q].label@),
            decreases entries@.len() - i,
        {
            lower_labels.push(to_lower(entries[i].label.as_str()));
            i = i + 1;
        }
        ConceptTree { collections, entries, lower_labels }
    }

    /// The collection headers.
    pub fn collections(&self) -> (r: &[CollectionHeader])
        ensures
            r@.map_values(|c: CollectionHeader| coll_view(c)) == self@.0,
    {
        self.collections.as_slice()
    }

    /// The entries.
    pub fn entries(&self) -> (r: &[ConceptEntry])
        ensures
            r@.map_values(|e: ConceptEntry| entry_view(e)) == self@.1,
    {
        self.entries.as_slice()
    }

    /// The index of the last collection with an id.
    fn find_collection(&self, collection_id: &str) -> (r: Option<usize>)
        ensures
            r matches Some(k) ==> last_coll(self@.0, collection_id@, k as int),
            r is None ==> forall|k: int| 0 <= k < self@.0.len() ==> self@.0[k].0 != collection_id@,
    {
        let mut k = self.collections.len();
        while k > 0
            invariant
                k <= self@.0.len(),
                self@.0.len() == self.collections@.len(),
                self@.0 == self.collections@.map_values(|c: CollectionHeader| coll_view(c)),
                forall|k2: int| k <= k2 < self@.0.len() ==> self@.0[k2].0 != collection_id@,
            decreases k,
        {
            if str_eq(self.collections[k - 1].collection_id.as_str(), collection_id) {
                return Some(k - 1);
            }
            k = k - 1;
        }
        None
    }

    /// The value id of the first entry, in collection order, whose collection
    /// has the given id and whose label equals the given one ignoring case.
    pub fn lookup_label(&self, collection_id: &str, label: &str) -> (r: Option<&str>)
        ensures
            r is None <==> !exists|k: int, i: int| label_hit(self@.0, self@.1, collection_id@, label@, k, i),
            r matches Some(v) ==> exists|k: int, i: int|
                label_hit(self@.0, self@.1, collection_id@, label@, k, i) && v@ == self@.1[i].3
                    && forall|k2: int, i2: int|
                    label_hit(self@.0, self@.1, collection_id@, label@, k2, i2) ==> !flat_before(k2, i2, k, i),
    {
        proof {
            use_type_invariant(self);
        }
        let ghost cs = self@.0;
        let ghost es = self@.1;
        let lq = to_lower(label);
        let mut k: usize = 0;
        while k < self.collections.len()
            invariant
                cs == self@.0,
                es == self@.1,
                self.tree_ok(),
                lq@ == lowercase(label@),
                k <= cs.len(),
                forall|k2: int, i2: int| k2 < k ==> !label_hit(cs, es, collection_id@, label@, k2, i2),
            decreases cs.len() - k,
        {
            let coll = &self.collections[k];
            let n_entries = self.entries.len();
            proof {
                assert(cs[k as int] == coll_view(self.collections@[k as int]));
                assert(cs[k as int].1 + cs[k as int].2 <= es.len());
                assert(es.len() == n_entries);
            }
            if str_eq(coll.collection_id.as_str(), collection_id) {
                let start = coll.first_entry as usize;
                let end = start + coll.entry_count as usize;
                let mut i = start;
                while i < end
                    invariant
                        cs == self@.0,
                        es == self@.1,
                        self.tree_ok(),
                        lq@ == lowercase(label@),
                        k < cs.len(),
                        cs[k as int].0 == collection_id@,
                        start == cs[k as int].1,
                        end == cs[k as int].1 + cs[k as int].2,
                        end <= es.len(),
                        start <= i <= end,
                        forall|k2: int, i2: int| k2 < k ==> !label_hit(cs, es, collection_id@, label@, k2, i2),
                        forall|i2: int| i2 < i ==> !label_hit(cs, es, collection_id@, label@, k as int, i2),
                    decreases end - i,
                {
                    let e = &self.entries[i];
                    if !e.label.as_str().is_empty() && !e.value_id.as_str().is_empty() && str_eq(
                        self.lower_labels[i].as_str(),
                        lq.as_str(),
                    ) {
                        proof {
                            assert(label_hit(cs, es, collection_id@, label@, k as int, i as int));
                        }
                        return Some(e.value_id.as_str());
                    }
                    i = i + 1;
                }
            }
            k = k + 1;
        }
        None
    }

    /// The index of the first entry, in collection order, with a value id.
    fn find_value(&self, value_id: &str) -> (r: Option<usize>)
        ensures
            r is None <==> !exists|k: int, i: int| value_hit(self@.0, self@.1, value_id@, k, i),
            r matches Some(i) ==> first_value_hit(self@.0, self@.1, value_id@, i as int),
    {
        proof {
            use_type_invariant(self);
        }
        let ghost cs = self@.0;
        let ghost es = self@.1;
        if value_id.is_empty() {
            return None;
        }
        let mut k: usize = 0;
        while k < self.collections.len()
            invariant
                cs == self@.0,
                es == self@.1,
                self.tree_ok(),
                value_id@.len() > 0,
                k <= cs.len(),
                forall|k2: int, i2: int| k2 < k ==> !value_hit(cs, es, value_id@, k2, i2),
            decreases cs.len() - k,
        {
            let coll = &self.collections[k];
            let n_entries = self.entries.len();
            proof {
                assert(cs[k as int] == coll_view(self.collections@[k as int]));
                assert(cs[k as int].1 + cs[k as int].2 <= es.len());
                assert(es.len() == n_entries);
            }
            let start = coll.first_entry as usize;
            let end = start + coll.entry_count as usize;
            let mut i = start;
            while i < end
                invariant
                    cs == self@.0,
                    es == self@.1,
                    value_id@.len() > 0,
                    k < cs.len(),
                    start == cs[k as int].1,
                    end == cs[k as int].1 + cs[k as int].2,
                    end <= es.len(),
                    start <= i <= end,
                    forall|k2: int, i2: int| k2 < k ==> !value_hit(cs, es, value_id@, k2, i2),
                    forall|i2: int| i2 < i ==> !value_hit(cs, es, value_id@, k as int, i2),
                decreases end - i,
            {
                if str_eq(self.entries[i].value_id.as_str(), value_id) {
                    proof {
                        assert(value_hit(cs, es, value_id@, k as int, i as int));
                        assert(forall|k2: int, i2: int|
                            value_hit(cs, es, value_id@, k2, i2) ==> !flat_before(k2, i2, k as int, i as int));
                        let kk = k as int;
                        assert(value_hit(self@.0, self@.1, value_id@, kk, i as int) && forall|k2: int, i2: int|
                            value_hit(self@.0, self@.1, value_id@, k2, i2) ==> !flat_before(k2, i2, kk, i as int));
                        assert(first_value_hit(self@.0, self@.1, value_id@, i as int));
                    }
                    return Some(i);
                }
                i = i + 1;
            }
            k = k + 1;
        }
        None
    }

    /// Deduplicate selected entries by `dfs_enter`, keeping the first.
    fn dedup_entries(&self, idx: &Vec<usize>) -> (r: Vec<ConceptInfo>)
        requires
            forall|q: int| 0 <= q < idx@.len() ==> (#[trigger] idx@[q] as int) < self@.1.len(),
        ensures
            r@.map_values(|c: ConceptInfo| info_view(c)) == infos_of(
                idx@.map_values(|q: usize| self@.1[q as int]),
            ),
    {
        let ghost s = idx@.map_values(|q: usize| self@.1[q as int]);
        let mut seen: HashSet<u32> = HashSet::new();
        let mut out: Vec<ConceptInfo> = Vec::new();
        let mut j: usize = 0;
        while j < idx.len()
            invariant
                s == idx@.map_values(|q: usize| self@.1[q as int]),
                forall|q: int| 0 <= q < idx@.len() ==> (#[trigger] idx@[q] as int) < self@.1.len(),
                j <= idx@.len(),
                out@.map_values(|c: ConceptInfo| info_view(c)) == infos_of(s.take(j as int)),
                forall|x: u32| seen@.contains(x) <==> exists|q: int| 0 <= q < j && s[q].0 == x,
            decreases idx@.len() - j,
        {
            let e = &self.entries[idx[j]];
            let ghost pre = s.take(j as int);
            let ghost cur = s.take(j + 1);
            proof {
                assert(cur.drop_last() =~= pre);
                assert(cur.last() == s[j as int]);
                assert(s[j as int] == entry_view(*e));
            }
            if !seen.contains(&e.dfs_enter) {
                proof {
                    assert(!(exists|q: int| 0 <= q < cur.len() - 1 && cur[q].0 == cur.last().0)) by {
                        if exists|q: int| 0 <= q < cur.len() - 1 && cur[q].0 == cur.last().0 {
                            let q = choose|q: int| 0 <= q < cur.len() - 1 && cur[q].0 == cur.last().0;
                            assert(s[q] == cur[q]);
                        }
                    }
                }
                seen.insert(e.dfs_enter);
                let ghost before = out@.map_values(|c: ConceptInfo| info_view(c));
                out.push(ConceptInfo {
                    value_id: e.value_id.clone(),
                    label: e.label.clone(),
                    has_children: e.dfs_enter != e.dfs_leave,
                });
                proof {
                    assert(out@.map_values(|c: ConceptInfo| info_view(c)) =~= before.push(
                        (s[j as int].3, s[j as int].4, s[j as int].0 != s[j as int].1),
                    ));
                    assert(dedup_by_enter(cur) == dedup_by_enter(pre).push(cur.last()));
                    assert(infos_of(cur) =~= infos_of(pre).push(
                        (s[j as int].3, s[j as int].4, s[j as int].0 != s[j as int].1),
                    ));
                }
            } else {
                proof {
                    let q = choose|q: int| 0 <= q < j && s[q].0 == e.dfs_enter;
                    assert(cur[q] == s[q]);
                    assert(dedup_by_enter(cur) == dedup_by_enter(pre));
                }
            }
            j = j + 1;
        }
        assert(s.take(idx@.len() as int) =~= s);
        out
    }

    /// Top-level concepts (depth 0) of the last collection with an id, one
    /// per concept (the first language's entry).
    pub fn list_top_level(&self, collection_id: &str) -> (r: Vec<ConceptInfo>)
        ensures
            (forall|k: int| 0 <= k < self@.0.len() ==> self@.0[k].0 != collection_id@) ==> r@.len()
                == 0,
            forall|k: int|
                last_coll(self@.0, collection_id@, k) ==> r@.map_values(|c: ConceptInfo| info_view(c))
                    == infos_of(
                    self@.1.subrange(self@.0[k].1 as int, self@.0[k].1 + self@.0[k].2).filter(
                        |e: EntryView| e.2 == 0,
                    ),
                ),
    {
        proof {
            use_type_invariant(self);
        }
        let k = match self.find_collection(collection_id) {
            Some(k) => k,
            None => {
                return Vec::new();
            },
        };
        let ghost es = self@.1;
        let n_entries = self.entries.len();
        proof {
            assert(self@.0[k as int] == coll_view(self.collections@[k as int]));
            assert(self@.0[k as int].1 + self@.0[k as int].2 <= es.len());
            assert(es.len() == n_entries);
        }
        let start = self.collections[k].first_entry as usize;
        let end = start + self.collections[k].entry_count as usize;
        let mut idx: Vec<usize> = Vec::new();
        let mut i = start;
        while i < end
            invariant
                es == self@.1,
                start <= i <= end <= es.len(),
                forall|q: int| 0 <= q < idx@.len() ==> (#[trigger] idx@[q] as int) < es.len(),
                idx@.map_values(|q: usize| es[q as int]) == es.subrange(start as int, i as int).filter(
                    |e: EntryView| e.2 == 0,
                ),
            decreases end - i,
        {
            let ghost before = idx@.map_values(|q: usize| es[q as int]);
            proof {
                reveal(Seq::filter);
                assert(es.subrange(start as int, i + 1).drop_last() =~= es.subrange(start as int, i as int));
                assert(self.entries@[i as int].depth == es[i as int].2);
            }
            if self.entries[i].depth == 0 {
                idx.push(i);
                proof {
                    assert(idx@.map_values(|q: usize| es[q as int]) =~= before.push(es[i as int]));
                }
            } else {
                proof {
                    assert(idx@.map_values(|q: usize| es[q as int]) =~= before);
                }
            }
            i = i + 1;
        }
        let r = self.dedup_entries(&idx);
        proof {
            assert forall|k2: int| last_coll(self@.0, collection_id@, k2) implies k2 == k by {
                if k2 < k {
                } else if k2 > k {
                }
            }
        }
        r
    }

    #[verifier::rlimit(30)]
    /// Children of a concept (found by value id, first in collection order)
    /// within the last collection with an id: entries of the collection one
    /// level deeper whose `dfs_enter` lies in the parent's interval, one per
    /// concept. Empty when the collection or the parent is unknown, or the
    /// parent is outside that collection.
    pub fn list_children(&self, collection_id: &str, parent_value_id: &str) -> (r: Vec<ConceptInfo>)
        requires
            forall|i: int|
                0 <= i < self@.1.len() && self@.1[i].3 == parent_value_id@ ==> #[trigger] self@.1[i].2
                    < u16::MAX,
        ensures
            (forall|k: int| 0 <= k < self@.0.len() ==> self@.0[k].0 != collection_id@) ==> r@.len()
                == 0,
            (!exists|k: int, i: int| value_hit(self@.0, self@.1, parent_value_id@, k, i)) ==> r@.len()
                == 0,
            forall|k: int, kp: int, p: int|
                last_coll(self@.0, collection_id@, k) && value_hit(self@.0, self@.1, parent_value_id@, kp, p)
                    && (forall|k2: int, i2: int|
                    value_hit(self@.0, self@.1, parent_value_id@, k2, i2) ==> !flat_before(k2, i2, kp, p))
                    ==> r@.map_values(|c: ConceptInfo| info_view(c)) == if in_coll(self@.0, k, p) {
                    infos_of(
                        self@.1.subrange(self@.0[k].1 as int, self@.0[k].1 + self@.0[k].2).filter(
                            |e: EntryView| e.2 == self@.1[p].2 + 1 && self@.1[p].0 <= e.0 <= self@.1[p].1,
                        ),
                    )
                } else {
                    Seq::empty()
                },
    {
        proof {
            use_type_invariant(self);
        }
        let ghost cs = self@.0;
        let ghost es = self@.1;
        let k = match self.find_collection(collection_id) {
            Some(k) => k,
            None => {
                return Vec::new();
            },
        };
        let n_entries = self.entries.len();
        proof {
            assert(cs[k as int] == coll_view(self.collections@[k as int]));
            assert(cs[k as int].1 + cs[k as int].2 <= es.len());
            assert(es.len() == n_entries);
        }
        let start = self.collections[k].first_entry as usize;
        let end = start + self.collections[k].entry_count as usize;
        let p = match self.find_value(parent_value_id) {
            Some(p) => p,
            None => {
                return Vec::new();
            },
        };
        let ghost kp = choose|kp: int|
            value_hit(cs, es, parent_value_id@, kp, p as int) && forall|k2: int, i2: int|
                value_hit(cs, es, parent_value_id@, k2, i2) ==> !flat_before(k2, i2, kp, p as int);
        proof {
            lemma_unique_choice(cs, es, collection_id@, parent_value_id@, k as int, kp, p as int);
        }
        if p < start || p >= end {
            return Vec::new();
        }
        let parent = &self.entries[p];
        proof {
            assert(es[p as int].3 == parent_value_id@);
            assert(es[p as int].2 < u16::MAX);
        }
        let child_depth = parent.depth + 1;
        let lo = parent.dfs_enter;
        let hi = parent.dfs_leave;
        let ghost f = |e: EntryView| e.2 == es[p as int].2 + 1 && es[p as int].0 <= e.0 <= es[p as int].1;
        let mut idx: Vec<usize> = Vec::new();
        let mut i = start;
        while i < end
            invariant
                es == self@.1,
                start <= i <= end <= es.len(),
                child_depth == es[p as int].2 + 1,
                lo == es[p as int].0,
                hi == es[p as int].1,
                f == (|e: EntryView| e.2 == es[p as int].2 + 1 && es[p as int].0 <= e.0 <= es[p as int].1),
                forall|q: int| 0 <= q < idx@.len() ==> (#[trigger] idx@[q] as int) < es.len(),
                idx@.map_values(|q: usize| es[q as int]) == es.subrange(start as int, i as int).filter(f),
            decreases end - i,
        {
            let ghost before = idx@.map_values(|q: usize| es[q as int]);
            let e = &self.entries[i];
            proof {
                reveal(Seq::filter);
                assert(es.subrange(start as int, i + 1).drop_last() =~= es.subrange(start as int, i as int));
                assert(entry_view(*e) == es[i as int]);
            }
            if e.depth == child_depth && e.dfs_enter >= lo && e.dfs_enter <= hi {
                idx.push(i);
                proof {
                    assert(idx@.map_values(|q: usize| es[q as int]) =~= before.push(es[i as int]));
                }
            } else {
                proof {
                    assert(idx@.map_values(|q: usize| es[q as int]) =~= before);
                }
            }
            i = i + 1;
        }
        self.dedup_entries(&idx)
    }

    /// All collection ids, in table order.
    pub fn collection_ids(&self) -> (r: Vec<String>)
        ensures
            r@.map_values(|s: String| s@) == self@.0.map_values(|c: CollView| c.0),
    {
        let mut r: Vec<String> = Vec::new();
        let mut k: usize = 0;
        while k < self.collections.len()
            invariant
                k <= self.collections@.len(),
                r@.len() == k,
                forall|q: int| 0 <= q < k ==> #[trigger] r@[q]@ == self.collections@[q].collection_id@,
            decreases self.collections@.len() - k,
        {
            r.push(self.collections[k].collection_id.clone());
            k = k + 1;
        }
        proof {
            assert(r@.map_values(|s: String| s@) =~= self@.0.map_values(|c: CollView| c.0));
        }
        r
    }

    /// Number of entries.
    pub fn len(&self) -> (r: usize)
        ensures
            r == self@.1.len(),
    {
        self.entries.len()
    }

    /// Whether the tree holds no entry.
    pub fn is_empty(&self) -> (r: bool)
        ensures
            r == (self@.1.len() == 0),
    {
        self.entries.len() == 0
    }
}

/// The last collection with an id, and the first entry with a value id, are
/// each unique.
proof fn lemma_unique_choice(
    cs: Seq<CollView>,
    es: Seq<EntryView>,
    c: Seq<char>,
    v: Seq<char>,
    k: int,
    kp: int,
    p: int,
)
    requires
        last_coll(cs, c, k),
        value_hit(cs, es, v, kp, p),
        forall|k2: int, i2: int| value_hit(cs, es, v, k2, i2) ==> !flat_before(k2, i2, kp, p),
    ensures
        forall|k2: int, kp2: int, p2: int|
            last_coll(cs, c, k2) && value_hit(cs, es, v, kp2, p2) && (forall|k3: int, i3: int|
                value_hit(cs, es, v, k3, i3) ==> !flat_before(k3, i3, kp2, p2)) ==> k2 == k && p2 == p,
{
    assert forall|k2: int, kp2: int, p2: int|
        last_coll(cs, c, k2) && value_hit(cs, es, v, kp2, p2) && (forall|k3: int, i3: int|
            value_hit(cs, es, v, k3, i3) ==> !flat_before(k3, i3, kp2, p2)) implies k2 == k && p2
        == p by {
        assert(!flat_before(kp2, p2, kp, p));
        assert(!flat_before(kp, p, kp2, p2));
    }
}

// ---------------------------------------------------------------------------
// Binary format
// ---------------------------------------------------------------------------

/// The magic "RMCT".
pub open spec fn tree_magic() -> Seq<u8> {
    seq![0x52u8, 0x4du8, 0x43u8, 0x54u8]
}

/// A fixed 36-byte field: the first 36 bytes of the string, zero padded.
pub open spec fn field36(s: Seq<char>) -> Seq<u8> {
    let b = encode_utf8(s);
    if b.len() >= 36 {
        b.subrange(0, 36)
    } else {
        b + Seq::new((36 - b.len()) as nat, |i: int| 0u8)
    }
}

/// Bytes without their trailing zero bytes.
pub open spec fn trim_zeros(b: Seq<u8>) -> Seq<u8>
    decreases b.len(),
{
    if b.len() > 0 && b.last() == 0 {
        trim_zeros(b.drop_last())
    } else {
        b
    }
}

/// The string a 36-byte field holds: its bytes up to the zero padding.
pub open spec fn read_field36(b: Seq<u8>) -> Option<Seq<char>> {
    decoded(trim_zeros(b))
}

/// All labels' bytes, concatenated.
pub open spec fn labels_blob(es: Seq<EntryView>) -> Seq<u8>
    decreases es.len(),
{
    if es.len() == 0 {
        Seq::empty()
    } else {
        labels_blob(es.drop_last()) + encode_utf8(es.last().4)
    }
}

pub open spec fn coll_bytes(c: CollView) -> Seq<u8> {
    field36(c.0) + le32(c.1) + le32(c.2)
}

pub open spec fn colls_bytes(cs: Seq<CollView>) -> Seq<u8>
    decreases cs.len(),
{
    if cs.len() == 0 {
        Seq::empty()
    } else {
        colls_bytes(cs.drop_last()) + coll_bytes(cs.last())
    }
}

pub open spec fn entry_bytes(e: EntryView, label_offset: int) -> Seq<u8> {
    le32(e.0) + le32(e.1) + le16(e.2) + le16(encode_utf8(e.4).len() as u16) + field36(e.3) + le32(
        label_offset as u32,
    )
}

pub open spec fn entries_bytes(es: Seq<EntryView>) -> Seq<u8>
    decreases es.len(),
{
    if es.len() == 0 {
        Seq::empty()
    } else {
        entries_bytes(es.drop_last()) + entry_bytes(es.last(), labels_blob(es.drop_last()).len() as int)
    }
}

/// The serialized tree.
pub open spec fn tree_bytes(cs: Seq<CollView>, es: Seq<EntryView>) -> Seq<u8> {
    tree_magic() + seq![1u8, 0u8, 0u8, 0u8] + le32(cs.len() as u32) + le32(es.len() as u32) + le32(
        (20 + 44 * cs.len() + 52 * es.len()) as u32,
    ) + colls_bytes(cs) + entries_bytes(es) + labels_blob(es)
}

/// Collection `k` of a serialized tree.
pub open spec fn coll_at(d: Seq<u8>, k: int) -> Option<CollView> {
    let base = 20 + 44 * k;
    match read_field36(d.subrange(base, base + 36)) {
        None => None,
        Some(id) => Some((id, get_le32(d, base + 36), get_le32(d, base + 40))),
    }
}

/// Entry `i` of a serialized tree whose entries start at `es` and strings at `so`.
pub open spec fn entry_at(d: Seq<u8>, es: int, so: int, i: int) -> Option<EntryView> {
    let base = es + 52 * i;
    let ls = so + get_le32(d, base + 48);
    let le = ls + get_le16(d, base + 10);
    match read_field36(d.subrange(base + 12, base + 48)) {
        None => None,
        Some(vid) => if le > d.len() {
            None
        } else {
            match decoded(d.subrange(ls, le)) {
                None => None,
                Some(label) => Some((get_le32(d, base), get_le32(d, base + 4), get_le16(d, base + 8), vid, label)),
            }
        },
    }
}

/// The collections and entries a byte string holds, when well formed.
pub open spec fn spec_parse_tree(d: Seq<u8>) -> Option<(Seq<CollView>, Seq<EntryView>)> {
    if d.len() < 20 || d.subrange(0, 4) != tree_magic() || d[4] != 1 {
        None
    } else {
        let nc = get_le32(d, 8) as int;
        let ne = get_le32(d, 12) as int;
        let so = get_le32(d, 16) as int;
        let es = 20 + 44 * nc;
        if es + 52 * ne != so || d.len() < so {
            None
        } else if exists|k: int| 0 <= k < nc && (#[trigger] coll_at(d, k)) is None {
            None
        } else if exists|i: int| 0 <= i < ne && (#[trigger] entry_at(d, es, so, i)) is None {
            None
        } else {
            Some(
                (
                    Seq::new(nc as nat, |k: int| coll_at(d, k)->0),
                    Seq::new(ne as nat, |i: int| entry_at(d, es, so, i)->0),
                ),
            )
        }
    }
}

/// Read a zero-padded 36-byte field.
fn read_field(d: &[u8], base: usize) -> (r: Option<String>)
    requires
        base + 36 <= d@.len(),
    ensures
        r matches Some(s) ==> read_field36(d@.subrange(base as int, base + 36)) == Some(s@),
        r is None ==> read_field36(d@.subrange(base as int, base + 36)) is None,
{
    let ghost f = d@.subrange(base as int, base + 36);
    assert(f.subrange(0, 36) =~= f);
    let mut k: usize = 36;
    while k > 0 && d[base + k - 1] == 0
        invariant
            k <= 36,
            base + 36 <= d@.len(),
            d@.len() == d.len(),
            f == d@.subrange(base as int, base + 36),
            trim_zeros(f) == trim_zeros(f.subrange(0, k as int)),
        decreases k,
    {
        proof {
            assert(f.subrange(0, k - 1) =~= f.subrange(0, k as int).drop_last());
        }
        k = k - 1;
    }
    proof {
        assert(trim_zeros(f.subrange(0, k as int)) == f.subrange(0, k as int));
        assert(f.subrange(0, k as int) =~= d@.subrange(base as int, base + k));
    }
    decode_string(vstd::slice::slice_subrange(d, base, base + k))
}

impl ConceptTree {
    /// Serialize to the binary format.
    pub fn to_bytes(&self) -> (r: Vec<u8>)
        ensures
            r@ == tree_bytes(self@.0, self@.1),
    {
        let ghost cs = self@.0;
        let ghost es = self@.1;
        let nc = self.collections.len();
        let ne = self.entries.len();
        let mut labels: Vec<u8> = Vec::new();
        let mut offsets: Vec<usize> = Vec::new();
        let mut i: usize = 0;
        while i < ne
            invariant
                ne == self.entries@.len(),
                es == self@.1,
                i <= ne,
                labels@ == labels_blob(es.take(i as int)),
                offsets@.len() == i,
                forall|q: int| 0 <= q < i ==> #[trigger] offsets@[q] == labels_blob(es.take(q)).len(),
            decreases ne - i,
        {
            offsets.push(labels.len());
            push_bytes(&mut labels, self.entries[i].label.as_str().as_bytes());
            i = i + 1;
            proof {
                assert(es.take(i as int).drop_last() =~= es.take(i - 1));
                assert(es.take(i as int).last() == es[i - 1]);
            }
        }
        let mut buf: Vec<u8> = Vec::new();
        buf.push(0x52u8);
        buf.push(0x4du8);
        buf.push(0x43u8);
        buf.push(0x54u8);
        buf.push(1u8);
        buf.push(0u8);
        buf.push(0u8);
        buf.push(0u8);
        push_u32(&mut buf, nc as u32);
        push_u32(&mut buf, ne as u32);
        let so128: u128 = 20u128 + 44u128 * (nc as u128) + 52u128 * (ne as u128);
        let so = so128 as u32;
        push_u32(&mut buf, so);
        let ghost h = buf@;
        let mut k: usize = 0;
        while k < nc
            invariant
                nc == self.collections@.len(),
                cs == self@.0,
                k <= nc,
                buf@ == h + colls_bytes(cs.take(k as int)),
            decreases nc - k,
        {
            let c = &self.collections[k];
            push_field(&mut buf, c.collection_id.as_str());
            push_u32(&mut buf, c.first_entry);
            push_u32(&mut buf, c.entry_count);
            k = k + 1;
            proof {
                assert(cs.take(k as int).drop_last() =~= cs.take(k - 1));
                assert(cs.take(k as int).last() == cs[k - 1]);
                assert(buf@ =~= h + colls_bytes(cs.take(k as int)));
            }
        }
        let ghost h2 = buf@;
        let mut j: usize = 0;
        while j < ne
            invariant
                ne == self.entries@.len(),
                es == self@.1,
                offsets@.len() == ne,
                forall|q: int| 0 <= q < ne ==> #[trigger] offsets@[q] == labels_blob(es.take(q)).len(),
                j <= ne,
                buf@ == h2 + entries_bytes(es.take(j as int)),
            decreases ne - j,
        {
            let e = &self.entries[j];
            push_u32(&mut buf, e.dfs_enter);
            push_u32(&mut buf, e.dfs_leave);
            push_u16(&mut buf, e.depth);
            push_u16(&mut buf, e.label.as_str().as_bytes().len() as u16);
            push_field(&mut buf, e.value_id.as_str());
            push_u32(&mut buf, offsets[j] as u32);
            j = j + 1;
            proof {
                let t = es.take(j as int);
                assert(t.drop_last() =~= es.take(j - 1));
                assert(t.last() == es[j - 1]);
                assert(buf@ =~= h2 + entries_bytes(t));
            }
        }
        push_bytes(&mut buf, labels.as_slice());
        proof {
            assert(cs.take(nc as int) =~= cs);
            assert(es.take(ne as int) =~= es);
            assert(buf@ =~= tree_bytes(cs, es));
        }
        buf
    }

    /// Deserialize from the binary format.
    pub fn from_bytes(data: &[u8]) -> (r: Result<Self, String>)
        ensures
            r is Ok <==> (spec_parse_tree(data@) matches Some((cs, es)) && ranges_ok(
                cs,
                es.len() as int,
            )),
            r matches Ok(t) ==> spec_parse_tree(data@) == Some(t@),
    {
        let ghost d = data@;
        if data.len() < 20 {
            return Err("Concept tree data too short".to_string());
        }
        let magic_ok = data[0] == 0x52u8 && data[1] == 0x4du8 && data[2] == 0x43u8 && data[3]
            == 0x54u8;
        proof {
            if magic_ok {
                assert(d.subrange(0, 4) =~= tree_magic());
            } else if d.subrange(0, 4) == tree_magic() {
                assert(d[0] == d.subrange(0, 4)[0]);
                assert(d[1] == d.subrange(0, 4)[1]);
                assert(d[2] == d.subrange(0, 4)[2]);
                assert(d[3] == d.subrange(0, 4)[3]);
            }
        }
        if !magic_ok {
            return Err("Invalid concept tree magic".to_string());
        }
        if data[4] != 1 {
            return Err("Unsupported concept tree version".to_string());
        }
        let nc = read_u32(data, 8);
        let ne = read_u32(data, 12);
        let so = read_u32(data, 16);
        let expected = 20u64 + 44u64 * (nc as u64) + 52u64 * (ne as u64);
        if expected != so as u64 {
            return Err("String table offset mismatch".to_string());
        }
        if data.len() < so as usize {
            return Err("Concept tree data truncated before string table".to_string());
        }
        let so = so as usize;
        let nc = nc as usize;
        let ne = ne as usize;
        let es_start = 20 + 44 * nc;
        proof {
            assert(d.len() >= 20 && d.subrange(0, 4) == tree_magic() && d[4] == 1);
        }
        let mut collections: Vec<CollectionHeader> = Vec::new();
        let mut k: usize = 0;
        while k < nc
            invariant
                d == data@,
                d.len() >= 20 && d.subrange(0, 4) == tree_magic() && d[4] == 1,
                ne == get_le32(d, 12),
                so == get_le32(d, 16),
                d.len() == data.len(),
                20 + 44 * nc + 52 * ne == so,
                so <= d.len(),
                nc == get_le32(d, 8),
                k <= nc,
                collections@.len() == k,
                forall|q: int| 0 <= q < k ==> coll_at(d, q) == Some(#[trigger] coll_view(collections@[q])),
            decreases nc - k,
        {
            let base = 20 + 44 * k;
            match read_field(data, base) {
                None => {
                    proof {
                        assert(coll_at(d, k as int) is None);
                        assert(exists|q: int| 0 <= q < nc && (#[trigger] coll_at(d, q)) is None);
                    }
                    return Err("Invalid collection_id UTF-8".to_string());
                },
                Some(id) => {
                    let first_entry = read_u32(data, base + 36);
                    let entry_count = read_u32(data, base + 40);
                    collections.push(CollectionHeader { collection_id: id, first_entry, entry_count });
                },
            }
            k = k + 1;
        }
        proof {
            assert forall|q: int| 0 <= q < nc implies (#[trigger] coll_at(d, q)) is Some by {
                assert(coll_at(d, q) == Some(coll_view(collections@[q])));
            }
        }
        let mut entries: Vec<ConceptEntry> = Vec::new();
        let mut i: usize = 0;
        while i < ne
            invariant
                d == data@,
                d.len() >= 20 && d.subrange(0, 4) == tree_magic() && d[4] == 1,
                nc == get_le32(d, 8),
                so == get_le32(d, 16),
                forall|q: int| 0 <= q < nc ==> (#[trigger] coll_at(d, q)) is Some,
                d.len() == data.len(),
                20 + 44 * nc + 52 * ne == so,
                es_start == 20 + 44 * nc,
                so <= d.len(),
                ne == get_le32(d, 12),
                i <= ne,
                entries@.len() == i,
                forall|q: int| 0 <= q < i ==> entry_at(d, es_start as int, so as int, q) == Some(#[trigger] entry_view(entries@[q])),
            decreases ne - i,
        {
            let base = es_start + 52 * i;
            let dfs_enter = read_u32(data, base);
            let dfs_leave = read_u32(data, base + 4);
            let depth = read_u16(data, base + 8);
            let label_len = read_u16(data, base + 10);
            let vid = match read_field(data, base + 12) {
                None => {
                    proof {
                        assert(entry_at(d, es_start as int, so as int, i as int) is None);
                        assert(exists|q: int| 0 <= q < ne && (#[trigger] entry_at(d, es_start as int, so as int, q)) is None);
                    }
                    return Err("Invalid value_id UTF-8".to_string());
                },
                Some(v) => v,
            };
            let label_offset = read_u32(data, base + 48);
            let rem = (data.len() - so) as u64;
            if (label_offset as u64) + (label_len as u64) > rem {
                proof {
                    assert(entry_at(d, es_start as int, so as int, i as int) is None);
                    assert(exists|q: int| 0 <= q < ne && (#[trigger] entry_at(d, es_start as int, so as int, q)) is None);
                }
                return Err("Label extends beyond data".to_string());
            }
            let ls = so + label_offset as usize;
            let le = ls + label_len as usize;
            let label = match decode_string(vstd::slice::slice_subrange(data, ls, le)) {
                None => {
                    proof {
                        assert(entry_at(d, es_start as int, so as int, i as int) is None);
                        assert(exists|q: int| 0 <= q < ne && (#[trigger] entry_at(d, es_start as int, so as int, q)) is None);
                    }
                    return Err("Invalid label UTF-8".to_string());
                },
                Some(l) => l,
            };
            entries.push(ConceptEntry { dfs_enter, dfs_leave, depth, value_id: vid, label });
            i = i + 1;
        }
        let ghost cv = collections@.map_values(|c: CollectionHeader| coll_view(c));
        let ghost ev = entries@.map_values(|e: ConceptEntry| entry_view(e));
        proof {
            assert(cv =~= Seq::new(nc as nat, |q: int| coll_at(d, q)->0));
            assert(ev =~= Seq::new(ne as nat, |q: int| entry_at(d, es_start as int, so as int, q)->0));
            assert forall|q: int| 0 <= q < ne implies (#[trigger] entry_at(d, es_start as int, so as int, q)) is Some by {
                assert(entry_at(d, es_start as int, so as int, q) == Some(entry_view(entries@[q])));
            }
            assert(spec_parse_tree(d) == Some((cv, ev)));
        }
        let mut k: usize = 0;
        while k < collections.len()
            invariant
                k <= collections@.len(),
                cv == collections@.map_values(|c: CollectionHeader| coll_view(c)),
                ev == entries@.map_values(|e: ConceptEntry| entry_view(e)),
                spec_parse_tree(data@) == Some((cv, ev)),
                forall|q: int| 0 <= q < k ==> #[trigger] cv[q].1 + cv[q].2 <= entries@.len(),
            decreases collections@.len() - k,
        {
            let first = collections[k].first_entry as u64;
            let count = collections[k].entry_count as u64;
            proof {
                assert(cv[k as int] == coll_view(collections@[k as int]));
            }
            if first + count > entries.len() as u64 {
                proof {
                    assert(cv[k as int].1 + cv[k as int].2 > ev.len());
                }
                return Err("Concept tree collection range exceeds entries".to_string());
            }
            k = k + 1;
        }
        Ok(ConceptTree::from_parts(collections, entries))
    }
}

/// Append a string as a zero-padded 36-byte field.
fn push_field(buf: &mut Vec<u8>, s: &str)
    ensures
        final(buf)@ == old(buf)@ + field36(s@),
{
    let b = s.as_bytes();
    let n = if b.len() < 36 { b.len() } else { 36 };
    push_bytes(buf, vstd::slice::slice_subrange(b, 0, n));
    let ghost mid = buf@;
    let mut k = n;
    while k < 36
        invariant
            n <= k <= 36,
            buf@ == mid + Seq::new((k - n) as nat, |i: int| 0u8),
        decreases 36 - k,
    {
        buf.push(0u8);
        k = k + 1;
        proof {
            assert(buf@ =~= mid + Seq::new((k - n) as nat, |i: int| 0u8));
        }
    }
    proof {
        if b@.len() >= 36 {
            assert(Seq::new(0nat, |i: int| 0u8) =~= Seq::<u8>::empty());
            assert(buf@ =~= old(buf)@ + field36(s@));
        } else {
            assert(b@.subrange(0, n as int) =~= b@);
            assert(buf@ =~= old(buf)@ + field36(s@));
        }
    }
}


// ---------------------------------------------------------------------------
// Reading back a written tree
// ---------------------------------------------------------------------------

/// A string fits a 36-byte field and reads back from it: its encoding is at
/// most 36 bytes and does not end in a zero byte.
pub open spec fn field_fits(s: Seq<char>) -> bool {
    let b = encode_utf8(s);
    b.len() <= 36 && (b.len() == 0 || b.last() != 0)
}

/// What a tree must satisfy to be written and read back: ids fit their
/// fields, labels fit their 16-bit lengths, and sizes and offsets fit 32 bits.
pub open spec fn tree_writable(cs: Seq<CollView>, es: Seq<EntryView>) -> bool {
    &&& forall|k: int| 0 <= k < cs.len() ==> field_fits(#[trigger] cs[k].0)
    &&& forall|i: int|
        0 <= i < es.len() ==> field_fits((#[trigger] es[i]).3) && encode_utf8(es[i].4).len()
            <= u16::MAX
    &&& 20 + 44 * cs.len() + 52 * es.len() <= u32::MAX
    &&& labels_blob(es).len() <= u32::MAX
}

proof fn lemma_trim_padding(b: Seq<u8>, k: nat)
    requires
        b.len() == 0 || b.last() != 0,
    ensures
        trim_zeros(b + Seq::new(k, |i: int| 0u8)) == b,
    decreases k,
{
    let z = Seq::new(k, |i: int| 0u8);
    if k == 0 {
        assert(b + z =~= b);
    } else {
        let z1 = Seq::new((k - 1) as nat, |i: int| 0u8);
        assert((b + z).drop_last() =~= b + z1);
        assert((b + z).last() == 0);
        lemma_trim_padding(b, (k - 1) as nat);
    }
}

proof fn lemma_field36_roundtrip(s: Seq<char>)
    requires
        field_fits(s),
    ensures
        field36(s).len() == 36,
        read_field36(field36(s)) == Some(s),
{
    let b = encode_utf8(s);
    crate::text::lemma_decoded_encode(s);
    if b.len() >= 36 {
        assert(b.subrange(0, 36) =~= b);
        lemma_trim_padding(b, 0);
        assert(b + Seq::new(0, |i: int| 0u8) =~= b);
    } else {
        lemma_trim_padding(b, (36 - b.len()) as nat);
    }
}

proof fn lemma_labels_blob_take(es: Seq<EntryView>, i: int)
    requires
        0 <= i < es.len(),
    ensures
        labels_blob(es.take(i + 1)) == labels_blob(es.take(i)) + encode_utf8(es[i].4),
{
    assert(es.take(i + 1).drop_last() =~= es.take(i));
}

proof fn lemma_labels_blob_monotone(es: Seq<EntryView>, i: int, j: int)
    requires
        0 <= i <= j <= es.len(),
    ensures
        labels_blob(es.take(j)).subrange(0, labels_blob(es.take(i)).len() as int) == labels_blob(
            es.take(i),
        ),
        labels_blob(es.take(i)).len() <= labels_blob(es.take(j)).len(),
    decreases j - i,
{
    if i < j {
        lemma_labels_blob_monotone(es, i, j - 1);
        lemma_labels_blob_take(es, j - 1);
        let a = labels_blob(es.take(i));
        let m = labels_blob(es.take(j - 1));
        assert(labels_blob(es.take(j)).subrange(0, a.len() as int) =~= m.subrange(0, a.len() as int));
    }
}

proof fn lemma_label_at(es: Seq<EntryView>, i: int)
    requires
        0 <= i < es.len(),
    ensures
        labels_blob(es).subrange(
            labels_blob(es.take(i)).len() as int,
            (labels_blob(es.take(i)).len() + encode_utf8(es[i].4).len()) as int,
        ) == encode_utf8(es[i].4),
        labels_blob(es.take(i)).len() + encode_utf8(es[i].4).len() <= labels_blob(es).len(),
{
    lemma_labels_blob_take(es, i);
    lemma_labels_blob_monotone(es, i + 1, es.len() as int);
    assert(es.take(es.len() as int) =~= es);
    let a = labels_blob(es.take(i));
    let m = labels_blob(es.take(i + 1));
    let l = encode_utf8(es[i].4);
    assert(labels_blob(es).subrange(a.len() as int, (a.len() + l.len()) as int) =~= m.subrange(
        a.len() as int,
        (a.len() + l.len()) as int,
    ));
}

proof fn lemma_colls_bytes(cs: Seq<CollView>, k: int)
    requires
        0 <= k < cs.len(),
        forall|j: int| 0 <= j < cs.len() ==> field_fits(#[trigger] cs[j].0),
    ensures
        colls_bytes(cs).len() == 44 * cs.len(),
        colls_bytes(cs).subrange(44 * k, 44 * k + 44) == coll_bytes(cs[k]),
    decreases cs.len(),
{
    let init = cs.drop_last();
    lemma_field36_roundtrip(cs.last().0);
    if init.len() > 0 {
        lemma_colls_bytes(init, 0);
    } else {
        assert(colls_bytes(init).len() == 0);
    }
    if k < cs.len() - 1 {
        lemma_colls_bytes(init, k);
        assert(colls_bytes(cs).subrange(44 * k, 44 * k + 44) =~= colls_bytes(init).subrange(
            44 * k,
            44 * k + 44,
        ));
    } else {
        assert(colls_bytes(cs).subrange(44 * k, 44 * k + 44) =~= coll_bytes(cs[k]));
    }
}

proof fn lemma_entries_bytes(es: Seq<EntryView>, i: int)
    requires
        0 <= i < es.len(),
        forall|j: int| 0 <= j < es.len() ==> field_fits((#[trigger] es[j]).3),
    ensures
        entries_bytes(es).len() == 52 * es.len(),
        entries_bytes(es).subrange(52 * i, 52 * i + 52) == entry_bytes(
            es[i],
            labels_blob(es.take(i)).len() as int,
        ),
    decreases es.len(),
{
    let init = es.drop_last();
    lemma_field36_roundtrip(es.last().3);
    if init.len() > 0 {
        lemma_entries_bytes(init, 0);
    } else {
        assert(entries_bytes(init).len() == 0);
    }
    if i < es.len() - 1 {
        lemma_entries_bytes(init, i);
        assert(init.take(i) =~= es.take(i));
        assert(entries_bytes(es).subrange(52 * i, 52 * i + 52) =~= entries_bytes(init).subrange(
            52 * i,
            52 * i + 52,
        ));
    } else {
        assert(es.take(i) =~= init);
        assert(entries_bytes(es).subrange(52 * i, 52 * i + 52) =~= entry_bytes(
            es[i],
            labels_blob(es.take(i)).len() as int,
        ));
    }
}

/// Reading a `u32` at `base + q` where `d[base..base + n]` is `x`.
proof fn lemma_le32_in(d: Seq<u8>, base: int, x: Seq<u8>, q: int)
    requires
        0 <= base,
        base + x.len() <= d.len(),
        d.subrange(base, base + x.len()) == x,
        0 <= q,
        q + 4 <= x.len(),
    ensures
        get_le32(d, base + q) == get_le32(x, q),
{
    assert(d.subrange(base + q, base + q + 4) =~= x.subrange(q, q + 4));
    crate::codec::lemma_get_le32_sub(d, x, base + q, q);
}

proof fn lemma_le16_in(d: Seq<u8>, base: int, x: Seq<u8>, q: int)
    requires
        0 <= base,
        base + x.len() <= d.len(),
        d.subrange(base, base + x.len()) == x,
        0 <= q,
        q + 2 <= x.len(),
    ensures
        get_le16(d, base + q) == get_le16(x, q),
{
    assert(d[base + q] == d.subrange(base, base + x.len())[q]);
    assert(d[base + q + 1] == d.subrange(base, base + x.len())[q + 1]);
}

proof fn lemma_coll_fields(c: CollView)
    requires
        field_fits(c.0),
    ensures
        coll_bytes(c).len() == 44,
        read_field36(coll_bytes(c).subrange(0, 36)) == Some(c.0),
        get_le32(coll_bytes(c), 36) == c.1,
        get_le32(coll_bytes(c), 40) == c.2,
{
    lemma_field36_roundtrip(c.0);
    let f = field36(c.0);
    assert(coll_bytes(c).subrange(0, 36) =~= f);
    crate::codec::lemma_get_le32_at(f, c.1, le32(c.2));
    crate::codec::lemma_get_le32_at(f + le32(c.1), c.2, Seq::empty());
    assert(coll_bytes(c) == f + le32(c.1) + le32(c.2) + Seq::<u8>::empty());
}

#[verifier::rlimit(50)]
#[verifier::spinoff_prover]
proof fn lemma_entry_fields(e: EntryView, off: int)
    requires
        field_fits(e.3),
        0 <= off <= u32::MAX,
        encode_utf8(e.4).len() <= u16::MAX,
    ensures
        entry_bytes(e, off).len() == 52,
        get_le32(entry_bytes(e, off), 0) == e.0,
        get_le32(entry_bytes(e, off), 4) == e.1,
        get_le16(entry_bytes(e, off), 8) == e.2,
        get_le16(entry_bytes(e, off), 10) == encode_utf8(e.4).len(),
        read_field36(entry_bytes(e, off).subrange(12, 48)) == Some(e.3),
        get_le32(entry_bytes(e, off), 48) == off,
{
    lemma_field36_roundtrip(e.3);
    let a = le32(e.0);
    let b = le32(e.1);
    let c = le16(e.2);
    let ln = le16(encode_utf8(e.4).len() as u16);
    let f = field36(e.3);
    let o = le32(off as u32);
    let eb = entry_bytes(e, off);
    assert(eb == a + b + c + ln + f + o);
    crate::codec::lemma_get_le32_at(Seq::empty(), e.0, b + c + ln + f + o);
    assert(eb == Seq::<u8>::empty() + a + (b + c + ln + f + o));
    crate::codec::lemma_get_le32_at(a, e.1, c + ln + f + o);
    assert(eb == a + b + (c + ln + f + o));
    crate::codec::lemma_get_le16_at(a + b, e.2, ln + f + o);
    assert(eb == a + b + c + (ln + f + o));
    crate::codec::lemma_get_le16_at(a + b + c, encode_utf8(e.4).len() as u16, f + o);
    assert(eb == a + b + c + ln + (f + o));
    assert(eb.subrange(12, 48) =~= f);
    crate::codec::lemma_get_le32_at(a + b + c + ln + f, off as u32, Seq::empty());
    assert(eb == a + b + c + ln + f + o + Seq::<u8>::empty());
}

#[verifier::rlimit(50)]
#[verifier::spinoff_prover]
proof fn lemma_tree_header(cs: Seq<CollView>, es: Seq<EntryView>)
    requires
        tree_writable(cs, es),
    ensures
        tree_bytes(cs, es).len() == (20 + 44 * cs.len() + 52 * es.len()) as int + labels_blob(es).len(),
        tree_bytes(cs, es).subrange(0, 4) == tree_magic(),
        tree_bytes(cs, es)[4] == 1u8,
        get_le32(tree_bytes(cs, es), 8) == cs.len(),
        get_le32(tree_bytes(cs, es), 12) == es.len(),
        get_le32(tree_bytes(cs, es), 16) == (20 + 44 * cs.len() + 52 * es.len()) as int,
        tree_bytes(cs, es).subrange(20, (20 + 44 * cs.len()) as int) == colls_bytes(cs),
        tree_bytes(cs, es).subrange(
            (20 + 44 * cs.len()) as int,
            (20 + 44 * cs.len() + 52 * es.len()) as int,
        ) == entries_bytes(es),
        tree_bytes(cs, es).subrange(
            (20 + 44 * cs.len() + 52 * es.len()) as int,
            tree_bytes(cs, es).len() as int,
        ) == labels_blob(es),
{
    let nc = cs.len() as int;
    let ne = es.len() as int;
    let so = 20 + 44 * nc + 52 * ne;
    let h1 = tree_magic() + seq![1u8, 0u8, 0u8, 0u8];
    let cb = colls_bytes(cs);
    let eb = entries_bytes(es);
    let lb = labels_blob(es);
    let d = tree_bytes(cs, es);
    if nc > 0 {
        lemma_colls_bytes(cs, 0);
    } else {
        assert(cb.len() == 0);
    }
    if ne > 0 {
        lemma_entries_bytes(es, 0);
    } else {
        assert(eb.len() == 0);
    }
    let rest = cb + eb + lb;
    assert(d == h1 + le32(nc as u32) + le32(ne as u32) + le32(so as u32) + rest);
    crate::codec::lemma_get_le32_at(h1, nc as u32, le32(ne as u32) + le32(so as u32) + rest);
    assert(d == h1 + le32(nc as u32) + (le32(ne as u32) + le32(so as u32) + rest));
    crate::codec::lemma_get_le32_at(h1 + le32(nc as u32), ne as u32, le32(so as u32) + rest);
    assert(d == h1 + le32(nc as u32) + le32(ne as u32) + (le32(so as u32) + rest));
    crate::codec::lemma_get_le32_at(h1 + le32(nc as u32) + le32(ne as u32), so as u32, rest);
    assert(d == h1 + le32(nc as u32) + le32(ne as u32) + le32(so as u32) + rest);
    assert(d.subrange(0, 4) =~= tree_magic());
    assert(d.subrange(20, 20 + 44 * nc) =~= cb);
    assert(d.subrange(20 + 44 * nc, so) =~= eb);
    assert(d.subrange(so, d.len() as int) =~= lb);
}

#[verifier::rlimit(50)]
#[verifier::spinoff_prover]
proof fn lemma_tree_colls(cs: Seq<CollView>, es: Seq<EntryView>, k: int)
    requires
        tree_writable(cs, es),
        0 <= k < cs.len(),
    ensures
        coll_at(tree_bytes(cs, es), k) == Some(cs[k]),
{
    let d = tree_bytes(cs, es);
    lemma_tree_header(cs, es);
    lemma_colls_bytes(cs, k);
    lemma_coll_fields(cs[k]);
    let base = 20 + 44 * k;
    let cb = colls_bytes(cs);
    assert(d.subrange(base, base + 44) =~= cb.subrange(44 * k, 44 * k + 44)) by {
        assert(d.subrange(20, (20 + 44 * cs.len()) as int) == cb);
        assert forall|j: int| 0 <= j < 44 implies #[trigger] d.subrange(base, base + 44)[j] == cb.subrange(
            44 * k,
            44 * k + 44,
        )[j] by {
            assert(d[base + j] == d.subrange(20, (20 + 44 * cs.len()) as int)[44 * k + j]);
        }
    }
    assert(d.subrange(base, base + 36) =~= coll_bytes(cs[k]).subrange(0, 36));
    lemma_le32_in(d, base, coll_bytes(cs[k]), 36);
    lemma_le32_in(d, base, coll_bytes(cs[k]), 40);
}

#[verifier::rlimit(50)]
#[verifier::spinoff_prover]
proof fn lemma_tree_entry(cs: Seq<CollView>, es: Seq<EntryView>, i: int)
    requires
        tree_writable(cs, es),
        0 <= i < es.len(),
    ensures
        entry_at(
            tree_bytes(cs, es),
            (20 + 44 * cs.len()) as int,
            (20 + 44 * cs.len() + 52 * es.len()) as int,
            i,
        ) == Some(es[i]),
{
    let d = tree_bytes(cs, es);
    let nc = cs.len() as int;
    let ne = es.len() as int;
    let ebase = 20 + 44 * nc;
    let so = ebase + 52 * ne;
    let eb = entries_bytes(es);
    let lb = labels_blob(es);
    lemma_tree_header(cs, es);
    lemma_entries_bytes(es, i);
    lemma_label_at(es, i);
    lemma_labels_blob_monotone(es, i, ne);
    assert(es.take(ne) =~= es);
    let off = labels_blob(es.take(i)).len() as int;
    lemma_entry_fields(es[i], off);
    let x = entry_bytes(es[i], off);
    let base = ebase + 52 * i;
    assert(d.subrange(base, base + 52) =~= x) by {
        assert(d.subrange(ebase, so) == eb);
        assert forall|j: int| 0 <= j < 52 implies #[trigger] d.subrange(base, base + 52)[j] == x[j] by {
            assert(d[base + j] == d.subrange(ebase, so)[52 * i + j]);
            assert(eb.subrange(52 * i, 52 * i + 52)[j] == eb[52 * i + j]);
        }
    }
    lemma_le32_in(d, base, x, 0);
    lemma_le32_in(d, base, x, 4);
    lemma_le16_in(d, base, x, 8);
    lemma_le16_in(d, base, x, 10);
    lemma_le32_in(d, base, x, 48);
    assert(d.subrange(base + 12, base + 48) =~= x.subrange(12, 48));
    let l = encode_utf8(es[i].4);
    assert(d.subrange(so + off, so + off + l.len()) =~= lb.subrange(off, off + l.len())) by {
        assert(d.subrange(so, d.len() as int) == lb);
        assert forall|j: int| 0 <= j < l.len() implies #[trigger] d.subrange(so + off, so + off + l.len())[j]
            == lb.subrange(off, off + l.len())[j] by {
            assert(d[so + off + j] == d.subrange(so, d.len() as int)[off + j]);
        }
    }
    crate::text::lemma_decoded_encode(es[i].4);
}

/// Reading back a written tree gives the same collections and entries.
#[verifier::rlimit(50)]
#[verifier::spinoff_prover]
pub proof fn lemma_tree_roundtrip(cs: Seq<CollView>, es: Seq<EntryView>)
    requires
        tree_writable(cs, es),
    ensures
        spec_parse_tree(tree_bytes(cs, es)) == Some((cs, es)),
{
    let d = tree_bytes(cs, es);
    let nc = cs.len() as int;
    let ne = es.len() as int;
    let ebase = 20 + 44 * nc;
    let so = ebase + 52 * ne;
    lemma_tree_header(cs, es);
    assert forall|k: int| 0 <= k < nc implies #[trigger] coll_at(d, k) == Some(cs[k]) by {
        lemma_tree_colls(cs, es, k);
    }
    assert forall|i: int| 0 <= i < ne implies #[trigger] entry_at(d, ebase, so, i) == Some(es[i]) by {
        lemma_tree_entry(cs, es, i);
    }
    assert(!(exists|k: int| 0 <= k < nc && (#[trigger] coll_at(d, k)) is None));
    assert(!(exists|i: int| 0 <= i < ne && (#[trigger] entry_at(d, ebase, so, i)) is None));
    assert(Seq::new(nc as nat, |k: int| coll_at(d, k)->0) =~= cs);
    assert(Seq::new(ne as nat, |i: int| entry_at(d, ebase, so, i)->0) =~= es);
}

} // verus!
