//! Page-level summary quad index.
//!
//! A summary quad records that page S has edges with predicate P pointing to
//! objects in page O (or to quantised literal values), with counts.
//!
//! ```text
//! magic "RMSQ", version 1, quad_count: u32, spo_offset, pso_offset, ops_offset: u32
//! three sorted copies of the quads (SPO, PSO, OPS), 20 bytes each:
//!   page_s, pred, page_o, edge_count, subject_count (u32 LE)
//! ```

use vstd::prelude::*;
use vstd::relations::*;
use vstd::multiset::Multiset;
use crate::codec::{get_le32, le32, lemma_get_le32_at, lemma_get_le32_shift, push_u32, read_u32};
use crate::sort::{leq, merge_sort, Key4, SortKey};

verus! {

broadcast use vstd::seq_lib::group_to_multiset_ensures;

/// A page-level summary quad.
#[derive(Debug, Clone, Copy, PartialEq, Eq, Structural)]
pub struct SummaryQuad {
    /// Source page (page containing the subject resources).
    pub page_s: u32,
    /// Predicate dictionary ID.
    pub predicate: u32,
    /// Object page, or a quantised literal bucket for non-link predicates.
    pub page_o: u32,
    /// Number of resource-level edges summarised by this quad.
    pub edge_count: u32,
    /// Number of distinct subject resources in page_s with this (pred, page_o).
    pub subject_count: u32,
}

/// The three sort orders of the index.
#[derive(Debug, Clone, Copy, PartialEq, Eq, Structural)]
pub enum QuadOrder {
    Spo,
    Pso,
    Ops,
}

/// The sort key of quad `i` in an order, tagged with its position.
pub open spec fn order_key(q: SummaryQuad, ord: QuadOrder, i: int) -> Key4 {
    match ord {
        QuadOrder::Spo => Key4 { a: q.page_s as i64, b: q.predicate as i64, c: q.page_o as i64, d: i as i64 },
        QuadOrder::Pso => Key4 { a: q.predicate as i64, b: q.page_s as i64, c: q.page_o as i64, d: i as i64 },
        QuadOrder::Ops => Key4 { a: q.page_o as i64, b: q.predicate as i64, c: q.page_s as i64, d: i as i64 },
    }
}

/// The tagged keys of all quads.
pub open spec fn tagged_keys(qs: Seq<SummaryQuad>, ord: QuadOrder) -> Seq<Key4> {
    Seq::new(qs.len(), |i: int| order_key(qs[i], ord, i))
}

/// The quads stably sorted by an order's key (ties keep input order).
pub open spec fn stable_sorted(qs: Seq<SummaryQuad>, ord: QuadOrder) -> Seq<SummaryQuad> {
    let ks = tagged_keys(qs, ord).sort_by(leq::<Key4>());
    Seq::new(ks.len(), |i: int| qs[ks[i].d as int])
}

fn order_key_exec(q: &SummaryQuad, ord: QuadOrder, i: usize) -> (r: Key4)
    requires
        i <= i64::MAX,
    ensures
        r == order_key(*q, ord, i as int),
{
    match ord {
        QuadOrder::Spo => Key4 { a: q.page_s as i64, b: q.predicate as i64, c: q.page_o as i64, d: i as i64 },
        QuadOrder::Pso => Key4 { a: q.predicate as i64, b: q.page_s as i64, c: q.page_o as i64, d: i as i64 },
        QuadOrder::Ops => Key4 { a: q.page_o as i64, b: q.predicate as i64, c: q.page_s as i64, d: i as i64 },
    }
}

/// Stably sort quads by an order's key.
fn sort_quads(quads: &[SummaryQuad], ord: QuadOrder) -> (r: Vec<SummaryQuad>)
    requires
        quads@.len() <= i64::MAX,
    ensures
        r@ == stable_sorted(quads@, ord),
{
    let n = quads.len();
    let mut keys: Vec<Key4> = Vec::new();
    let mut i: usize = 0;
    while i < n
        invariant
            n == quads@.len(),
            n <= i64::MAX,
            i <= n,
            keys@ == tagged_keys(quads@, ord).take(i as int),
        decreases n - i,
    {
        keys.push(order_key_exec(&quads[i], ord, i));
        i = i + 1;
        proof {
            assert(keys@ =~= tagged_keys(quads@, ord).take(i as int));
        }
    }
    assert(tagged_keys(quads@, ord).take(n as int) =~= tagged_keys(quads@, ord));
    let sorted = merge_sort(&keys);
    let ghost tk = tagged_keys(quads@, ord);
    proof {
        Key4::lemma_total();
        tk.lemma_sort_by_ensures(leq::<Key4>());
        assert forall|j: int| 0 <= j < sorted@.len() implies 0 <= #[trigger] sorted@[j].d < n by {
            assert(sorted@.contains(sorted@[j]));
            assert(tk.contains(sorted@[j]));
            let k = choose|k: int| 0 <= k < tk.len() && tk[k] == sorted@[j];
        }
    }
    let mut r: Vec<SummaryQuad> = Vec::new();
    let mut j: usize = 0;
    while j < sorted.len()
        invariant
            n == quads@.len(),
            j <= sorted@.len(),
            sorted@ == tk.sort_by(leq::<Key4>()),
            forall|q: int| 0 <= q < sorted@.len() ==> 0 <= #[trigger] sorted@[q].d < n,
            r@ =~= Seq::new(j as nat, |q: int| quads@[sorted@[q].d as int]),
        decreases sorted@.len() - j,
    {
        let d = sorted[j].d as usize;
        proof {
            assert(0 <= sorted@[j as int].d < n);
        }
        r.push(quads[d]);
        j = j + 1;
    }
    r
}

// ---------------------------------------------------------------------------
// Builder
// ---------------------------------------------------------------------------

/// One resource-level edge: a subject in `page_s` has `predicate` with an
/// object in (or a literal bucket) `page_o`.
#[derive(Debug, Clone, Copy, PartialEq, Eq, Structural)]
pub struct SummaryEdge {
    pub page_s: u32,
    pub predicate: u32,
    pub page_o: u32,
    pub subject: u32,
}

impl SortKey for SummaryEdge {
    open spec fn key_le(x: SummaryEdge, y: SummaryEdge) -> bool {
        x.page_s < y.page_s || (x.page_s == y.page_s && (x.predicate < y.predicate || (
        x.predicate == y.predicate && (x.page_o < y.page_o || (x.page_o == y.page_o
            && x.subject <= y.subject)))))
    }

    proof fn lemma_total() {
    }

    fn le(x: &SummaryEdge, y: &SummaryEdge) -> (r: bool) {
        x.page_s < y.page_s || (x.page_s == y.page_s && (x.predicate < y.predicate || (
        x.predicate == y.predicate && (x.page_o < y.page_o || (x.page_o == y.page_o
            && x.subject <= y.subject)))))
    }
}

/// The (page_s, predicate, page_o) key of an edge.
pub open spec fn edge_key(e: SummaryEdge) -> (u32, u32, u32) {
    (e.page_s, e.predicate, e.page_o)
}

/// The (page_s, predicate, page_o) key of a quad.
pub open spec fn quad_key(q: SummaryQuad) -> (u32, u32, u32) {
    (q.page_s, q.predicate, q.page_o)
}

/// Strict lexicographic order on keys.
pub open spec fn key_lt(a: (u32, u32, u32), b: (u32, u32, u32)) -> bool {
    a.0 < b.0 || (a.0 == b.0 && (a.1 < b.1 || (a.1 == b.1 && a.2 < b.2)))
}

/// The edges with a given key.
pub open spec fn has_key(k: (u32, u32, u32)) -> spec_fn(SummaryEdge) -> bool {
    |e: SummaryEdge| edge_key(e) == k
}

/// How many edges carry a key.
pub open spec fn key_edge_count(m: Multiset<SummaryEdge>, k: (u32, u32, u32)) -> nat {
    m.filter(has_key(k)).len()
}

/// The distinct subjects of the edges with a key.
pub open spec fn key_subjects(m: Multiset<SummaryEdge>, k: (u32, u32, u32)) -> Set<u32> {
    Set::new(|x: u32| m.contains(SummaryEdge { page_s: k.0, predicate: k.1, page_o: k.2, subject: x }))
}

/// What `build` returns for a multiset of edges: one quad per distinct key,
/// in ascending key order, with the edge count and distinct subject count of
/// that key.
pub open spec fn summarizes(m: Multiset<SummaryEdge>, r: Seq<SummaryQuad>) -> bool {
    &&& forall|a: int, b: int| 0 <= a < b < r.len() ==> key_lt(quad_key(r[a]), quad_key(r[b]))
    &&& forall|a: int|
        0 <= a < r.len() ==> {
            &&& (#[trigger] r[a]).edge_count == key_edge_count(m, quad_key(r[a]))
            &&& r[a].edge_count > 0
            &&& r[a].subject_count == key_subjects(m, quad_key(r[a])).len()
        }
    &&& forall|e: SummaryEdge| m.contains(e) ==> exists|a: int| 0 <= a < r.len() && quad_key(r[a]) == edge_key(e)
}

/// Accumulator for building summary quads from resource-level edges.
pub struct SummaryBuilder {
    edges: Vec<SummaryEdge>,
}

impl View for SummaryBuilder {
    type V = Seq<SummaryEdge>;

    closed spec fn view(&self) -> Seq<SummaryEdge> {
        self.edges@
    }
}

/// Count of positions where a nondecreasing run changes value, plus one.
spec fn run_distinct(t: Seq<u32>) -> nat
    decreases t.len(),
{
    if t.len() == 0 {
        0
    } else if t.len() == 1 {
        1
    } else {
        run_distinct(t.drop_last()) + if t.last() != t[t.len() - 2] { 1nat } else { 0nat }
    }
}

proof fn lemma_run_distinct(t: Seq<u32>)
    requires
        forall|i: int, j: int| 0 <= i <= j < t.len() ==> t[i] <= t[j],
    ensures
        run_distinct(t) == t.to_set().len(),
        run_distinct(t) <= t.len(),
    decreases t.len(),
{
    broadcast use vstd::set::group_set_axioms, vstd::seq_lib::seq_to_set_is_finite;
    if t.len() == 0 {
        assert(t.to_set() =~= Set::<u32>::empty());
    } else {
        let u = t.drop_last();
        lemma_run_distinct(u);
        assert(t =~= u + seq![t.last()]);
        Seq::lemma_to_set_insert_commutes(u, t.last());
        if t.len() == 1 {
            assert(u.to_set() =~= Set::<u32>::empty());
        } else if t.last() == t[t.len() - 2] {
            assert(u.to_set().contains(u[u.len() - 1]));
        } else {
            assert(!u.to_set().contains(t.last())) by {
                if u.to_set().contains(t.last()) {
                    let i = choose|i: int| 0 <= i < u.len() && u[i] == t.last();
                    assert(t[i] <= t[t.len() - 2]);
                }
            }
        }
    }
}

/// A multiset filtered has as many elements as the sequence filtered.
proof fn lemma_multiset_filter_len(s: Seq<SummaryEdge>, f: spec_fn(SummaryEdge) -> bool)
    ensures
        s.to_multiset().filter(f).len() == s.filter(f).len(),
    decreases s.len(),
{
    broadcast use vstd::multiset::group_multiset_axioms, vstd::seq_lib::group_to_multiset_ensures;
    reveal(Seq::filter);
    if s.len() == 0 {
        assert(s.to_multiset().filter(f) =~= Multiset::empty());
    } else {
        let t = s.drop_last();
        let a = s.last();
        lemma_multiset_filter_len(t, f);
        assert(t.push(a) == s);
        let m = t.to_multiset();
        assert(s.to_multiset() =~= m.insert(a));
        if f(a) {
            assert(m.insert(a).filter(f) =~= m.filter(f).insert(a));
        } else {
            assert(m.insert(a).filter(f) =~= m.filter(f));
        }
    }
}

impl SummaryBuilder {
    /// An empty builder.
    pub fn new() -> (r: Self)
        ensures
            r@ == Seq::<SummaryEdge>::empty(),
    {
        SummaryBuilder { edges: Vec::new() }
    }

    /// Add a record: a subject in `page_s` has predicate `pred` with an
    /// object in `page_o` (for literal predicates, the quantised value).
    pub fn add(&mut self, page_s: u32, pred: u32, page_o: u32, subject_id: u32)
        ensures
            final(self)@ == old(self)@.push(
                SummaryEdge { page_s, predicate: pred, page_o, subject: subject_id },
            ),
    {
        self.edges.push(SummaryEdge { page_s, predicate: pred, page_o, subject: subject_id });
    }

    /// Build the summary quads: one per distinct (page_s, predicate, page_o),
    /// in ascending key order.
    pub fn build(self) -> (r: Vec<SummaryQuad>)
        requires
            forall|k: (u32, u32, u32)|
                #[trigger] key_edge_count(self@.to_multiset(), k) <= u32::MAX,
        ensures
            summarizes(self@.to_multiset(), r@),
    {
        let ghost m = self@.to_multiset();
        let srt = merge_sort(&self.edges);
        let n = srt.len();
        let ghost le = leq::<SummaryEdge>();
        let mut r: Vec<SummaryQuad> = Vec::new();
        let mut i: usize = 0;
        while i < n
            invariant
                n == srt@.len(),
                le == leq::<SummaryEdge>(),
                sorted_by(srt@, le),
                srt@.to_multiset() == m,
                forall|k: (u32, u32, u32)| #[trigger] key_edge_count(m, k) <= u32::MAX,
                i <= n,
                0 < i < n ==> edge_key(srt@[i - 1]) != edge_key(srt@[i as int]),
                r@.len() > 0 ==> 0 < i && quad_key(r@.last()) == edge_key(srt@[i - 1]),
                forall|a: int, b: int| 0 <= a < b < r@.len() ==> key_lt(quad_key(r@[a]), quad_key(r@[b])),
                forall|a: int|
                    0 <= a < r@.len() ==> {
                        &&& (#[trigger] r@[a]).edge_count == key_edge_count(m, quad_key(r@[a]))
                        &&& r@[a].edge_count > 0
                        &&& r@[a].subject_count == key_subjects(m, quad_key(r@[a])).len()
                    },
                forall|x: int| 0 <= x < i ==> exists|a: int| 0 <= a < r@.len() && quad_key(r@[a]) == edge_key(#[trigger] srt@[x]),
            decreases n - i,
        {
            let g = i;
            let first = srt[g];
            let mut j: usize = g + 1;
            let mut distinct: usize = 1;
            while j < n && srt[j].page_s == first.page_s && srt[j].predicate == first.predicate
                && srt[j].page_o == first.page_o
                invariant
                    n == srt@.len(),
                    g < j <= n,
                    first == srt@[g as int],
                    forall|x: int| g <= x < j ==> edge_key(#[trigger] srt@[x]) == edge_key(first),
                    distinct == run_distinct(srt@.subrange(g as int, j as int).map_values(|e: SummaryEdge| e.subject)),
                    distinct <= j - g,
                decreases n - j,
            {
                let ghost t = srt@.subrange(g as int, j + 1).map_values(|e: SummaryEdge| e.subject);
                proof {
                    assert(t.drop_last() =~= srt@.subrange(g as int, j as int).map_values(|e: SummaryEdge| e.subject));
                }
                if srt[j].subject != srt[j - 1].subject {
                    distinct = distinct + 1;
                }
                j = j + 1;
            }
            let ghost k = edge_key(first);
            let ghost run = srt@.subrange(g as int, j as int);
            proof {
                // The run [g, j) holds exactly the edges with key k.
                assert forall|x: int| 0 <= x < srt@.len() && !(g <= x < j) implies !has_key(k)(#[trigger] srt@[x]) by {
                    if x < g {
                        assert(le(srt@[x], srt@[g - 1]));
                        assert(le(srt@[g - 1], srt@[g as int]));
                    } else {
                        assert(le(srt@[j as int], srt@[x]));
                        assert(le(srt@[g as int], srt@[j as int]));
                    }
                }
                assert forall|x: int| 0 <= x < srt@.len() && g <= x < j implies has_key(k)(#[trigger] srt@[x]) == has_key(k)(srt@[x]) by {}
                lemma_filter_window(srt@, has_key(k), has_key(k), g as int, j as int);
                assert forall|x: int| 0 <= x < run.len() implies has_key(k)(#[trigger] run[x]) by {
                    assert(run[x] == srt@[g + x]);
                }
                lemma_filter_all(run, has_key(k));
                lemma_multiset_filter_len(srt@, has_key(k));
                assert(key_edge_count(m, k) == j - g);
                // The subjects of the run.
                let subj = run.map_values(|e: SummaryEdge| e.subject);
                assert forall|a: int, b: int| 0 <= a <= b < subj.len() implies subj[a] <= subj[b] by {
                    if a < b {
                        assert(le(srt@[g + a], srt@[g + b]));
                    }
                }
                lemma_run_distinct(subj);
                assert(key_subjects(m, k) =~= subj.to_set()) by {
                    broadcast use vstd::seq_lib::group_to_multiset_ensures;
                    assert forall|x: u32| key_subjects(m, k).contains(x) implies subj.to_set().contains(x) by {
                        let e = SummaryEdge { page_s: k.0, predicate: k.1, page_o: k.2, subject: x };
                        assert(srt@.contains(e));
                        let y = choose|y: int| 0 <= y < srt@.len() && srt@[y] == e;
                        assert(has_key(k)(srt@[y]));
                        assert(subj[y - g] == x);
                    }
                    assert forall|x: u32| subj.to_set().contains(x) implies key_subjects(m, k).contains(x) by {
                        let y = choose|y: int| 0 <= y < subj.len() && subj[y] == x;
                        assert(srt@[g + y] == run[y]);
                        assert(srt@.contains(srt@[g + y]));
                        assert(srt@[g + y] == SummaryEdge { page_s: k.0, predicate: k.1, page_o: k.2, subject: x });
                    }
                }
            }
            let q = SummaryQuad {
                page_s: first.page_s,
                predicate: first.predicate,
                page_o: first.page_o,
                edge_count: (j - g) as u32,
                subject_count: distinct as u32,
            };
            proof {
                if r@.len() > 0 {
                    assert(le(srt@[g - 1], srt@[g as int]));
                    assert forall|a: int| 0 <= a < r@.len() implies key_lt(quad_key(r@[a]), quad_key(q)) by {
                        if a < r@.len() - 1 {
                            assert(key_lt(quad_key(r@[a]), quad_key(r@.last())));
                        }
                    }
                }
            }
            let ghost old_r = r@;
            r.push(q);
            i = j;
            proof {
                assert forall|x: int| 0 <= x < i implies exists|a: int| 0 <= a < r@.len() && quad_key(r@[a]) == edge_key(#[trigger] srt@[x]) by {
                    if x < g {
                        let a = choose|a: int| 0 <= a < old_r.len() && quad_key(old_r[a]) == edge_key(srt@[x]);
                        assert(r@[a] == old_r[a]);
                    } else {
                        assert(r@[r@.len() - 1] == q);
                    }
                }
            }
        }
        proof {
            broadcast use vstd::seq_lib::group_to_multiset_ensures;
            assert forall|e: SummaryEdge| m.contains(e) implies exists|a: int| 0 <= a < r@.len() && quad_key(r@[a]) == edge_key(e) by {
                assert(srt@.contains(e));
                let y = choose|y: int| 0 <= y < srt@.len() && srt@[y] == e;
                assert(0 <= y < i);
            }
        }
        r
    }
}

// ---------------------------------------------------------------------------
// Serialization
// ---------------------------------------------------------------------------

/// The magic "RMSQ".
pub open spec fn summary_magic() -> Seq<u8> {
    seq![0x52u8, 0x4du8, 0x53u8, 0x51u8]
}

pub open spec fn quad_bytes(q: SummaryQuad) -> Seq<u8> {
    le32(q.page_s) + le32(q.predicate) + le32(q.page_o) + le32(q.edge_count) + le32(
        q.subject_count,
    )
}

pub open spec fn quads_bytes(qs: Seq<SummaryQuad>) -> Seq<u8>
    decreases qs.len(),
{
    if qs.len() == 0 {
        Seq::empty()
    } else {
        quads_bytes(qs.drop_last()) + quad_bytes(qs.last())
    }
}

/// The serialized summary: header, then the SPO, PSO and OPS copies.
#[verifier::opaque]
pub open spec fn spec_summary_file(qs: Seq<SummaryQuad>) -> Seq<u8> {
    let n = qs.len();
    summary_magic() + seq![1u8] + le32(n as u32) + le32(21u32) + le32((21 + 20 * n) as u32) + le32(
        (21 + 40 * n) as u32,
    ) + quads_bytes(stable_sorted(qs, QuadOrder::Spo)) + quads_bytes(
        stable_sorted(qs, QuadOrder::Pso),
    ) + quads_bytes(stable_sorted(qs, QuadOrder::Ops))
}

fn push_quads(buf: &mut Vec<u8>, qs: &Vec<SummaryQuad>)
    ensures
        final(buf)@ == old(buf)@ + quads_bytes(qs@),
{
    let ghost head = buf@;
    let mut i: usize = 0;
    while i < qs.len()
        invariant
            i <= qs@.len(),
            buf@ == head + quads_bytes(qs@.take(i as int)),
        decreases qs@.len() - i,
    {
        let q = qs[i];
        push_u32(buf, q.page_s);
        push_u32(buf, q.predicate);
        push_u32(buf, q.page_o);
        push_u32(buf, q.edge_count);
        push_u32(buf, q.subject_count);
        i = i + 1;
        proof {
            assert(qs@.take(i as int).drop_last() =~= qs@.take(i - 1));
            assert(buf@ =~= head + quads_bytes(qs@.take(i as int)));
        }
    }
    assert(qs@.take(qs@.len() as int) =~= qs@);
}

/// Serialize summary quads to binary: header plus three sorted copies.
pub fn serialize_summary(quads: &[SummaryQuad]) -> (r: Vec<u8>)
    requires
        21 + 40 * quads@.len() <= u32::MAX,
    ensures
        r@ == spec_summary_file(quads@),
{
    let n = quads.len();
    let mut buf: Vec<u8> = Vec::new();
    buf.push(0x52u8);
    buf.push(0x4du8);
    buf.push(0x53u8);
    buf.push(0x51u8);
    buf.push(1u8);
    push_u32(&mut buf, n as u32);
    let section = (20 * n) as u32;
    push_u32(&mut buf, 21u32);
    push_u32(&mut buf, 21u32 + section);
    push_u32(&mut buf, 21u32 + section + section);
    let spo = sort_quads(quads, QuadOrder::Spo);
    push_quads(&mut buf, &spo);
    let pso = sort_quads(quads, QuadOrder::Pso);
    push_quads(&mut buf, &pso);
    let ops = sort_quads(quads, QuadOrder::Ops);
    push_quads(&mut buf, &ops);
    proof {
        reveal(spec_summary_file);
        assert(buf@ =~= spec_summary_file(quads@));
    }
    buf
}

/// Deserialized summary index with three sorted views.
pub struct SummaryIndex {
    spo: Vec<SummaryQuad>,
    pso: Vec<SummaryQuad>,
    ops: Vec<SummaryQuad>,
}

impl View for SummaryIndex {
    type V = (Seq<SummaryQuad>, Seq<SummaryQuad>, Seq<SummaryQuad>);

    closed spec fn view(&self) -> (Seq<SummaryQuad>, Seq<SummaryQuad>, Seq<SummaryQuad>) {
        (self.spo@, self.pso@, self.ops@)
    }
}

pub open spec fn quad_at(data: Seq<u8>, pos: int) -> SummaryQuad {
    SummaryQuad {
        page_s: get_le32(data, pos),
        predicate: get_le32(data, pos + 4),
        page_o: get_le32(data, pos + 8),
        edge_count: get_le32(data, pos + 12),
        subject_count: get_le32(data, pos + 16),
    }
}

pub open spec fn section_at(data: Seq<u8>, offset: int, n: int) -> Seq<SummaryQuad> {
    Seq::new(n as nat, |i: int| quad_at(data, offset + 20 * i))
}

/// Header fields are present and tagged right.
pub open spec fn summary_prelude_ok(data: Seq<u8>) -> bool {
    data.len() >= 21 && data.subrange(0, 4) == summary_magic() && data[4] == 1
}

/// The three views a byte string holds, when well formed.
pub open spec fn spec_parse_summary(data: Seq<u8>) -> Option<
    (Seq<SummaryQuad>, Seq<SummaryQuad>, Seq<SummaryQuad>),
> {
    if !summary_prelude_ok(data) {
        None
    } else {
        let n = get_le32(data, 5) as int;
        let ops = get_le32(data, 17) as int;
        if data.len() < ops + 20 * n {
            None
        } else {
            Some(
                (
                    section_at(data, get_le32(data, 9) as int, n),
                    section_at(data, get_le32(data, 13) as int, n),
                    section_at(data, ops, n),
                ),
            )
        }
    }
}

/// Inputs on which reading the sections stays inside the data.
pub open spec fn summary_sections_in_bounds(data: Seq<u8>) -> bool {
    summary_prelude_ok(data) ==> {
        let n = get_le32(data, 5) as int;
        &&& get_le32(data, 17) + 20 * n <= usize::MAX
        &&& data.len() >= get_le32(data, 17) + 20 * n ==> {
            &&& get_le32(data, 9) + 20 * n <= data.len()
            &&& get_le32(data, 13) + 20 * n <= data.len()
        }
    }
}

fn parse_section(data: &[u8], offset: usize, n: usize) -> (r: Vec<SummaryQuad>)
    requires
        offset + 20 * n <= data@.len(),
    ensures
        r@ == section_at(data@, offset as int, n as int),
{
    let mut r: Vec<SummaryQuad> = Vec::new();
    let mut i: usize = 0;
    while i < n
        invariant
            i <= n,
            offset + 20 * n <= data@.len(),
            data@.len() == data.len(),
            r@ =~= Seq::new(i as nat, |q: int| quad_at(data@, offset + 20 * q)),
        decreases n - i,
    {
        let base = offset + 20 * i;
        let page_s = read_u32(data, base);
        let predicate = read_u32(data, base + 4);
        let page_o = read_u32(data, base + 8);
        let edge_count = read_u32(data, base + 12);
        let subject_count = read_u32(data, base + 16);
        r.push(SummaryQuad { page_s, predicate, page_o, edge_count, subject_count });
        i = i + 1;
    }
    r
}

impl SummaryIndex {
    /// Deserialize from binary.
    pub fn from_bytes(data: &[u8]) -> (r: Result<Self, String>)
        requires
            summary_sections_in_bounds(data@),
        ensures
            r matches Ok(idx) ==> spec_parse_summary(data@) == Some(idx@),
            r is Err ==> spec_parse_summary(data@) is None,
    {
        if data.len() < 21 {
            return Err("Summary data too short".to_string());
        }
        let magic_ok = data[0] == 0x52u8 && data[1] == 0x4du8 && data[2] == 0x53u8 && data[3]
            == 0x51u8;
        proof {
            if magic_ok {
                assert(data@.subrange(0, 4) =~= summary_magic());
            } else if data@.subrange(0, 4) == summary_magic() {
                assert(data@[0] == data@.subrange(0, 4)[0]);
                assert(data@[1] == data@.subrange(0, 4)[1]);
                assert(data@[2] == data@.subrange(0, 4)[2]);
                assert(data@[3] == data@.subrange(0, 4)[3]);
            }
        }
        if !magic_ok {
            return Err("Invalid summary magic".to_string());
        }
        if data[4] != 1 {
            return Err("Unsupported summary version".to_string());
        }
        let n = read_u32(data, 5) as usize;
        let spo_offset = read_u32(data, 9) as usize;
        let pso_offset = read_u32(data, 13) as usize;
        let ops_offset = read_u32(data, 17) as usize;
        if data.len() < ops_offset + 20 * n {
            return Err("Summary data truncated".to_string());
        }
        assert(data@.len() == data.len());
        let spo = parse_section(data, spo_offset, n);
        let pso = parse_section(data, pso_offset, n);
        let ops = parse_section(data, ops_offset, n);
        Ok(SummaryIndex { spo, pso, ops })
    }
}

// ---------------------------------------------------------------------------
// Lookups
// ---------------------------------------------------------------------------

/// The lookup keys: one or two quad fields, compared lexicographically.
#[derive(Debug, Clone, Copy, PartialEq, Eq, Structural)]
pub enum LookupKey {
    S,
    SP,
    PS,
    P,
    OP,
    O,
}

/// A lookup key as a single integer (two u32 fields, lexicographically).
pub open spec fn lookup_key(q: SummaryQuad, k: LookupKey) -> int {
    match k {
        LookupKey::S => q.page_s * 0x1_0000_0000,
        LookupKey::SP => q.page_s * 0x1_0000_0000 + q.predicate,
        LookupKey::PS => q.predicate * 0x1_0000_0000 + q.page_s,
        LookupKey::P => q.predicate * 0x1_0000_0000,
        LookupKey::OP => q.page_o * 0x1_0000_0000 + q.predicate,
        LookupKey::O => q.page_o * 0x1_0000_0000,
    }
}

fn lookup_key_exec(q: &SummaryQuad, k: LookupKey) -> (r: u64)
    ensures
        r == lookup_key(*q, k),
{
    match k {
        LookupKey::S => q.page_s as u64 * 0x1_0000_0000u64,
        LookupKey::SP => q.page_s as u64 * 0x1_0000_0000u64 + q.predicate as u64,
        LookupKey::PS => q.predicate as u64 * 0x1_0000_0000u64 + q.page_s as u64,
        LookupKey::P => q.predicate as u64 * 0x1_0000_0000u64,
        LookupKey::OP => q.page_o as u64 * 0x1_0000_0000u64 + q.predicate as u64,
        LookupKey::O => q.page_o as u64 * 0x1_0000_0000u64,
    }
}

/// A view is sorted by a lookup key.
pub open spec fn sorted_by_key(s: Seq<SummaryQuad>, k: LookupKey) -> bool {
    forall|i: int, j: int| 0 <= i <= j < s.len() ==> lookup_key(s[i], k) <= lookup_key(s[j], k)
}

/// `r` is a contiguous slice of `s`; when `s` is sorted by the key, it is
/// exactly the run of elements whose key equals `target`.
pub open spec fn is_match_slice(s: Seq<SummaryQuad>, r: Seq<SummaryQuad>, k: LookupKey, target: int) -> bool {
    exists|a: int, b: int|
        0 <= a <= b <= s.len() && r == s.subrange(a, b) && (sorted_by_key(s, k) ==> (forall|i: int|
            a <= i < b ==> lookup_key(#[trigger] s[i], k) == target) && (forall|i: int|
            0 <= i < s.len() && (i < a || i >= b) ==> lookup_key(#[trigger] s[i], k) != target))
}

/// First index at or after `from` whose key is not below the target.
fn key_partition(s: &[SummaryQuad], from: usize, k: LookupKey, target: u64, strict: bool) -> (r:
    usize)
    requires
        from <= s@.len(),
    ensures
        from <= r <= s@.len(),
        sorted_by_key(s@, k) ==> forall|i: int|
            from <= i < r ==> (if strict {
                lookup_key(#[trigger] s@[i], k) < target
            } else {
                lookup_key(#[trigger] s@[i], k) <= target
            }),
        sorted_by_key(s@, k) ==> forall|i: int|
            r <= i < s@.len() ==> (if strict {
                lookup_key(#[trigger] s@[i], k) >= target
            } else {
                lookup_key(#[trigger] s@[i], k) > target
            }),
{
    let mut lo = from;
    let mut hi = s.len();
    while lo < hi
        invariant
            from <= lo <= hi <= s@.len(),
            sorted_by_key(s@, k) ==> forall|i: int|
                from <= i < lo ==> (if strict {
                    lookup_key(#[trigger] s@[i], k) < target
                } else {
                    lookup_key(#[trigger] s@[i], k) <= target
                }),
            sorted_by_key(s@, k) ==> forall|i: int|
                hi <= i < s@.len() ==> (if strict {
                    lookup_key(#[trigger] s@[i], k) >= target
                } else {
                    lookup_key(#[trigger] s@[i], k) > target
                }),
        decreases hi - lo,
    {
        let mid = lo + (hi - lo) / 2;
        let key = lookup_key_exec(&s[mid], k);
        let below = if strict {
            key < target
        } else {
            key <= target
        };
        if below {
            proof {
                if sorted_by_key(s@, k) {
                    assert forall|i: int| from <= i < mid + 1 implies (if strict {
                        lookup_key(#[trigger] s@[i], k) < target
                    } else {
                        lookup_key(#[trigger] s@[i], k) <= target
                    }) by {
                        assert(lookup_key(s@[i], k) <= lookup_key(s@[mid as int], k));
                    }
                }
            }
            lo = mid + 1;
        } else {
            proof {
                if sorted_by_key(s@, k) {
                    assert forall|i: int| mid <= i < s@.len() implies (if strict {
                        lookup_key(#[trigger] s@[i], k) >= target
                    } else {
                        lookup_key(#[trigger] s@[i], k) > target
                    }) by {
                        assert(lookup_key(s@[mid as int], k) <= lookup_key(s@[i], k));
                    }
                }
            }
            hi = mid;
        }
    }
    lo
}

/// The slice of `s` whose key equals `target`.
fn match_slice<'a>(s: &'a [SummaryQuad], k: LookupKey, target: u64) -> (r: &'a [SummaryQuad])
    ensures
        is_match_slice(s@, r@, k, target as int),
        is_contiguous(s@, r@),
{
    let lo = key_partition(s, 0, k, target, true);
    let hi = key_partition(s, lo, k, target, false);
    let r = vstd::slice::slice_subrange(s, lo, hi);
    proof {
        let a = lo as int;
        let b = hi as int;
        if sorted_by_key(s@, k) {
            assert forall|i: int| a <= i < b implies lookup_key(#[trigger] s@[i], k) == target by {
                assert(lookup_key(s@[i], k) >= target);
                assert(lookup_key(s@[i], k) <= target);
            }
        }
        assert(r@ =~= s@.subrange(a, b));
    }
    r
}

/// `r` is a contiguous run of `s`.
pub open spec fn is_contiguous(s: Seq<SummaryQuad>, r: Seq<SummaryQuad>) -> bool {
    exists|a: int, b: int| 0 <= a <= b <= s.len() && r == s.subrange(a, b)
}

/// Filtering a sequence whose matches are exactly one window gives that window,
/// filtered again by what decides inside it.
proof fn lemma_filter_window<A>(
    s: Seq<A>,
    f: spec_fn(A) -> bool,
    g: spec_fn(A) -> bool,
    a: int,
    b: int,
)
    requires
        0 <= a <= b <= s.len(),
        forall|i: int| 0 <= i < s.len() && a <= i < b ==> f(#[trigger] s[i]) == g(s[i]),
        forall|i: int| 0 <= i < s.len() && !(a <= i < b) ==> !f(#[trigger] s[i]),
    ensures
        s.filter(f) == s.subrange(a, b).filter(g),
    decreases s.len(),
{
    reveal(Seq::filter);
    if s.len() == 0 {
        assert(s.subrange(a, b) =~= Seq::<A>::empty());
    } else {
        let n = s.len() - 1;
        let t = s.drop_last();
        let a2 = if a > n { n } else { a };
        let b2 = if b > n { n } else { b };
        assert forall|i: int| 0 <= i < t.len() && a2 <= i < b2 implies f(#[trigger] t[i]) == g(t[i]) by {
            assert(t[i] == s[i]);
        }
        assert forall|i: int| 0 <= i < t.len() && !(a2 <= i < b2) implies !f(#[trigger] t[i]) by {
            assert(t[i] == s[i]);
        }
        lemma_filter_window(t, f, g, a2, b2);
        assert(s.last() == s[n]);
        assert(s.drop_last() == t);
        if b == s.len() && a < b {
            let w = s.subrange(a, b);
            assert(f(s[n]) == g(s[n]));
            assert(w.drop_last() =~= t.subrange(a2, b2));
            assert(w.last() == s.last());
            assert(w.len() > 0);
        } else {
            assert(!f(s[n]));
            assert(s.subrange(a, b) =~= t.subrange(a2, b2));
        }
    }
}

/// Filtering by a predicate that holds everywhere changes nothing.
proof fn lemma_filter_all<A>(s: Seq<A>, g: spec_fn(A) -> bool)
    requires
        forall|i: int| 0 <= i < s.len() ==> g(#[trigger] s[i]),
    ensures
        s.filter(g) == s,
    decreases s.len(),
{
    reveal(Seq::filter);
    if s.len() > 0 {
        let t = s.drop_last();
        assert forall|i: int| 0 <= i < t.len() implies g(#[trigger] t[i]) by {
            assert(t[i] == s[i]);
        }
        lemma_filter_all(t, g);
        assert(g(s[s.len() - 1]));
        assert(s.drop_last() == t);
        assert(t.push(s.last()) =~= s);
    }
}

/// On a sorted view, the matching slice is the filter by any predicate that
/// agrees with "the key equals the target".
proof fn lemma_match_filter(
    s: Seq<SummaryQuad>,
    r: Seq<SummaryQuad>,
    k: LookupKey,
    t: int,
    f: spec_fn(SummaryQuad) -> bool,
)
    requires
        is_match_slice(s, r, k, t),
        sorted_by_key(s, k),
        forall|q: SummaryQuad| #[trigger] f(q) <==> lookup_key(q, k) == t,
    ensures
        r == s.filter(f),
{
    let (a, b) = choose|a: int, b: int|
        0 <= a <= b <= s.len() && r == s.subrange(a, b) && (sorted_by_key(s, k) ==> (forall|i: int|
            a <= i < b ==> lookup_key(#[trigger] s[i], k) == t) && (forall|i: int|
            0 <= i < s.len() && (i < a || i >= b) ==> lookup_key(#[trigger] s[i], k) != t));
    lemma_filter_window(s, f, f, a, b);
    assert forall|i: int| 0 <= i < r.len() implies f(#[trigger] r[i]) by {
        assert(r[i] == s[a + i]);
    }
    lemma_filter_all(r, f);
}

/// The three views sorted as a serialized index leaves them.
pub open spec fn index_sorted(v: (Seq<SummaryQuad>, Seq<SummaryQuad>, Seq<SummaryQuad>)) -> bool {
    &&& sorted_by_key(v.0, LookupKey::S)
    &&& sorted_by_key(v.0, LookupKey::SP)
    &&& sorted_by_key(v.1, LookupKey::PS)
    &&& sorted_by_key(v.1, LookupKey::P)
    &&& sorted_by_key(v.2, LookupKey::OP)
    &&& sorted_by_key(v.2, LookupKey::O)
}

/// The sum of the edge counts of some quads.
pub open spec fn edge_sum(s: Seq<SummaryQuad>) -> int
    decreases s.len(),
{
    if s.len() == 0 {
        0
    } else {
        edge_sum(s.drop_last()) + s.last().edge_count
    }
}

/// The quads with subject page `s`.
pub open spec fn with_s(s: u32) -> spec_fn(SummaryQuad) -> bool {
    |q: SummaryQuad| q.page_s == s
}

/// The quads with subject page `s` and predicate `p`.
pub open spec fn with_sp(s: u32, p: u32) -> spec_fn(SummaryQuad) -> bool {
    |q: SummaryQuad| q.page_s == s && q.predicate == p
}

/// The quads with predicate `p`.
pub open spec fn with_p(p: u32) -> spec_fn(SummaryQuad) -> bool {
    |q: SummaryQuad| q.predicate == p
}

/// The quads with object page `o` and predicate `p`.
pub open spec fn with_op(o: u32, p: u32) -> spec_fn(SummaryQuad) -> bool {
    |q: SummaryQuad| q.page_o == o && q.predicate == p
}

/// The quads with object page `o`.
pub open spec fn with_o(o: u32) -> spec_fn(SummaryQuad) -> bool {
    |q: SummaryQuad| q.page_o == o
}

/// The quads with predicate `p` and an object page in `lo..=hi`.
pub open spec fn with_o_range(lo: u32, hi: u32, p: u32) -> spec_fn(SummaryQuad) -> bool {
    |q: SummaryQuad| lo <= q.page_o <= hi && q.predicate == p
}

impl Clone for SummaryIndex {
    fn clone(&self) -> (r: Self)
        ensures
            r@ == self@,
    {
        proof {
            use_type_invariant(self);
        }
        let r = SummaryIndex { spo: self.spo.clone(), pso: self.pso.clone(), ops: self.ops.clone() };
        assert(r.spo@ =~= self.spo@);
        assert(r.pso@ =~= self.pso@);
        assert(r.ops@ =~= self.ops@);
        r
    }
}

impl SummaryIndex {
    #[verifier::type_invariant]
    closed spec fn sections_agree(self) -> bool {
        &&& self.spo@.len() <= u32::MAX
        &&& self.pso@.len() == self.spo@.len()
        &&& self.ops@.len() == self.spo@.len()
    }

    /// Lookup by subject page only: all quads from that page.
    pub fn lookup_s(&self, subj_page: u32) -> (r: &[SummaryQuad])
        ensures
            is_contiguous(self@.0, r@),
            index_sorted(self@) ==> r@ == self@.0.filter(with_s(subj_page)),
    {
        let t = subj_page as u64 * 0x1_0000_0000u64;
        let r = match_slice(self.spo.as_slice(), LookupKey::S, t);
        proof {
            if index_sorted(self@) {
                lemma_match_filter(self@.0, r@, LookupKey::S, t as int, with_s(subj_page));
            }
        }
        r
    }

    /// Lookup by (subject page, predicate).
    pub fn lookup_sp(&self, subj_page: u32, pred: u32) -> (r: &[SummaryQuad])
        ensures
            is_contiguous(self@.0, r@),
            index_sorted(self@) ==> r@ == self@.0.filter(with_sp(subj_page, pred)),
    {
        let t = subj_page as u64 * 0x1_0000_0000u64 + pred as u64;
        let r = match_slice(self.spo.as_slice(), LookupKey::SP, t);
        proof {
            if index_sorted(self@) {
                lemma_match_filter(self@.0, r@, LookupKey::SP, t as int, with_sp(subj_page, pred));
            }
        }
        r
    }

    /// Lookup by (predicate, subject page).
    pub fn lookup_ps(&self, pred: u32, subj_page: u32) -> (r: &[SummaryQuad])
        ensures
            is_contiguous(self@.1, r@),
            index_sorted(self@) ==> r@ == self@.1.filter(with_sp(subj_page, pred)),
    {
        let t = pred as u64 * 0x1_0000_0000u64 + subj_page as u64;
        let r = match_slice(self.pso.as_slice(), LookupKey::PS, t);
        proof {
            if index_sorted(self@) {
                lemma_match_filter(self@.1, r@, LookupKey::PS, t as int, with_sp(subj_page, pred));
            }
        }
        r
    }

    /// Lookup by predicate only.
    pub fn lookup_p(&self, pred: u32) -> (r: &[SummaryQuad])
        ensures
            is_contiguous(self@.1, r@),
            index_sorted(self@) ==> r@ == self@.1.filter(with_p(pred)),
    {
        let t = pred as u64 * 0x1_0000_0000u64;
        let r = match_slice(self.pso.as_slice(), LookupKey::P, t);
        proof {
            if index_sorted(self@) {
                lemma_match_filter(self@.1, r@, LookupKey::P, t as int, with_p(pred));
            }
        }
        r
    }

    /// Lookup by (object page, predicate).
    pub fn lookup_op(&self, obj_page: u32, pred: u32) -> (r: &[SummaryQuad])
        ensures
            is_contiguous(self@.2, r@),
            index_sorted(self@) ==> r@ == self@.2.filter(with_op(obj_page, pred)),
    {
        let t = obj_page as u64 * 0x1_0000_0000u64 + pred as u64;
        let r = match_slice(self.ops.as_slice(), LookupKey::OP, t);
        proof {
            if index_sorted(self@) {
                lemma_match_filter(self@.2, r@, LookupKey::OP, t as int, with_op(obj_page, pred));
            }
        }
        r
    }

    /// Lookup by object page only.
    pub fn lookup_o(&self, obj_page: u32) -> (r: &[SummaryQuad])
        ensures
            is_contiguous(self@.2, r@),
            index_sorted(self@) ==> r@ == self@.2.filter(with_o(obj_page)),
    {
        let t = obj_page as u64 * 0x1_0000_0000u64;
        let r = match_slice(self.ops.as_slice(), LookupKey::O, t);
        proof {
            if index_sorted(self@) {
                lemma_match_filter(self@.2, r@, LookupKey::O, t as int, with_o(obj_page));
            }
        }
        r
    }
}

impl SummaryIndex {
    /// Count total edges matching (predicate, object page) across all
    /// subject pages, from the summary alone.
    pub fn count_where(&self, pred: u32, obj_page: u32) -> (r: u64)
        ensures
            exists|sl: Seq<SummaryQuad>| is_contiguous(self@.2, sl) && r == edge_sum(sl),
            index_sorted(self@) ==> r == edge_sum(self@.2.filter(with_op(obj_page, pred))),
    {
        proof {
            use_type_invariant(self);
        }
        let sl = self.lookup_op(obj_page, pred);
        proof {
            let (a, b) = choose|a: int, b: int|
                0 <= a <= b <= self@.2.len() && sl@ == self@.2.subrange(a, b);
            assert(sl@.len() <= u32::MAX);
        }
        let mut total: u64 = 0;
        let mut i: usize = 0;
        while i < sl.len()
            invariant
                i <= sl@.len(),
                sl@.len() <= u32::MAX,
                total == edge_sum(sl@.take(i as int)),
                total <= i * 0xffff_ffffu64,
            decreases sl@.len() - i,
        {
            let e = sl[i].edge_count;
            proof {
                assert(sl@.take(i + 1).drop_last() =~= sl@.take(i as int));
                assert(i * 0xffff_ffffu64 + 0xffff_ffffu64 <= 0xffff_ffffu64 * 0xffff_ffffu64)
                    by (nonlinear_arith)
                    requires
                        i < 0xffff_ffffu64,
                ;
            }
            total = total + e as u64;
            i = i + 1;
        }
        assert(sl@.take(i as int) =~= sl@);
        total
    }

    /// All subject pages that have edges with (predicate, object page).
    pub fn subject_pages_for(&self, pred: u32, obj_page: u32) -> (r: Vec<u32>)
        ensures
            exists|sl: Seq<SummaryQuad>|
                is_contiguous(self@.2, sl) && r@ == sl.map_values(|q: SummaryQuad| q.page_s),
            index_sorted(self@) ==> r@ == self@.2.filter(with_op(obj_page, pred)).map_values(
                |q: SummaryQuad| q.page_s,
            ),
    {
        let sl = self.lookup_op(obj_page, pred);
        let mut r: Vec<u32> = Vec::new();
        let mut i: usize = 0;
        while i < sl.len()
            invariant
                i <= sl@.len(),
                r@ =~= sl@.take(i as int).map_values(|q: SummaryQuad| q.page_s),
            decreases sl@.len() - i,
        {
            r.push(sl[i].page_s);
            i = i + 1;
        }
        assert(sl@.take(i as int) =~= sl@);
        r
    }

    /// All object pages reachable from a subject page via a predicate.
    pub fn object_pages_for(&self, subj_page: u32, pred: u32) -> (r: Vec<u32>)
        ensures
            exists|sl: Seq<SummaryQuad>|
                is_contiguous(self@.0, sl) && r@ == sl.map_values(|q: SummaryQuad| q.page_o),
            index_sorted(self@) ==> r@ == self@.0.filter(with_sp(subj_page, pred)).map_values(
                |q: SummaryQuad| q.page_o,
            ),
    {
        let sl = self.lookup_sp(subj_page, pred);
        let mut r: Vec<u32> = Vec::new();
        let mut i: usize = 0;
        while i < sl.len()
            invariant
                i <= sl@.len(),
                r@ =~= sl@.take(i as int).map_values(|q: SummaryQuad| q.page_o),
            decreases sl@.len() - i,
        {
            r.push(sl[i].page_o);
            i = i + 1;
        }
        assert(sl@.take(i as int) =~= sl@);
        r
    }

    /// Range lookup on the OPS view: all quads with `lo <= page_o <= hi` and
    /// the given predicate, in OPS order.
    pub fn lookup_op_range(&self, lo: u32, hi: u32, pred: u32) -> (r: Vec<SummaryQuad>)
        ensures
            exists|a: int, b: int|
                0 <= a <= b <= self@.2.len() && r@ == self@.2.subrange(a, b).filter(with_p(pred)),
            index_sorted(self@) ==> r@ == self@.2.filter(with_o_range(lo, hi, pred)),
    {
        let ops = self.ops.as_slice();
        let start = key_partition(ops, 0, LookupKey::O, lo as u64 * 0x1_0000_0000u64, true);
        let end = key_partition(ops, start, LookupKey::O, hi as u64 * 0x1_0000_0000u64, false);
        let mut r: Vec<SummaryQuad> = Vec::new();
        let mut i: usize = start;
        while i < end
            invariant
                start <= i <= end <= ops@.len(),
                ops@ == self@.2,
                r@ == ops@.subrange(start as int, i as int).filter(with_p(pred)),
            decreases end - i,
        {
            let q = ops[i];
            proof {
                reveal(Seq::filter);
                let w = ops@.subrange(start as int, i + 1);
                assert(w.drop_last() =~= ops@.subrange(start as int, i as int));
                assert(w.last() == q);
            }
            if q.predicate == pred {
                r.push(q);
            }
            i = i + 1;
        }
        proof {
            if index_sorted(self@) {
                let s = self@.2;
                assert forall|j: int|
                    0 <= j < s.len() && start <= j < end implies with_o_range(lo, hi, pred)(
                    #[trigger] s[j],
                ) == with_p(pred)(s[j]) by {
                    assert(lookup_key(s[j], LookupKey::O) >= lo * 0x1_0000_0000);
                    assert(lookup_key(s[j], LookupKey::O) <= hi * 0x1_0000_0000);
                }
                assert forall|j: int|
                    0 <= j < s.len() && !(start <= j < end) implies !with_o_range(lo, hi, pred)(
                    #[trigger] s[j],
                ) by {
                    if j < start {
                        assert(lookup_key(s[j], LookupKey::O) < lo * 0x1_0000_0000);
                    } else {
                        assert(lookup_key(s[j], LookupKey::O) > hi * 0x1_0000_0000);
                    }
                }
                lemma_filter_window(s, with_o_range(lo, hi, pred), with_p(pred), start as int, end as int);
            }
        }
        r
    }

    /// Total quads in the index.
    pub fn len(&self) -> (r: usize)
        ensures
            r == self@.0.len(),
    {
        self.spo.len()
    }

    /// Whether the index holds no quads.
    pub fn is_empty(&self) -> (r: bool)
        ensures
            r == (self@.0.len() == 0),
    {
        self.spo.len() == 0
    }
}

// ---------------------------------------------------------------------------
// Round trip
// ---------------------------------------------------------------------------

proof fn lemma_quad_at(a: Seq<u8>, q: SummaryQuad, b: Seq<u8>)
    ensures
        quad_bytes(q).len() == 20,
        quad_at(a + quad_bytes(q) + b, a.len() as int) == q,
{
    let e = Seq::<u8>::empty();
    let x = quad_bytes(q);
    let l1 = le32(q.page_s);
    let l2 = le32(q.predicate);
    let l3 = le32(q.page_o);
    let l4 = le32(q.edge_count);
    let l5 = le32(q.subject_count);
    assert(x =~= e + l1 + (l2 + l3 + l4 + l5));
    assert(x =~= l1 + l2 + (l3 + l4 + l5));
    assert(x =~= (l1 + l2) + l3 + (l4 + l5));
    assert(x =~= (l1 + l2 + l3) + l4 + l5);
    assert(x =~= (l1 + l2 + l3 + l4) + l5 + e);
    lemma_get_le32_at(e, q.page_s, l2 + l3 + l4 + l5);
    lemma_get_le32_at(l1, q.predicate, l3 + l4 + l5);
    lemma_get_le32_at(l1 + l2, q.page_o, l4 + l5);
    lemma_get_le32_at(l1 + l2 + l3, q.edge_count, l5);
    lemma_get_le32_at(l1 + l2 + l3 + l4, q.subject_count, e);
    lemma_get_le32_shift(a, x, b, 0);
    lemma_get_le32_shift(a, x, b, 4);
    lemma_get_le32_shift(a, x, b, 8);
    lemma_get_le32_shift(a, x, b, 12);
    lemma_get_le32_shift(a, x, b, 16);
}

proof fn lemma_quad_at_shift(a: Seq<u8>, x: Seq<u8>, b: Seq<u8>, p: int)
    requires
        0 <= p,
        p + 20 <= x.len(),
    ensures
        quad_at(a + x + b, a.len() + p) == quad_at(x, p),
{
    lemma_get_le32_shift(a, x, b, p);
    lemma_get_le32_shift(a, x, b, p + 4);
    lemma_get_le32_shift(a, x, b, p + 8);
    lemma_get_le32_shift(a, x, b, p + 12);
    lemma_get_le32_shift(a, x, b, p + 16);
}

proof fn lemma_quads_bytes_len(qs: Seq<SummaryQuad>)
    ensures
        quads_bytes(qs).len() == 20 * qs.len(),
    decreases qs.len(),
{
    if qs.len() > 0 {
        lemma_quads_bytes_len(qs.drop_last());
    }
}

proof fn lemma_quads_bytes_index(qs: Seq<SummaryQuad>, i: int)
    requires
        0 <= i < qs.len(),
    ensures
        quad_at(quads_bytes(qs), 20 * i) == qs[i],
    decreases qs.len(),
{
    let init = qs.drop_last();
    lemma_quads_bytes_len(init);
    lemma_quads_bytes_len(qs);
    if i == qs.len() - 1 {
        lemma_quad_at(quads_bytes(init), qs.last(), Seq::empty());
        assert(quads_bytes(init) + quad_bytes(qs.last()) + Seq::<u8>::empty() == quads_bytes(qs));
    } else {
        lemma_quads_bytes_index(init, i);
        let t = quads_bytes(init);
        lemma_quad_at_shift(Seq::empty(), t, quad_bytes(qs.last()), 20 * i);
        assert(Seq::<u8>::empty() + t + quad_bytes(qs.last()) == quads_bytes(qs));
    }
}

/// A section embedded in a byte string parses back to its quads.
proof fn lemma_section_at(a: Seq<u8>, qs: Seq<SummaryQuad>, b: Seq<u8>)
    ensures
        section_at(a + quads_bytes(qs) + b, a.len() as int, qs.len() as int) == qs,
{
    lemma_quads_bytes_len(qs);
    let data = a + quads_bytes(qs) + b;
    assert forall|i: int| 0 <= i < qs.len() implies #[trigger] quad_at(data, a.len() + 20 * i)
        == qs[i] by {
        lemma_quads_bytes_index(qs, i);
        lemma_quad_at_shift(a, quads_bytes(qs), b, 20 * i);
    }
    assert(section_at(data, a.len() as int, qs.len() as int) =~= qs);
}

proof fn lemma_stable_sorted_props(qs: Seq<SummaryQuad>, ord: QuadOrder)
    requires
        qs.len() <= i64::MAX,
    ensures
        stable_sorted(qs, ord).len() == qs.len(),
        forall|i: int, j: int|
            0 <= i <= j < qs.len() ==> Key4::key_le(
                #[trigger] order_key(stable_sorted(qs, ord)[i], ord, 0),
                #[trigger] order_key(stable_sorted(qs, ord)[j], ord, 0),
            ) || (order_key(stable_sorted(qs, ord)[i], ord, 0).a == order_key(
                stable_sorted(qs, ord)[j],
                ord,
                0,
            ).a && order_key(stable_sorted(qs, ord)[i], ord, 0).b == order_key(
                stable_sorted(qs, ord)[j],
                ord,
                0,
            ).b && order_key(stable_sorted(qs, ord)[i], ord, 0).c == order_key(
                stable_sorted(qs, ord)[j],
                ord,
                0,
            ).c),
{
    let tk = tagged_keys(qs, ord);
    let ks = tk.sort_by(leq::<Key4>());
    Key4::lemma_total();
    tk.lemma_sort_by_ensures(leq::<Key4>());
    assert(ks.to_multiset().len() == tk.to_multiset().len());
    let ss = stable_sorted(qs, ord);
    assert forall|i: int| 0 <= i < ks.len() implies (0 <= #[trigger] ks[i].d < qs.len() && ks[i]
        == order_key(qs[ks[i].d as int], ord, ks[i].d as int)) by {
        assert(ks.contains(ks[i]));
        assert(tk.contains(ks[i]));
        let k = choose|k: int| 0 <= k < tk.len() && tk[k] == ks[i];
    }
    assert forall|i: int, j: int| 0 <= i <= j < qs.len() implies Key4::key_le(
        #[trigger] order_key(ss[i], ord, 0),
        #[trigger] order_key(ss[j], ord, 0),
    ) || (order_key(ss[i], ord, 0).a == order_key(ss[j], ord, 0).a && order_key(ss[i], ord, 0).b
        == order_key(ss[j], ord, 0).b && order_key(ss[i], ord, 0).c == order_key(
        ss[j],
        ord,
        0,
    ).c) by {
        if i < j {
            assert(leq::<Key4>()(ks[i], ks[j]));
        }
        assert(0 <= ks[i].d < qs.len());
        assert(0 <= ks[j].d < qs.len());
    }
}

/// The views of a serialized index are sorted the way the lookups need.
proof fn lemma_stable_sorted_index_sorted(qs: Seq<SummaryQuad>)
    requires
        qs.len() <= i64::MAX,
    ensures
        index_sorted(
            (
                stable_sorted(qs, QuadOrder::Spo),
                stable_sorted(qs, QuadOrder::Pso),
                stable_sorted(qs, QuadOrder::Ops),
            ),
        ),
{
    lemma_stable_sorted_props(qs, QuadOrder::Spo);
    lemma_stable_sorted_props(qs, QuadOrder::Pso);
    lemma_stable_sorted_props(qs, QuadOrder::Ops);
    let s0 = stable_sorted(qs, QuadOrder::Spo);
    let s1 = stable_sorted(qs, QuadOrder::Pso);
    let s2 = stable_sorted(qs, QuadOrder::Ops);
    assert forall|i: int, j: int| 0 <= i <= j < s0.len() implies lookup_key(s0[i], LookupKey::S)
        <= lookup_key(s0[j], LookupKey::S) && lookup_key(s0[i], LookupKey::SP) <= lookup_key(
        s0[j],
        LookupKey::SP,
    ) by {
        assert(Key4::key_le(order_key(s0[i], QuadOrder::Spo, 0), order_key(s0[j], QuadOrder::Spo, 0))
            || (order_key(s0[i], QuadOrder::Spo, 0).a == order_key(s0[j], QuadOrder::Spo, 0).a
            && order_key(s0[i], QuadOrder::Spo, 0).b == order_key(s0[j], QuadOrder::Spo, 0).b
            && order_key(s0[i], QuadOrder::Spo, 0).c == order_key(s0[j], QuadOrder::Spo, 0).c));
    }
    assert forall|i: int, j: int| 0 <= i <= j < s1.len() implies lookup_key(s1[i], LookupKey::P)
        <= lookup_key(s1[j], LookupKey::P) && lookup_key(s1[i], LookupKey::PS) <= lookup_key(
        s1[j],
        LookupKey::PS,
    ) by {
        assert(Key4::key_le(order_key(s1[i], QuadOrder::Pso, 0), order_key(s1[j], QuadOrder::Pso, 0))
            || (order_key(s1[i], QuadOrder::Pso, 0).a == order_key(s1[j], QuadOrder::Pso, 0).a
            && order_key(s1[i], QuadOrder::Pso, 0).b == order_key(s1[j], QuadOrder::Pso, 0).b
            && order_key(s1[i], QuadOrder::Pso, 0).c == order_key(s1[j], QuadOrder::Pso, 0).c));
    }
    assert forall|i: int, j: int| 0 <= i <= j < s2.len() implies lookup_key(s2[i], LookupKey::O)
        <= lookup_key(s2[j], LookupKey::O) && lookup_key(s2[i], LookupKey::OP) <= lookup_key(
        s2[j],
        LookupKey::OP,
    ) by {
        assert(Key4::key_le(order_key(s2[i], QuadOrder::Ops, 0), order_key(s2[j], QuadOrder::Ops, 0))
            || (order_key(s2[i], QuadOrder::Ops, 0).a == order_key(s2[j], QuadOrder::Ops, 0).a
            && order_key(s2[i], QuadOrder::Ops, 0).b == order_key(s2[j], QuadOrder::Ops, 0).b
            && order_key(s2[i], QuadOrder::Ops, 0).c == order_key(s2[j], QuadOrder::Ops, 0).c));
    }
}

#[verifier::rlimit(40)]
proof fn lemma_summary_header(qs: Seq<SummaryQuad>)
    requires
        21 + 40 * qs.len() <= u32::MAX,
    ensures
        summary_prelude_ok(spec_summary_file(qs)),
        get_le32(spec_summary_file(qs), 5) == qs.len(),
        get_le32(spec_summary_file(qs), 9) == 21,
        get_le32(spec_summary_file(qs), 13) == 21 + 20 * qs.len(),
        get_le32(spec_summary_file(qs), 17) == 21 + 40 * qs.len(),
        spec_summary_file(qs).len() == 21 + 60 * qs.len(),
{
    let n = qs.len();
    let s0 = stable_sorted(qs, QuadOrder::Spo);
    let s1 = stable_sorted(qs, QuadOrder::Pso);
    let s2 = stable_sorted(qs, QuadOrder::Ops);
    lemma_stable_sorted_props(qs, QuadOrder::Spo);
    lemma_stable_sorted_props(qs, QuadOrder::Pso);
    lemma_stable_sorted_props(qs, QuadOrder::Ops);
    lemma_quads_bytes_len(s0);
    lemma_quads_bytes_len(s1);
    lemma_quads_bytes_len(s2);
    let mg = summary_magic() + seq![1u8];
    let ln = le32(n as u32);
    let l1 = le32(21u32);
    let l2 = le32((21 + 20 * n) as u32);
    let l3 = le32((21 + 40 * n) as u32);
    let q = quads_bytes(s0) + quads_bytes(s1) + quads_bytes(s2);
    reveal(spec_summary_file);
    let data = spec_summary_file(qs);
    assert(data =~= mg + ln + l1 + l2 + l3 + q);
    assert(data =~= mg + ln + (l1 + l2 + l3 + q));
    lemma_get_le32_at(mg, n as u32, l1 + l2 + l3 + q);
    assert(data =~= (mg + ln) + l1 + (l2 + l3 + q));
    lemma_get_le32_at(mg + ln, 21u32, l2 + l3 + q);
    assert(data =~= (mg + ln + l1) + l2 + (l3 + q));
    lemma_get_le32_at(mg + ln + l1, (21 + 20 * n) as u32, l3 + q);
    assert(data =~= (mg + ln + l1 + l2) + l3 + q);
    lemma_get_le32_at(mg + ln + l1 + l2, (21 + 40 * n) as u32, q);
    assert(data.subrange(0, 4) =~= summary_magic());
    assert(data[4] == 1);
}

proof fn lemma_summary_sections(qs: Seq<SummaryQuad>)
    requires
        21 + 40 * qs.len() <= u32::MAX,
    ensures
        section_at(spec_summary_file(qs), 21, qs.len() as int) == stable_sorted(qs, QuadOrder::Spo),
        section_at(spec_summary_file(qs), (21 + 20 * qs.len()) as int, qs.len() as int) == stable_sorted(
            qs,
            QuadOrder::Pso,
        ),
        section_at(spec_summary_file(qs), (21 + 40 * qs.len()) as int, qs.len() as int) == stable_sorted(
            qs,
            QuadOrder::Ops,
        ),
{
    let n = qs.len();
    let s0 = stable_sorted(qs, QuadOrder::Spo);
    let s1 = stable_sorted(qs, QuadOrder::Pso);
    let s2 = stable_sorted(qs, QuadOrder::Ops);
    lemma_stable_sorted_props(qs, QuadOrder::Spo);
    lemma_stable_sorted_props(qs, QuadOrder::Pso);
    lemma_stable_sorted_props(qs, QuadOrder::Ops);
    lemma_quads_bytes_len(s0);
    lemma_quads_bytes_len(s1);
    lemma_quads_bytes_len(s2);
    let h = summary_magic() + seq![1u8] + le32(n as u32) + le32(21u32) + le32((21 + 20 * n) as u32)
        + le32((21 + 40 * n) as u32);
    let q0 = quads_bytes(s0);
    let q1 = quads_bytes(s1);
    let q2 = quads_bytes(s2);
    reveal(spec_summary_file);
    let data = spec_summary_file(qs);
    assert(h.len() == 21);
    assert(data =~= h + q0 + (q1 + q2));
    lemma_section_at(h, s0, q1 + q2);
    assert(data =~= (h + q0) + q1 + q2);
    lemma_section_at(h + q0, s1, q2);
    assert(data =~= (h + q0 + q1) + q2 + Seq::<u8>::empty());
    lemma_section_at(h + q0 + q1, s2, Seq::empty());
}

/// Reading back a serialized summary gives its quads in SPO, PSO and OPS
/// order, sorted the way every lookup needs, so each lookup on it returns
/// exactly the quads that match.
pub proof fn lemma_summary_roundtrip(qs: Seq<SummaryQuad>)
    requires
        21 + 40 * qs.len() <= u32::MAX,
        21 + 60 * qs.len() <= usize::MAX,
    ensures
        summary_sections_in_bounds(spec_summary_file(qs)),
        spec_parse_summary(spec_summary_file(qs)) == Some(
            (
                stable_sorted(qs, QuadOrder::Spo),
                stable_sorted(qs, QuadOrder::Pso),
                stable_sorted(qs, QuadOrder::Ops),
            ),
        ),
        index_sorted(
            (
                stable_sorted(qs, QuadOrder::Spo),
                stable_sorted(qs, QuadOrder::Pso),
                stable_sorted(qs, QuadOrder::Ops),
            ),
        ),
{
    let data = spec_summary_file(qs);
    let n = qs.len() as int;
    lemma_summary_header(qs);
    lemma_summary_sections(qs);
    assert(summary_prelude_ok(data));
    assert(get_le32(data, 17) + 20 * n <= usize::MAX);
    assert(data.len() >= get_le32(data, 17) + 20 * n);
    assert(summary_sections_in_bounds(data));
    assert(section_at(data, get_le32(data, 9) as int, get_le32(data, 5) as int) == stable_sorted(
        qs,
        QuadOrder::Spo,
    ));
    assert(section_at(data, get_le32(data, 13) as int, get_le32(data, 5) as int) == stable_sorted(
        qs,
        QuadOrder::Pso,
    ));
    assert(section_at(data, get_le32(data, 17) as int, get_le32(data, 5) as int) == stable_sorted(
        qs,
        QuadOrder::Ops,
    ));
    lemma_stable_sorted_index_sorted(qs);
}

} // verus!
