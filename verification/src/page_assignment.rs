//! Page assignment: resources are grouped by graph (graphs in byte order of
//! their ids), ordered within a group by their Hilbert key (ties by input
//! position), and each group is cut into pages of at most the target size.

use vstd::prelude::*;
use vstd::relations::sorted_by;
use vstd::utf8::encode_utf8;
use crate::dictionary::{distinct_terms, sort_ids_by_term, term_bytes};
use crate::sort::{leq, merge_sort, SortKey};
use crate::text::{lex_lt, str_eq};

verus! {

broadcast use vstd::seq_lib::group_to_multiset_ensures;

/// A resource's sort key: its graph's rank, its Hilbert key, its position.
#[derive(Clone, Copy, Debug, PartialEq, Eq, Structural)]
pub struct PageKey {
    pub rank: u64,
    pub key: u64,
    pub index: u64,
}

impl SortKey for PageKey {
    open spec fn key_le(x: PageKey, y: PageKey) -> bool {
        x.rank < y.rank || (x.rank == y.rank && (x.key < y.key || (x.key == y.key && x.index
            <= y.index)))
    }

    proof fn lemma_total() {
    }

    fn le(x: &PageKey, y: &PageKey) -> (r: bool) {
        x.rank < y.rank || (x.rank == y.rank && (x.key < y.key || (x.key == y.key && x.index
            <= y.index)))
    }
}

/// A page: a run of positions of the page order.
#[derive(Clone, Copy, Debug, PartialEq, Eq, Structural)]
pub struct PageSpan {
    pub start: usize,
    pub len: usize,
}

/// The page order and the pages cut from it.
pub struct PagePlan {
    /// Resource indices in page order.
    pub order: Vec<usize>,
    /// Page `k` holds `order[start..start + len]`.
    pub pages: Vec<PageSpan>,
}

/// The UTF-8 bytes of the graph id of resource `i`.
pub open spec fn gid_bytes(gids: Seq<String>, i: int) -> Seq<u8> {
    encode_utf8(gids[i]@)
}

/// Resource `a` comes before resource `b`: its graph id is smaller, or the
/// graphs are the same and its key is smaller, or the keys tie and it comes
/// first in the input.
pub open spec fn placed_before(gids: Seq<String>, keys: Seq<u64>, a: int, b: int) -> bool {
    lex_lt(gid_bytes(gids, a), gid_bytes(gids, b)) || (gids[a]@ == gids[b]@ && (keys[a] < keys[b]
        || (keys[a] == keys[b] && a < b)))
}

/// `order` lists every resource once, in `placed_before` order.
pub open spec fn page_order_ok(gids: Seq<String>, keys: Seq<u64>, order: Seq<usize>) -> bool {
    &&& order.len() == gids.len()
    &&& forall|k: int| 0 <= k < order.len() ==> (#[trigger] order[k] as int) < gids.len()
    &&& forall|i: int, j: int|
        0 <= i < j < order.len() ==> placed_before(
            gids,
            keys,
            #[trigger] order[i] as int,
            #[trigger] order[j] as int,
        )
}

/// The resources at positions `p` and `q` of the order share a graph.
pub open spec fn same_graph(gids: Seq<String>, order: Seq<usize>, p: int, q: int) -> bool {
    gids[order[p] as int]@ == gids[order[q] as int]@
}

/// `pages` cut `order` into consecutive runs of at most `size` resources of
/// one graph, each run as long as it can be: a page ends before `size` only
/// where the graph changes.
pub open spec fn pages_ok(gids: Seq<String>, order: Seq<usize>, pages: Seq<PageSpan>, size: int) -> bool {
    let n = order.len();
    &&& (n == 0) == (pages.len() == 0)
    &&& pages.len() > 0 ==> pages[0].start == 0 && pages.last().start + pages.last().len == n
    &&& forall|k: int|
        0 <= k < pages.len() - 1 ==> (#[trigger] pages[k + 1]).start == pages[k].start
            + pages[k].len
    &&& forall|k: int| 0 <= k < pages.len() ==> 1 <= (#[trigger] pages[k]).len <= size
    &&& forall|k: int, p: int|
        0 <= k < pages.len() && pages[k].start <= p < pages[k].start + pages[k].len
            ==> #[trigger] same_graph(gids, order, pages[k].start as int, p)
    &&& forall|k: int|
        0 <= k < pages.len() - 1 ==> (#[trigger] pages[k]).len == size || !same_graph(
            gids,
            order,
            pages[k].start + pages[k].len - 1,
            pages[k].start + pages[k].len,
        )
}

/// The distinct graph ids in first-occurrence order, and the position of
/// each resource's graph id among them.
#[verifier::rlimit(50)]
#[verifier::spinoff_prover]
fn group_graphs(gids: &[String]) -> (r: (Vec<String>, Vec<usize>))
    ensures
        distinct_terms(r.0@.map_values(|s: String| s@)),
        r.0@.len() <= gids@.len(),
        r.1@.len() == gids@.len(),
        forall|i: int|
            0 <= i < gids@.len() ==> (#[trigger] r.1@[i] as int) < r.0@.len() && r.0@[r.1@[i] as int]@
                == gids@[i]@,
{
    let mut ds: Vec<String> = Vec::new();
    let mut gidx: Vec<usize> = Vec::new();
    let mut i: usize = 0;
    while i < gids.len()
        invariant
            i <= gids@.len(),
            ds@.len() <= i,
            gidx@.len() == i,
            distinct_terms(ds@.map_values(|s: String| s@)),
            forall|k: int|
                0 <= k < i ==> (#[trigger] gidx@[k] as int) < ds@.len() && ds@[gidx@[k] as int]@
                    == gids@[k]@,
        decreases gids@.len() - i,
    {
        let mut j: usize = 0;
        let mut found = false;
        while j < ds.len() && !found
            invariant
                i < gids@.len(),
                j <= ds@.len(),
                found ==> j < ds@.len() && ds@[j as int]@ == gids@[i as int]@,
                forall|m: int| 0 <= m < j ==> ds@[m]@ != gids@[i as int]@,
            decreases ds@.len() - j + if found { 0int } else { 1int },
        {
            if str_eq(ds[j].as_str(), gids[i].as_str()) {
                found = true;
            } else {
                j = j + 1;
            }
        }
        let ghost before = ds@;
        if !found {
            ds.push(gids[i].clone());
            proof {
                let dv = ds@.map_values(|s: String| s@);
                assert forall|a: int, b: int| 0 <= a < b < dv.len() implies #[trigger] dv[a]
                    != #[trigger] dv[b] by {
                    if b == dv.len() - 1 {
                        assert(dv[a] == before[a]@);
                    } else {
                        assert(dv[a] == before.map_values(|s: String| s@)[a]);
                        assert(dv[b] == before.map_values(|s: String| s@)[b]);
                    }
                }
            }
        }
        gidx.push(j);
        proof {
            assert forall|k: int| 0 <= k < i + 1 implies (#[trigger] gidx@[k] as int) < ds@.len()
                && ds@[gidx@[k] as int]@ == gids@[k]@ by {
                if k < i {
                    assert(ds@[gidx@[k] as int] == before[gidx@[k] as int]);
                }
            }
        }
        i = i + 1;
    }
    (ds, gidx)
}

/// Graph group indices agree with graph ids: two resources share a group
/// exactly when they share a graph id.
pub open spec fn groups_agree(gids: Seq<String>, gidx: Seq<usize>, ds: Seq<String>) -> bool {
    &&& gidx.len() == gids.len()
    &&& distinct_terms(ds.map_values(|s: String| s@))
    &&& forall|i: int|
        0 <= i < gids.len() ==> (#[trigger] gidx[i] as int) < ds.len() && ds[gidx[i] as int]@
            == gids[i]@
}

proof fn lemma_same_group(gids: Seq<String>, gidx: Seq<usize>, ds: Seq<String>, a: int, b: int)
    requires
        groups_agree(gids, gidx, ds),
        0 <= a < gids.len(),
        0 <= b < gids.len(),
    ensures
        (gidx[a] == gidx[b]) == (gids[a]@ == gids[b]@),
{
    if gidx[a] != gidx[b] {
        let dv = ds.map_values(|s: String| s@);
        if gidx[a] < gidx[b] {
            assert(dv[gidx[a] as int] != dv[gidx[b] as int]);
        } else {
            assert(dv[gidx[b] as int] != dv[gidx[a] as int]);
        }
    }
}

/// Cut the order into pages.
#[verifier::rlimit(50)]
#[verifier::spinoff_prover]
fn cut_pages(
    gids: &[String],
    order: &Vec<usize>,
    gidx: &Vec<usize>,
    ds: Ghost<Seq<String>>,
    size: usize,
) -> (r: Vec<PageSpan>)
    requires
        size >= 1,
        order@.len() == gids@.len(),
        forall|k: int| 0 <= k < order@.len() ==> (#[trigger] order@[k] as int) < gids@.len(),
        groups_agree(gids@, gidx@, ds@),
    ensures
        pages_ok(gids@, order@, r@, size as int),
{
    let n = order.len();
    let mut pages: Vec<PageSpan> = Vec::new();
    let mut p: usize = 0;
    while p < n
        invariant
            n == order@.len(),
            order@.len() == gids@.len(),
            forall|k: int| 0 <= k < order@.len() ==> (#[trigger] order@[k] as int) < gids@.len(),
            groups_agree(gids@, gidx@, ds@),
            size >= 1,
            p <= n,
            (pages@.len() == 0) == (p == 0),
            pages@.len() > 0 ==> pages@[0].start == 0 && pages@.last().start + pages@.last().len
                == p,
            forall|k: int|
                0 <= k < pages@.len() - 1 ==> (#[trigger] pages@[k + 1]).start == pages@[k].start
                    + pages@[k].len,
            forall|k: int| 0 <= k < pages@.len() ==> 1 <= (#[trigger] pages@[k]).len <= size,
            forall|k: int, m: int|
                0 <= k < pages@.len() && pages@[k].start <= m < pages@[k].start
                    + pages@[k].len ==> #[trigger] same_graph(gids@, order@, pages@[k].start as int, m),
            forall|k: int|
                0 <= k < pages@.len() - 1 ==> (#[trigger] pages@[k]).len == size || !same_graph(
                    gids@,
                    order@,
                    pages@[k].start + pages@[k].len - 1,
                    pages@[k].start + pages@[k].len,
                ),
            pages@.len() > 0 && p < n ==> pages@.last().len == size || !same_graph(
                gids@,
                order@,
                p - 1,
                p as int,
            ),
        decreases n - p,
    {
        let start = p;
        let grp = gidx[order[p]];
        let mut q = p + 1;
        while q < n && q - start < size && gidx[order[q]] == grp
            invariant
                n == order@.len(),
                order@.len() == gids@.len(),
                forall|k: int| 0 <= k < order@.len() ==> (#[trigger] order@[k] as int) < gids@.len(),
                groups_agree(gids@, gidx@, ds@),
                start < q <= n,
                q - start <= size,
                grp == gidx@[order@[start as int] as int],
                forall|m: int| start <= m < q ==> gidx@[#[trigger] order@[m] as int] == grp,
            decreases n - q,
        {
            q = q + 1;
        }
        let ghost old_pages = pages@;
        pages.push(PageSpan { start, len: q - start });
        proof {
            assert forall|m: int| start <= m < q implies same_graph(
                gids@,
                order@,
                start as int,
                m,
            ) by {
                assert(gidx@[order@[m] as int] == grp);
                lemma_same_group(gids@, gidx@, ds@, order@[start as int] as int, order@[m] as int);
            }
            if q < n && q - start < size {
                assert(gidx@[order@[q as int] as int] != grp);
                assert(gidx@[order@[q - 1] as int] == grp);
                lemma_same_group(gids@, gidx@, ds@, order@[q - 1] as int, order@[q as int] as int);
            }
            let np = pages@;
            assert forall|k: int|
                0 <= k < np.len() - 1 implies (#[trigger] np[k + 1]).start == np[k].start
                + np[k].len by {
                if k + 1 < np.len() - 1 {
                    assert(np[k + 1] == old_pages[k + 1]);
                    assert(np[k] == old_pages[k]);
                }
            }
            assert forall|k: int, m: int|
                0 <= k < np.len() && np[k].start <= m < np[k].start + np[k].len
                    implies #[trigger] same_graph(gids@, order@, np[k].start as int, m) by {
                if k < np.len() - 1 {
                    assert(np[k] == old_pages[k]);
                }
            }
            assert forall|k: int| 0 <= k < np.len() - 1 implies (#[trigger] np[k]).len == size
                || !same_graph(
                gids@,
                order@,
                np[k].start + np[k].len - 1,
                np[k].start + np[k].len,
            ) by {
                assert(np[k] == old_pages[k]);
            }
        }
        p = q;
    }
    pages
}

/// `d` occurs in `s`.
pub open spec fn occurs(s: Seq<u32>, d: int) -> bool {
    exists|q: int| 0 <= q < s.len() && #[trigger] s[q] == d
}

proof fn lemma_rank_order(
    dv: Seq<Seq<char>>,
    sorted: Seq<u32>,
    rank: Seq<u64>,
    d1: int,
    d2: int,
)
    requires
        crate::dictionary::sorted_ids_of(dv, sorted),
        rank.len() == dv.len(),
        forall|q: int| 0 <= q < dv.len() ==> rank[#[trigger] sorted[q] as int] == q,
        sorted.len() == dv.len(),
        forall|d: int| 0 <= d < dv.len() ==> #[trigger] occurs(sorted, d),
        0 <= d1 < dv.len(),
        0 <= d2 < dv.len(),
    ensures
        rank[d1] < rank[d2] ==> lex_lt(term_bytes(dv, d1 as u32), term_bytes(dv, d2 as u32)),
        rank[d1] == rank[d2] ==> d1 == d2,
{
    assert(occurs(sorted, d1));
    assert(occurs(sorted, d2));
    let q1 = choose|q: int| 0 <= q < sorted.len() && #[trigger] sorted[q] == d1;
    let q2 = choose|q: int| 0 <= q < sorted.len() && #[trigger] sorted[q] == d2;
    assert(rank[d1] == q1);
    assert(rank[d2] == q2);
    if q1 < q2 {
        assert(lex_lt(term_bytes(dv, sorted[q1]), term_bytes(dv, sorted[q2])));
    }
}

/// Order resources for page assignment and cut the order into pages:
/// graphs in byte order of their ids, within a graph by key (ties in input
/// order), and each graph's run cut into pages of `target_page_size`
/// resources, the last of a graph possibly shorter.
#[verifier::rlimit(50)]
#[verifier::spinoff_prover]
pub fn plan_pages(gids: &[String], keys: &[u64], target_page_size: usize) -> (r: PagePlan)
    requires
        gids@.len() == keys@.len(),
        gids@.len() <= u32::MAX,
        target_page_size >= 1,
    ensures
        page_order_ok(gids@, keys@, r.order@),
        pages_ok(gids@, r.order@, r.pages@, target_page_size as int),
{
    let n = gids.len();
    let (ds, gidx) = group_graphs(gids);
    let ghost dv = ds@.map_values(|s: String| s@);
    let sorted = sort_ids_by_term(&ds);
    let g = ds.len();
    let ghost iota = Seq::new(g as nat, |k: int| k as u32);
    proof {
        assert(sorted@.no_duplicates()) by {
            assert forall|a: int, b: int| 0 <= a < b < sorted@.len() implies sorted@[a]
                != sorted@[b] by {
                crate::text::lemma_lex_irreflexive(term_bytes(dv, sorted@[a]));
            }
        }
        assert forall|d: int| 0 <= d < g implies #[trigger] occurs(sorted@, d) by {
            assert(iota[d] == d as u32);
            assert(iota.to_multiset().count(d as u32) > 0);
            assert(sorted@.to_multiset().count(d as u32) > 0);
            assert(sorted@.contains(d as u32));
        }
    }
    // rank[d] is the position of graph d in byte order of the graph ids.
    let mut rank: Vec<u64> = Vec::new();
    let mut p: usize = 0;
    while p < g
        invariant
            p <= g,
            rank@.len() == p,
        decreases g - p,
    {
        rank.push(0);
        p = p + 1;
    }
    let mut p: usize = 0;
    while p < g
        invariant
            g == ds@.len(),
            sorted@.len() == g,
            forall|k: int| 0 <= k < g ==> (#[trigger] sorted@[k] as int) < g,
            p <= g,
            rank@.len() == g,
            sorted@.no_duplicates(),
            forall|q: int| 0 <= q < p ==> rank@[#[trigger] sorted@[q] as int] == q,
        decreases g - p,
    {
        let d = sorted[p] as usize;
        rank.set(d, p as u64);
        proof {
            assert forall|q: int| 0 <= q < p + 1 implies rank@[#[trigger] sorted@[q] as int] == q by {
                if q < p {
                    assert(sorted@[q] != sorted@[p as int]);
                }
            }
        }
        p = p + 1;
    }
    // The sort keys.
    let mut v: Vec<PageKey> = Vec::new();
    let mut i: usize = 0;
    while i < n
        invariant
            n == gids@.len(),
            n == keys@.len(),
            i <= n,
            v@.len() == i,
            groups_agree(gids@, gidx@, ds@),
            rank@.len() == ds@.len(),
            forall|k: int|
                0 <= k < i ==> #[trigger] v@[k] == (PageKey {
                    rank: rank@[gidx@[k] as int],
                    key: keys@[k],
                    index: k as u64,
                }),
        decreases n - i,
    {
        v.push(PageKey { rank: rank[gidx[i]], key: keys[i], index: i as u64 });
        i = i + 1;
    }
    let sk = merge_sort(&v);
    proof {
        assert(v@.no_duplicates()) by {
            assert forall|a: int, b: int| 0 <= a < b < v@.len() implies v@[a] != v@[b] by {
                assert(v@[a].index != v@[b].index);
            }
        }
        v@.lemma_multiset_has_no_duplicates();
        sk@.lemma_multiset_has_no_duplicates_conv();
        assert(sk@.len() == n) by {
            assert(sk@.to_multiset().len() == v@.to_multiset().len());
        }
        // Each sorted key is the key of the resource it names.
        assert forall|k: int| 0 <= k < n implies (#[trigger] sk@[k]) == v@[sk@[k].index as int]
            && (sk@[k].index as int) < n by {
            assert(sk@.to_multiset().count(sk@[k]) > 0);
            assert(v@.to_multiset().count(sk@[k]) > 0);
            assert(v@.contains(sk@[k]));
            let i0 = choose|i0: int| 0 <= i0 < v@.len() && v@[i0] == sk@[k];
            assert(v@[i0].index == i0);
        }
    }
    let mut order: Vec<usize> = Vec::new();
    let mut j: usize = 0;
    while j < sk.len()
        invariant
            n == gids@.len(),
            sk@.len() == n,
            forall|k: int| 0 <= k < n ==> (#[trigger] sk@[k].index as int) < n,
            j <= sk@.len(),
            order@.len() == j,
            forall|k: int| 0 <= k < j ==> #[trigger] order@[k] as int == sk@[k].index as int,
        decreases sk@.len() - j,
    {
        order.push(sk[j].index as usize);
        j = j + 1;
    }
    proof {
        assert forall|k: int| 0 <= k < n implies (#[trigger] order@[k] as int) < gids@.len() by {
            assert(sk@[k] == v@[sk@[k].index as int]);
        }
        assert forall|a: int, b: int| 0 <= a < b < n implies placed_before(
            gids@,
            keys@,
            #[trigger] order@[a] as int,
            #[trigger] order@[b] as int,
        ) by {
            let ia = order@[a] as int;
            let ib = order@[b] as int;
            assert(sk@[a] == v@[ia]);
            assert(sk@[b] == v@[ib]);
            assert(sorted_by(sk@, leq::<PageKey>()));
            assert(leq::<PageKey>()(sk@[a], sk@[b]));
            assert(sk@[a] != sk@[b]);
            let da = gidx@[ia] as int;
            let db = gidx@[ib] as int;
            lemma_rank_order(dv, sorted@, rank@, da, db);
            assert(term_bytes(dv, da as u32) == gid_bytes(gids@, ia));
            assert(term_bytes(dv, db as u32) == gid_bytes(gids@, ib));
            if rank@[da] == rank@[db] {
                assert(da == db);
                assert(gids@[ia]@ == gids@[ib]@);
            }
        }
    }
    let pages = cut_pages(gids, &order, &gidx, Ghost(ds@), target_page_size);
    PagePlan { order, pages }
}

/// A page order puts every resource in exactly one place: it lists each
/// resource index once, and all of them.
pub proof fn lemma_order_is_permutation(gids: Seq<String>, keys: Seq<u64>, order: Seq<usize>)
    requires
        gids.len() == keys.len(),
        page_order_ok(gids, keys, order),
    ensures
        order.no_duplicates(),
        forall|i: usize| (i as int) < gids.len() ==> #[trigger] order.contains(i),
{
    let n = gids.len() as int;
    assert forall|a: int, b: int| 0 <= a < order.len() && 0 <= b < order.len() && a != b implies order[a]
        != order[b] by {
        let (x, y) = if a < b { (a, b) } else { (b, a) };
        assert(placed_before(gids, keys, order[x] as int, order[y] as int));
        if order[x] == order[y] {
            crate::text::lemma_lex_irreflexive(gid_bytes(gids, order[x] as int));
        }
    }
    let m = order.map_values(|x: usize| x as int);
    assert(m.no_duplicates()) by {
        assert forall|a: int, b: int| 0 <= a < m.len() && 0 <= b < m.len() && a != b implies m[a]
            != m[b] by {
            assert(order[a] != order[b]);
        }
    }
    m.unique_seq_to_set();
    vstd::set_lib::lemma_int_range(0, n);
    let r = vstd::set_lib::set_int_range(0, n);
    assert(m.to_set().subset_of(r)) by {
        assert forall|v: int| m.to_set().contains(v) implies r.contains(v) by {
            let k = choose|k: int| 0 <= k < m.len() && m[k] == v;
            assert(order[k] < n);
        }
    }
    vstd::set_lib::lemma_subset_equality(m.to_set(), r);
    assert forall|i: usize| (i as int) < n implies #[trigger] order.contains(i) by {
        assert(r.contains(i as int));
        assert(m.to_set().contains(i as int));
        let k = choose|k: int| 0 <= k < m.len() && m[k] == i as int;
        assert(order[k] == i);
    }
}

} // verus!
