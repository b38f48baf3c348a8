//! Coverage tracking for loaded page data.
//!
//! Tracks which (page_id, predicate_id) combinations have been loaded, so
//! that later queries can skip data already fetched.

use vstd::prelude::*;
use std::collections::HashSet;

verus! {

broadcast use vstd::std_specs::hash::group_hash_axioms;

/// The predicates to fetch from one page.
#[derive(Debug, Clone)]
pub struct PageFetchSpec {
    pub page_id: u32,
    pub predicates: Vec<u32>,
}

/// The pages a query needs, with an estimate of the bytes to fetch and the
/// summary-level answer it was planned from.
#[derive(Debug, Clone)]
pub struct FetchPlan<S> {
    pub pages: Vec<PageFetchSpec>,
    pub estimated_bytes: u64,
    pub summary_result: Option<S>,
}

/// A fetch spec as plain values.
pub open spec fn spec_view(s: PageFetchSpec) -> (u32, Seq<u32>) {
    (s.page_id, s.predicates@)
}

/// The key a (page, predicate) pair is stored under.
pub open spec fn pair_key(page: u32, pred: u32) -> u64 {
    (page * 0x1_0000_0000 + pred) as u64
}

/// The predicates of `needed` not yet loaded for a page, in order.
pub open spec fn missing(loaded: Set<(u32, u32)>, page: u32, needed: Seq<u32>) -> Seq<u32> {
    needed.filter(|p: u32| !loaded.contains((page, p)))
}

/// The (page, predicate) pairs that marking predicates `preds` of a page adds.
pub open spec fn marked(page: u32, preds: Seq<u32>) -> Set<(u32, u32)> {
    Set::new(|pq: (u32, u32)| pq.0 == page && preds.contains(pq.1))
}

/// The specs of a plan that still have something to load, each cut down to
/// what is missing.
pub open spec fn reduced_pages(loaded: Set<(u32, u32)>, specs: Seq<(u32, Seq<u32>)>) -> Seq<
    (u32, Seq<u32>),
>
    decreases specs.len(),
{
    if specs.len() == 0 {
        Seq::empty()
    } else {
        let rest = reduced_pages(loaded, specs.drop_last());
        let (page, preds) = specs.last();
        let m = missing(loaded, page, preds);
        if m.len() == 0 {
            rest
        } else {
            rest.push((page, m))
        }
    }
}

/// Estimated bytes of fetching some specs: 200 per page plus 800 per predicate.
pub open spec fn estimated_bytes(specs: Seq<(u32, Seq<u32>)>) -> int
    decreases specs.len(),
{
    if specs.len() == 0 {
        0
    } else {
        estimated_bytes(specs.drop_last()) + 200 + 800 * specs.last().1.len()
    }
}

/// A page is listed exactly when some predicate of it is loaded.
pub open spec fn pages_match(pages: Set<u32>, pairs: Set<u64>) -> bool {
    forall|p: u32|
        #[trigger] pages.contains(p) <==> exists|q: u32| #[trigger] pairs.contains(pair_key(p, q))
}

/// Tracks which page/predicate combinations have been loaded into the store.
pub struct PageCache {
    pairs: HashSet<u64>,
    pages: HashSet<u32>,
    record_count: usize,
    meta_loaded: HashSet<u32>,
}

impl PageCache {
    /// A page is listed exactly when some predicate of it is loaded.
    #[verifier::type_invariant]
    closed spec fn pages_agree(self) -> bool {
        pages_match(self.pages@, self.pairs@)
    }

    /// The loaded (page, predicate) pairs.
    pub closed spec fn loaded(&self) -> Set<(u32, u32)> {
        Set::new(|pq: (u32, u32)| self.pairs@.contains(pair_key(pq.0, pq.1)))
    }

    /// The pages with at least one predicate loaded.
    pub closed spec fn pages(&self) -> Set<u32> {
        self.pages@
    }

    /// Total records loaded.
    pub closed spec fn records(&self) -> nat {
        self.record_count as nat
    }

    /// The pages whose resource metadata is loaded.
    pub closed spec fn meta(&self) -> Set<u32> {
        self.meta_loaded@
    }

    /// An empty cache.
    pub fn new() -> (r: Self)
        ensures
            r.loaded() == Set::<(u32, u32)>::empty(),
            r.pages() == Set::<u32>::empty(),
            r.records() == 0,
            r.meta() == Set::<u32>::empty(),
    {
        let r = PageCache {
            pairs: HashSet::new(),
            pages: HashSet::new(),
            record_count: 0,
            meta_loaded: HashSet::new(),
        };
        assert(r.loaded() =~= Set::<(u32, u32)>::empty());
        r
    }

    fn key(page_id: u32, pred: u32) -> (r: u64)
        ensures
            r == pair_key(page_id, pred),
    {
        (page_id as u64) * 0x1_0000_0000u64 + (pred as u64)
    }

    /// The predicates of `needed_preds` not loaded for a page, in order.
    pub fn gaps(&self, page_id: u32, needed_preds: &[u32]) -> (r: Vec<u32>)
        ensures
            r@ == missing(self.loaded(), page_id, needed_preds@),
    {
        let mut r: Vec<u32> = Vec::new();
        let mut i: usize = 0;
        while i < needed_preds.len()
            invariant
                i <= needed_preds@.len(),
                r@ == missing(self.loaded(), page_id, needed_preds@.take(i as int)),
            decreases needed_preds@.len() - i,
        {
            let p = needed_preds[i];
            proof {
                reveal(Seq::filter);
                assert(needed_preds@.take(i + 1).drop_last() =~= needed_preds@.take(i as int));
                assert(self.loaded().contains((page_id, p)) == self.pairs@.contains(pair_key(page_id, p)));
            }
            if !self.pairs.contains(&Self::key(page_id, p)) {
                r.push(p);
            }
            i = i + 1;
        }
        assert(needed_preds@.take(i as int) =~= needed_preds@);
        r
    }

    /// Mark predicates as loaded for a page, and count the records loaded.
    pub fn mark_loaded(&mut self, page_id: u32, preds: &[u32], records: usize)
        requires
            old(self).records() + records <= usize::MAX,
        ensures
            final(self).loaded() == old(self).loaded().union(marked(page_id, preds@)),
            preds@.len() > 0 ==> final(self).pages() == old(self).pages().insert(page_id),
            preds@.len() == 0 ==> final(self).pages() == old(self).pages(),
            final(self).records() == old(self).records() + records,
            final(self).meta() == old(self).meta(),
    {
        proof {
            use_type_invariant(&*self);
        }
        let ghost before = self.loaded();
        let ghost pages0 = self.pages@;
        let ghost pairs_before = self.pairs@;
        let mut tmp = PageCache::new();
        std::mem::swap(&mut tmp, self);
        let PageCache { mut pairs, mut pages, record_count, meta_loaded } = tmp;
        let ghost pairs0 = pairs@;
        let mut i: usize = 0;
        while i < preds.len()
            invariant
                i <= preds@.len(),
                pairs@ == pairs0.union(preds@.take(i as int).map_values(|p: u32| pair_key(page_id, p)).to_set()),
            decreases preds@.len() - i,
        {
            pairs.insert(Self::key(page_id, preds[i]));
            proof {
                let t = preds@.take(i + 1).map_values(|p: u32| pair_key(page_id, p));
                let t0 = preds@.take(i as int).map_values(|p: u32| pair_key(page_id, p));
                assert(t =~= t0 + seq![pair_key(page_id, preds@[i as int])]);
                Seq::lemma_to_set_insert_commutes(t0, pair_key(page_id, preds@[i as int]));
                assert(pairs@ =~= pairs0.union(t.to_set()));
            }
            i = i + 1;
        }
        proof {
            assert(preds@.take(i as int) =~= preds@);
        }
        if preds.len() > 0 {
            pages.insert(page_id);
        }
        proof {
            let ks = preds@.map_values(|p: u32| pair_key(page_id, p));
            assert(pages@ == (if preds@.len() > 0 { pages0.insert(page_id) } else { pages0 }));
            assert(pages_match(pages0, pairs_before));
            assert forall|p: u32| #[trigger] pages@.contains(p) <==> exists|q: u32|
                #[trigger] pairs@.contains(pair_key(p, q)) by {
                if p == page_id && preds@.len() > 0 {
                    assert(ks[0] == pair_key(page_id, preds@[0]));
                    assert(ks.to_set().contains(ks[0]));
                    assert(pairs@.contains(pair_key(p, preds@[0])));
                } else {
                    assert(pages@.contains(p) == pages0.contains(p));
                    if exists|q: u32| pairs@.contains(pair_key(p, q)) {
                        let q = choose|q: u32| pairs@.contains(pair_key(p, q));
                        if !pairs0.contains(pair_key(p, q)) {
                            assert(ks.to_set().contains(pair_key(p, q)));
                            let j = choose|j: int| 0 <= j < ks.len() && ks[j] == pair_key(p, q);
                            assert(pair_key(p, q) == pair_key(page_id, preds@[j]));
                            assert(false);
                        }
                        assert(pairs_before.contains(pair_key(p, q)));
                    }
                    if pages0.contains(p) {
                        let q = choose|q: u32| pairs_before.contains(pair_key(p, q));
                        assert(pairs@.contains(pair_key(p, q)));
                    }
                }
            }
        }
        assert(pages_match(pages@, pairs@));
        let c = PageCache { pairs, pages, record_count: record_count + records, meta_loaded };
        proof {
            assert forall|pq: (u32, u32)| c.loaded().contains(pq) == (before.contains(pq) || (pq.0 == page_id && preds@.contains(pq.1))) by {
                let ks = preds@.map_values(|p: u32| pair_key(page_id, p));
                if pq.0 == page_id && preds@.contains(pq.1) {
                    let q = choose|q: int| 0 <= q < preds@.len() && preds@[q] == pq.1;
                    assert(ks[q] == pair_key(page_id, pq.1));
                    assert(ks.to_set().contains(ks[q]));
                }
                if c.loaded().contains(pq) && !before.contains(pq) {
                    assert(ks.to_set().contains(pair_key(pq.0, pq.1)));
                    let q = choose|q: int| 0 <= q < ks.len() && ks[q] == pair_key(pq.0, pq.1);
                    assert(pair_key(pq.0, pq.1) == pair_key(page_id, preds@[q]));
                    assert(pq.0 == page_id && pq.1 == preds@[q]);
                    assert(preds@.contains(preds@[q]));
                }
            }
            assert(c.loaded() =~= before.union(
                Set::new(|pq: (u32, u32)| pq.0 == page_id && preds@.contains(pq.1)),
            ));
        }
        *self = c;
    }

    /// Reduce a fetch plan by removing what is already loaded: each page spec
    /// keeps its missing predicates, fully loaded pages are dropped, and the
    /// byte estimate is recomputed.
    pub fn reduce_plan<S: Clone>(&self, plan: &FetchPlan<S>) -> (r: FetchPlan<S>)
        requires
            estimated_bytes(plan.pages@.map_values(|s: PageFetchSpec| spec_view(s))) <= u64::MAX,
        ensures
            r.pages@.map_values(|s: PageFetchSpec| spec_view(s)) == reduced_pages(
                self.loaded(),
                plan.pages@.map_values(|s: PageFetchSpec| spec_view(s)),
            ),
            r.estimated_bytes == estimated_bytes(r.pages@.map_values(|s: PageFetchSpec| spec_view(s))),
            plan.summary_result is None ==> r.summary_result is None,
            plan.summary_result matches Some(a) ==> r.summary_result matches Some(b) && cloned::<S>(
                a,
                b,
            ),
    {
        let ghost specs = plan.pages@.map_values(|s: PageFetchSpec| spec_view(s));
        let mut pages: Vec<PageFetchSpec> = Vec::new();
        let mut bytes: u64 = 0;
        let mut i: usize = 0;
        while i < plan.pages.len()
            invariant
                specs == plan.pages@.map_values(|s: PageFetchSpec| spec_view(s)),
                estimated_bytes(specs) <= u64::MAX,
                i <= specs.len(),
                pages@.map_values(|s: PageFetchSpec| spec_view(s)) == reduced_pages(self.loaded(), specs.take(i as int)),
                bytes == estimated_bytes(pages@.map_values(|s: PageFetchSpec| spec_view(s))),
                estimated_bytes(pages@.map_values(|s: PageFetchSpec| spec_view(s))) <= estimated_bytes(specs.take(i as int)),
            decreases specs.len() - i,
        {
            let spec = &plan.pages[i];
            let m = self.gaps(spec.page_id, spec.predicates.as_slice());
            let ghost before = pages@.map_values(|s: PageFetchSpec| spec_view(s));
            proof {
                let t = specs.take(i + 1);
                assert(t.drop_last() =~= specs.take(i as int));
                assert(t.last() == spec_view(*spec));
                lemma_missing_len(self.loaded(), spec.page_id, spec.predicates@);
                lemma_estimated_take(specs, i as int);
            }
            if m.len() > 0 {
                let n = m.len() as u64;
                proof {
                    assert(estimated_bytes(before.push((spec.page_id, m@))) == estimated_bytes(before) + 200 + 800 * m@.len()) by {
                        assert(before.push((spec.page_id, m@)).drop_last() =~= before);
                    }
                    assert(estimated_bytes(specs.take(i + 1)) <= estimated_bytes(specs));
                }
                bytes = bytes + 200 + 800 * n;
                pages.push(PageFetchSpec { page_id: spec.page_id, predicates: m });
                proof {
                    assert(pages@.map_values(|s: PageFetchSpec| spec_view(s)) =~= before.push((spec.page_id, m@)));
                }
            }
            i = i + 1;
        }
        assert(specs.take(i as int) =~= specs);
        FetchPlan { pages, estimated_bytes: bytes, summary_result: plan.summary_result.clone() }
    }

    /// Total records currently loaded.
    pub fn record_count(&self) -> (r: usize)
        ensures
            r == self.records(),
    {
        self.record_count
    }

    /// Number of pages with at least one predicate loaded.
    pub fn page_count(&self) -> (r: usize)
        ensures
            r == self.pages().len(),
            self.pages() == Set::new(|p: u32| exists|q: u32| self.loaded().contains((p, q))),
    {
        proof {
            use_type_invariant(self);
            assert forall|p: u32| self.pages().contains(p) == (exists|q: u32| self.loaded().contains((p, q))) by {
                if self.pages().contains(p) {
                    let q = choose|q: u32| self.pairs@.contains(pair_key(p, q));
                    assert(self.loaded().contains((p, q)));
                }
                if exists|q: u32| self.loaded().contains((p, q)) {
                    let q = choose|q: u32| self.loaded().contains((p, q));
                    assert(self.pairs@.contains(pair_key(p, q)));
                }
            }
            assert(self.pages() =~= Set::new(|p: u32| exists|q: u32| self.loaded().contains((p, q))));
        }
        self.pages.len()
    }

    /// Whether a (page, predicate) pair is loaded.
    pub fn is_loaded(&self, page_id: u32, pred_id: u32) -> (r: bool)
        ensures
            r == self.loaded().contains((page_id, pred_id)),
    {
        self.pairs.contains(&Self::key(page_id, pred_id))
    }

    /// Mark a page's resource metadata as loaded.
    pub fn mark_meta_loaded(&mut self, page_id: u32)
        ensures
            final(self).meta() == old(self).meta().insert(page_id),
            final(self).loaded() == old(self).loaded(),
            final(self).pages() == old(self).pages(),
            final(self).records() == old(self).records(),
    {
        proof {
            use_type_invariant(&*self);
        }
        let ghost pages0 = self.pages@;
        let ghost pairs0 = self.pairs@;
        let mut tmp = PageCache::new();
        std::mem::swap(&mut tmp, self);
        let PageCache { pairs, pages, record_count, mut meta_loaded } = tmp;
        assert(pages@ == pages0 && pairs@ == pairs0);
        assert(pages_match(pages@, pairs@));
        meta_loaded.insert(page_id);
        *self = PageCache { pairs, pages, record_count, meta_loaded };
    }

    /// Whether a page's resource metadata is loaded.
    pub fn is_meta_loaded(&self, page_id: u32) -> (r: bool)
        ensures
            r == self.meta().contains(page_id),
    {
        self.meta_loaded.contains(&page_id)
    }
}

/// Nothing is missing of predicates that are all loaded for the page.
proof fn lemma_none_missing(loaded: Set<(u32, u32)>, page: u32, needed: Seq<u32>)
    requires
        forall|i: int| 0 <= i < needed.len() ==> loaded.contains((page, #[trigger] needed[i])),
    ensures
        missing(loaded, page, needed) == Seq::<u32>::empty(),
    decreases needed.len(),
{
    reveal(Seq::filter);
    if needed.len() > 0 {
        lemma_none_missing(loaded, page, needed.drop_last());
        assert(loaded.contains((page, needed[needed.len() - 1])));
    }
}

/// Once predicates of a page are marked loaded, none of them is missing for
/// that page, whatever else was loaded before: `gaps(page, preds)` after
/// `mark_loaded(page, preds, _)` is empty.
pub proof fn lemma_marked_not_missing(loaded: Set<(u32, u32)>, page: u32, preds: Seq<u32>)
    ensures
        missing(loaded.union(marked(page, preds)), page, preds) == Seq::<u32>::empty(),
{
    let all = loaded.union(marked(page, preds));
    assert forall|i: int| 0 <= i < preds.len() implies all.contains((page, #[trigger] preds[i])) by {
        assert(marked(page, preds).contains((page, preds[i])));
    }
    lemma_none_missing(all, page, preds);
}

/// A plan whose every (page, predicate) pair is loaded reduces to no page:
/// `reduce_plan` then asks for nothing.
pub proof fn lemma_loaded_plan_reduces_to_nothing(
    loaded: Set<(u32, u32)>,
    specs: Seq<(u32, Seq<u32>)>,
)
    requires
        forall|k: int, i: int|
            0 <= k < specs.len() && 0 <= i < specs[k].1.len() ==> loaded.contains(
                (specs[k].0, #[trigger] specs[k].1[i]),
            ),
    ensures
        reduced_pages(loaded, specs) == Seq::<(u32, Seq<u32>)>::empty(),
    decreases specs.len(),
{
    if specs.len() > 0 {
        let last = specs.last();
        assert forall|i: int| 0 <= i < last.1.len() implies loaded.contains(
            (last.0, #[trigger] last.1[i]),
        ) by {
            assert(specs[specs.len() - 1].1[i] == last.1[i]);
        }
        lemma_none_missing(loaded, last.0, last.1);
        lemma_loaded_plan_reduces_to_nothing(loaded, specs.drop_last());
    }
}

proof fn lemma_missing_len(loaded: Set<(u32, u32)>, page: u32, needed: Seq<u32>)
    ensures
        missing(loaded, page, needed).len() <= needed.len(),
{
    needed.lemma_filter_len(|p: u32| !loaded.contains((page, p)));
}

proof fn lemma_estimated_take(specs: Seq<(u32, Seq<u32>)>, i: int)
    requires
        0 <= i < specs.len(),
    ensures
        estimated_bytes(specs.take(i)) + 200 + 800 * specs[i].1.len() == estimated_bytes(specs.take(i + 1)),
        estimated_bytes(specs.take(i + 1)) <= estimated_bytes(specs),
    decreases specs.len(),
{
    assert(specs.take(i + 1).drop_last() =~= specs.take(i));
    if i + 1 < specs.len() {
        lemma_estimated_take(specs.drop_last(), i);
        assert(specs.drop_last().take(i + 1) =~= specs.take(i + 1));
        assert(estimated_bytes(specs) == estimated_bytes(specs.drop_last()) + 200 + 800 * specs.last().1.len());
    } else {
        assert(specs.take(i + 1) =~= specs);
    }
}

} // verus!
