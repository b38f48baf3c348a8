//! URI/literal <-> integer ID dictionary encoding.
//!
//! Maps URIs and literals to compact integer IDs for page files and summary
//! quads. [`Dictionary`] interns terms at build time; [`IndexedDictionary`]
//! answers `resolve` and `lookup` directly on the serialized bytes.
//!
//! Serialized form (RMDC, version 2, prefix-compressed):
//!
//! ```text
//! [0..4]  magic "RMDC"
//! [4]     version (2)
//! [5..9]  count N (u32 LE)
//! [9]     prefix_count P (u8)
//! [10..]  prefix table: P x (len: u16 LE, UTF-8 bytes)
//! [..]    id entries: N x (prefix_id: u8, suffix_offset: u32 LE), in ID order
//! [..]    sorted index: N x u32 LE, IDs in term order
//! [..]    suffix blob: the suffixes in ID order
//! ```
//!
//! Version 1 (no prefixes) is still read: N x u32 blob offsets, then
//! N x (blob_offset, id) in term order, then the blob.

use vstd::prelude::*;
use vstd::relations::*;
use vstd::utf8::*;
use vstd::string::*;
use vstd::hash_map::StringHashMap;
use crate::codec::{get_le16, get_le32, le16, le32, le32_seq, lemma_get_le16_at, lemma_get_le32_at, lemma_get_le32_sub, lemma_get_le32_shift, lemma_le32_seq_index, lemma_le32_seq_len, push_bytes, push_u16, push_u32, read_u16, read_u32};
use crate::text::lemma_decoded_encode;
use crate::text::{decoded, decode_string, compare_bytes, lemma_lex_asymmetric, lemma_lex_irreflexive, lemma_lex_total, lemma_lex_transitive, lex_lt};

verus! {

broadcast use vstd::seq_lib::group_to_multiset_ensures;

/// No term occurs twice.
pub open spec fn distinct_terms(ts: Seq<Seq<char>>) -> bool {
    forall|i: int, j: int| 0 <= i < j < ts.len() ==> #[trigger] ts[i] != #[trigger] ts[j]
}

/// Bidirectional dictionary mapping terms (URIs/literals) to integer IDs.
///
/// The ID of a term is its position in the order in which terms were first
/// interned.
pub struct Dictionary {
    term_to_id: StringHashMap<u32>,
    id_to_term: Vec<String>,
}

impl View for Dictionary {
    type V = Seq<Seq<char>>;

    closed spec fn view(&self) -> Seq<Seq<char>> {
        self.id_to_term@.map_values(|s: String| s@)
    }
}

impl Dictionary {
    /// The map agrees with the term list: each term maps to its position.
    #[verifier::type_invariant]
    closed spec fn map_agrees(self) -> bool {
        &&& self.id_to_term@.len() <= u32::MAX
        &&& forall|i: int|
            0 <= i < self.id_to_term@.len() ==> {
                &&& self.term_to_id@.contains_key(#[trigger] self.id_to_term@[i]@)
                &&& self.term_to_id@[self.id_to_term@[i]@] == i
            }
        &&& forall|t: Seq<char>|
            #[trigger] self.term_to_id@.contains_key(t) ==> {
                &&& self.term_to_id@[t] < self.id_to_term@.len()
                &&& self.id_to_term@[self.term_to_id@[t] as int]@ == t
            }
    }

    /// An empty dictionary.
    pub fn new() -> (r: Self)
        ensures
            r@ == Seq::<Seq<char>>::empty(),
    {
        let r = Dictionary { term_to_id: StringHashMap::new(), id_to_term: Vec::new() };
        assert(r@ =~= Seq::<Seq<char>>::empty());
        r
    }

    /// Get or insert a term, returning its integer ID.
    pub fn intern(&mut self, term: &str) -> (r: u32)
        requires
            old(self)@.len() < u32::MAX,
        ensures
            r < final(self)@.len(),
            final(self)@[r as int] == term@,
            old(self)@.contains(term@) ==> final(self)@ == old(self)@,
            !old(self)@.contains(term@) ==> final(self)@ == old(self)@.push(term@) && r
                == old(self)@.len(),
    {
        proof {
            use_type_invariant(&*self);
        }
        match self.term_to_id.get(term) {
            Some(id) => {
                let id = *id;
                proof {
                    assert(self@[id as int] == self.id_to_term@[id as int]@);
                }
                return id;
            },
            None => {},
        }
        proof {
            if self@.contains(term@) {
                let i = choose|i: int| 0 <= i < self@.len() && self@[i] == term@;
                assert(self.id_to_term@[i]@ == term@);
            }
        }
        let mut tmp = Dictionary::new();
        std::mem::swap(&mut tmp, self);
        let Dictionary { term_to_id: mut map, id_to_term: mut terms } = tmp;
        let ghost old_terms = terms@;
        let id = terms.len() as u32;
        terms.push(term.to_owned());
        map.insert(term.to_owned(), id);
        let d = Dictionary { term_to_id: map, id_to_term: terms };
        proof {
            assert forall|t: Seq<char>| #[trigger] map@.contains_key(t) implies map@[t]
                < terms@.len() && terms@[map@[t] as int]@ == t by {
                if t != term@ {
                    assert(old_terms[map@[t] as int] == terms@[map@[t] as int]);
                }
            }
            assert forall|i: int| 0 <= i < terms@.len() implies map@.contains_key(
                #[trigger] terms@[i]@,
            ) && map@[terms@[i]@] == i by {
                if i < old_terms.len() {
                    assert(terms@[i] == old_terms[i]);
                    assert(old_terms[i]@ != term@);
                }
            }
            assert(d@ =~= old_terms.map_values(|s: String| s@).push(term@));
        }
        *self = d;
        id
    }

    /// The term with an ID.
    pub fn resolve(&self, id: u32) -> (r: Option<&str>)
        ensures
            r is Some <==> id < self@.len(),
            r matches Some(s) ==> s@ == self@[id as int],
    {
        if (id as usize) < self.id_to_term.len() {
            Some(self.id_to_term[id as usize].as_str())
        } else {
            None
        }
    }

    /// The ID of a term.
    pub fn lookup(&self, term: &str) -> (r: Option<u32>)
        ensures
            r is Some <==> self@.contains(term@),
            r matches Some(id) ==> id < self@.len() && self@[id as int] == term@,
    {
        proof {
            use_type_invariant(self);
        }
        match self.term_to_id.get(term) {
            Some(id) => {
                proof {
                    assert(self@[*id as int] == self.id_to_term@[*id as int]@);
                }
                Some(*id)
            },
            None => {
                proof {
                    if self@.contains(term@) {
                        let i = choose|i: int| 0 <= i < self@.len() && self@[i] == term@;
                        assert(self.id_to_term@[i]@ == term@);
                    }
                }
                None
            },
        }
    }

    /// Number of entries.
    pub fn len(&self) -> (r: usize)
        ensures
            r == self@.len(),
            r <= u32::MAX,
            distinct_terms(self@),
    {
        proof {
            use_type_invariant(self);
            assert forall|i: int, j: int| 0 <= i < j < self@.len() implies #[trigger] self@[i]
                != #[trigger] self@[j] by {
                assert(self.term_to_id@[self.id_to_term@[i]@] == i);
                assert(self.term_to_id@[self.id_to_term@[j]@] == j);
            }
        }
        self.id_to_term.len()
    }

    /// Whether the dictionary holds no term.
    pub fn is_empty(&self) -> (r: bool)
        ensures
            r == (self@.len() == 0),
    {
        self.id_to_term.len() == 0
    }
}

// ---------------------------------------------------------------------------
// Sorting IDs by their terms
// ---------------------------------------------------------------------------

/// The UTF-8 bytes of term `id`.
pub open spec fn term_bytes(ts: Seq<Seq<char>>, id: u32) -> Seq<u8> {
    encode_utf8(ts[id as int])
}

/// ID `x` sorts no later than ID `y`: its term is not greater.
pub open spec fn id_le(ts: Seq<Seq<char>>) -> spec_fn(u32, u32) -> bool {
    |x: u32, y: u32| !lex_lt(term_bytes(ts, y), term_bytes(ts, x))
}

proof fn lemma_id_le_preorder(ts: Seq<Seq<char>>)
    ensures
        transitive(id_le(ts)),
        strongly_connected(id_le(ts)),
{
    assert forall|x: u32, y: u32, z: u32| #[trigger] id_le(ts)(x, y) && #[trigger] id_le(ts)(y, z)
        implies id_le(ts)(x, z) by {
        let bx = term_bytes(ts, x);
        let by_ = term_bytes(ts, y);
        let bz = term_bytes(ts, z);
        if lex_lt(bz, bx) {
            lemma_lex_total(bx, by_);
            if bx != by_ {
                if lex_lt(bx, by_) {
                    lemma_lex_transitive(bz, bx, by_);
                }
            }
        }
    }
    assert forall|x: u32, y: u32| #[trigger] id_le(ts)(x, y) || #[trigger] id_le(ts)(y, x) by {
        lemma_lex_asymmetric(term_bytes(ts, x), term_bytes(ts, y));
    }
}

fn id_le_exec(terms: &Vec<String>, x: u32, y: u32) -> (r: bool)
    requires
        (x as int) < terms@.len(),
        (y as int) < terms@.len(),
    ensures
        r == id_le(terms@.map_values(|s: String| s@))(x, y),
{
    let c = compare_bytes(terms[y as usize].as_str().as_bytes(), terms[x as usize].as_str().as_bytes());
    c >= 0
}

/// All IDs lie below a bound.
pub open spec fn ids_below(ids: Seq<u32>, n: int) -> bool {
    forall|i: int| 0 <= i < ids.len() ==> (#[trigger] ids[i] as int) < n
}

fn merge_ids(terms: &Vec<String>, a: &Vec<u32>, b: &Vec<u32>) -> (r: Vec<u32>)
    requires
        ids_below(a@, terms@.len() as int),
        ids_below(b@, terms@.len() as int),
        sorted_by(a@, id_le(terms@.map_values(|s: String| s@))),
        sorted_by(b@, id_le(terms@.map_values(|s: String| s@))),
    ensures
        sorted_by(r@, id_le(terms@.map_values(|s: String| s@))),
        r@.to_multiset() == a@.to_multiset().add(b@.to_multiset()),
        ids_below(r@, terms@.len() as int),
{
    let ghost ts = terms@.map_values(|s: String| s@);
    let ghost le = id_le(ts);
    proof {
        lemma_id_le_preorder(ts);
    }
    let mut r: Vec<u32> = Vec::new();
    let mut i: usize = 0;
    let mut j: usize = 0;
    while i < a.len() || j < b.len()
        invariant
            ts == terms@.map_values(|s: String| s@),
            le == id_le(ts),
            transitive(le),
            strongly_connected(le),
            ids_below(a@, terms@.len() as int),
            ids_below(b@, terms@.len() as int),
            ids_below(r@, terms@.len() as int),
            sorted_by(a@, le),
            sorted_by(b@, le),
            i <= a@.len(),
            j <= b@.len(),
            sorted_by(r@, le),
            r@.to_multiset() == a@.subrange(0, i as int).to_multiset().add(
                b@.subrange(0, j as int).to_multiset(),
            ),
            forall|k: int| 0 <= k < r@.len() && i < a@.len() ==> le(#[trigger] r@[k], a@[i as int]),
            forall|k: int| 0 <= k < r@.len() && j < b@.len() ==> le(#[trigger] r@[k], b@[j as int]),
        decreases a@.len() + b@.len() - i - j,
    {
        let take_a = if i < a.len() && j < b.len() {
            id_le_exec(terms, a[i], b[j])
        } else {
            i < a.len()
        };
        let ghost old_r = r@;
        if take_a {
            let x = a[i];
            r.push(x);
            proof {
                assert(a@.subrange(0, i + 1) == a@.subrange(0, i as int).push(x));
                assert(forall|k: int| 0 <= k < old_r.len() ==> le(old_r[k], x));
                assert forall|k: int| 0 <= k < r@.len() - 1 implies le(#[trigger] r@[k], r@[r@.len() - 1]) by {
                    assert(r@[k] == old_r[k]);
                }
                assert forall|p: int, q: int| 0 <= p < q < r@.len() implies #[trigger] le(r@[p], r@[q]) by {
                    if q < r@.len() - 1 {
                        assert(r@[p] == old_r[p] && r@[q] == old_r[q]);
                    }
                }
            }
            i = i + 1;
            proof {
                assert forall|k: int| 0 <= k < r@.len() && i < a@.len() implies le(
                    #[trigger] r@[k],
                    a@[i as int],
                ) by {
                    assert(le(a@[i - 1], a@[i as int]));
                    if k < old_r.len() {
                        assert(le(old_r[k], x));
                    }
                }
                assert forall|k: int| 0 <= k < r@.len() && j < b@.len() implies le(
                    #[trigger] r@[k],
                    b@[j as int],
                ) by {
                    if k < old_r.len() {
                    } else {
                        assert(le(x, b@[j as int]));
                    }
                }
            }
        } else {
            let x = b[j];
            r.push(x);
            proof {
                assert(b@.subrange(0, j + 1) == b@.subrange(0, j as int).push(x));
                assert(forall|k: int| 0 <= k < old_r.len() ==> le(old_r[k], x));
                if i < a@.len() {
                    assert(le(a@[i as int], x) || le(x, a@[i as int]));
                    assert(le(x, a@[i as int]));
                }
                assert forall|k: int| 0 <= k < r@.len() - 1 implies le(#[trigger] r@[k], r@[r@.len() - 1]) by {
                    assert(r@[k] == old_r[k]);
                }
                assert forall|p: int, q: int| 0 <= p < q < r@.len() implies #[trigger] le(r@[p], r@[q]) by {
                    if q < r@.len() - 1 {
                        assert(r@[p] == old_r[p] && r@[q] == old_r[q]);
                    }
                }
            }
            j = j + 1;
            proof {
                assert forall|k: int| 0 <= k < r@.len() && j < b@.len() implies le(
                    #[trigger] r@[k],
                    b@[j as int],
                ) by {
                    assert(le(b@[j - 1], b@[j as int]));
                    if k < old_r.len() {
                        assert(le(old_r[k], x));
                    }
                }
                assert forall|k: int| 0 <= k < r@.len() && i < a@.len() implies le(
                    #[trigger] r@[k],
                    a@[i as int],
                ) by {
                    if k < old_r.len() {
                    }
                }
            }
        }
    }
    proof {
        assert(a@.subrange(0, a@.len() as int) == a@);
        assert(b@.subrange(0, b@.len() as int) == b@);
    }
    r
}

fn sort_ids_range(terms: &Vec<String>, v: &Vec<u32>, lo: usize, hi: usize) -> (r: Vec<u32>)
    requires
        lo <= hi <= v@.len(),
        ids_below(v@, terms@.len() as int),
    ensures
        sorted_by(r@, id_le(terms@.map_values(|s: String| s@))),
        r@.to_multiset() == v@.subrange(lo as int, hi as int).to_multiset(),
        ids_below(r@, terms@.len() as int),
    decreases hi - lo,
{
    if hi - lo <= 1 {
        let mut r: Vec<u32> = Vec::new();
        if hi > lo {
            r.push(v[lo]);
        }
        proof {
            assert(r@ =~= v@.subrange(lo as int, hi as int));
        }
        r
    } else {
        let mid = lo + (hi - lo) / 2;
        let left = sort_ids_range(terms, v, lo, mid);
        let right = sort_ids_range(terms, v, mid, hi);
        let r = merge_ids(terms, &left, &right);
        proof {
            vstd::seq_lib::lemma_multiset_commutative(
                v@.subrange(lo as int, mid as int),
                v@.subrange(mid as int, hi as int),
            );
            assert(v@.subrange(lo as int, mid as int) + v@.subrange(mid as int, hi as int)
                == v@.subrange(lo as int, hi as int));
        }
        r
    }
}

/// The IDs in term order: a permutation of `0..n` whose terms strictly increase.
pub open spec fn sorted_ids_of(ts: Seq<Seq<char>>, ids: Seq<u32>) -> bool {
    &&& ids.len() == ts.len()
    &&& ids_below(ids, ts.len() as int)
    &&& forall|i: int, j: int|
        0 <= i < j < ids.len() ==> lex_lt(term_bytes(ts, #[trigger] ids[i]), term_bytes(ts, #[trigger] ids[j]))
}

/// The IDs `0..n` ordered by their terms.
pub(crate) fn sort_ids_by_term(terms: &Vec<String>) -> (r: Vec<u32>)
    requires
        terms@.len() <= u32::MAX,
        distinct_terms(terms@.map_values(|s: String| s@)),
    ensures
        sorted_ids_of(terms@.map_values(|s: String| s@), r@),
        r@.to_multiset() == Seq::new(terms@.len() as nat, |k: int| k as u32).to_multiset(),
{
    let ghost ts = terms@.map_values(|s: String| s@);
    let n = terms.len();
    let mut v: Vec<u32> = Vec::new();
    let mut i: usize = 0;
    while i < n
        invariant
            n == terms@.len(),
            n <= u32::MAX,
            i <= n,
            v@ == Seq::new(i as nat, |k: int| k as u32),
        decreases n - i,
    {
        v.push(i as u32);
        i = i + 1;
        proof {
            assert(v@ =~= Seq::new(i as nat, |k: int| k as u32));
        }
    }
    let r = sort_ids_range(terms, &v, 0, n);
    proof {
        assert(v@.subrange(0, n as int) =~= v@);
        assert(v@.no_duplicates());
        v@.lemma_multiset_has_no_duplicates();
        r@.lemma_multiset_has_no_duplicates_conv();
        assert(r@.len() == n) by {
            assert(r@.to_multiset().len() == v@.to_multiset().len());
        }
        assert forall|p: int, q: int| 0 <= p < q < r@.len() implies lex_lt(
            term_bytes(ts, #[trigger] r@[p]),
            term_bytes(ts, #[trigger] r@[q]),
        ) by {
            assert(id_le(ts)(r@[p], r@[q]));
            assert(r@[p] != r@[q]);
            assert(ts[r@[p] as int] != ts[r@[q] as int]) by {
                if r@[p] < r@[q] {
                    assert(ts[r@[p] as int] != ts[r@[q] as int]);
                } else {
                    assert(ts[r@[q] as int] != ts[r@[p] as int]);
                }
            }
            crate::text::lemma_encode_injective(ts[r@[p] as int], ts[r@[q] as int]);
            lemma_lex_total(term_bytes(ts, r@[p]), term_bytes(ts, r@[q]));
        }
    }
    r
}

// ---------------------------------------------------------------------------
// Prefix detection
// ---------------------------------------------------------------------------

/// `/` or `#`, the delimiters after which a URI prefix ends.
pub open spec fn is_delim(b: u8) -> bool {
    b == 0x2f || b == 0x23
}

/// Index of the last delimiter among the first `k` bytes, or -1.
pub open spec fn last_delim(tb: Seq<u8>, k: int) -> int
    decreases k,
{
    if k <= 0 {
        -1
    } else if is_delim(tb[k - 1]) {
        k - 1
    } else {
        last_delim(tb, k - 1)
    }
}

/// The URI prefix of a term: its bytes up to and including the last `/` or `#`.
pub open spec fn cut_prefix(t: Seq<char>) -> Option<Seq<u8>> {
    let tb = encode_utf8(t);
    let c = last_delim(tb, tb.len() as int);
    if c >= 0 && is_char_boundary(tb, c + 1) {
        Some(tb.subrange(0, c + 1))
    } else {
        None
    }
}

/// How many terms have URI prefix `p`.
pub open spec fn prefix_count(ts: Seq<Seq<char>>, p: Seq<u8>) -> nat
    decreases ts.len(),
{
    if ts.len() == 0 {
        0
    } else {
        prefix_count(ts.drop_last(), p) + if cut_prefix(ts.last()) == Some(p) {
            1nat
        } else {
            0nat
        }
    }
}

/// Bytes saved by factoring a prefix out: `len * (count - 2) - 2`.
pub open spec fn savings(ts: Seq<Seq<char>>, p: Seq<u8>) -> int {
    p.len() * (prefix_count(ts, p) - 2) - 2
}

/// A prefix worth a table entry.
pub open spec fn is_candidate(ts: Seq<Seq<char>>, p: Seq<u8>) -> bool {
    prefix_count(ts, p) > 0 && savings(ts, p) > 0
}

/// What `detect_prefixes` returns: at most 254 distinct candidates, by
/// decreasing savings, leaving out no candidate that saves more than the last.
pub open spec fn prefixes_chosen(ts: Seq<Seq<char>>, ps: Seq<Seq<char>>) -> bool {
    &&& ps.len() <= 254
    &&& forall|i: int| 0 <= i < ps.len() ==> is_candidate(ts, encode_utf8(#[trigger] ps[i]))
    &&& forall|i: int, j: int| 0 <= i < j < ps.len() ==> #[trigger] ps[i] != #[trigger] ps[j]
    &&& forall|i: int, j: int|
        0 <= i < j < ps.len() ==> savings(ts, encode_utf8(#[trigger] ps[i])) >= savings(
            ts,
            encode_utf8(#[trigger] ps[j]),
        )
    &&& forall|p: Seq<char>|
        is_candidate(ts, encode_utf8(p)) && !ps.contains(p) ==> ps.len() == 254 && savings(
            ts,
            encode_utf8(p),
        ) <= savings(ts, encode_utf8(ps.last()))
}

/// The URI prefix of a term, when it has one.
fn term_prefix(term: &str) -> (r: Option<&str>)
    ensures
        r is Some <==> cut_prefix(term@) is Some,
        r matches Some(p) ==> cut_prefix(term@) == Some(encode_utf8(p@)),
{
    let bytes = term.as_bytes();
    let ghost tb = bytes@;
    let mut k = bytes.len();
    while k > 0 && !(bytes[k - 1] == 0x2fu8 || bytes[k - 1] == 0x23u8)
        invariant
            k <= bytes@.len(),
            tb == bytes@,
            last_delim(tb, tb.len() as int) == last_delim(tb, k as int),
        decreases k,
    {
        k = k - 1;
    }
    if k == 0 {
        return None;
    }
    if !term.is_char_boundary(k) {
        return None;
    }
    let (p, _) = term.split_at(k);
    proof {
        assert(p.spec_bytes() == tb.subrange(0, k as int));
    }
    Some(p)
}

/// A scored prefix: savings first (descending), then first appearance.
#[derive(Clone, Copy, Debug, PartialEq, Eq)]
pub struct ScoredPrefix {
    pub savings: i128,
    pub pos: u32,
}

impl crate::sort::SortKey for ScoredPrefix {
    open spec fn key_le(x: ScoredPrefix, y: ScoredPrefix) -> bool {
        x.savings > y.savings || (x.savings == y.savings && x.pos <= y.pos)
    }

    proof fn lemma_total() {
    }

    fn le(x: &ScoredPrefix, y: &ScoredPrefix) -> (r: bool) {
        x.savings > y.savings || (x.savings == y.savings && x.pos <= y.pos)
    }
}

proof fn lemma_prefix_count_step(ts: Seq<Seq<char>>, i: int, p: Seq<u8>)
    requires
        0 <= i < ts.len(),
    ensures
        prefix_count(ts.take(i + 1), p) == prefix_count(ts.take(i), p) + if cut_prefix(ts[i])
            == Some(p) {
            1nat
        } else {
            0nat
        },
{
    assert(ts.take(i + 1).drop_last() =~= ts.take(i));
}

proof fn lemma_prefix_count_le(ts: Seq<Seq<char>>, p: Seq<u8>)
    ensures
        prefix_count(ts, p) <= ts.len(),
    decreases ts.len(),
{
    if ts.len() > 0 {
        lemma_prefix_count_le(ts.drop_last(), p);
    }
}

/// The URI prefixes of the terms, each once, in the order of the first
/// term that has it.
pub open spec fn prefix_order(ts: Seq<Seq<char>>) -> Seq<Seq<char>>
    decreases ts.len(),
{
    if ts.len() == 0 {
        Seq::empty()
    } else {
        let o = prefix_order(ts.drop_last());
        match cut_prefix(ts.last()) {
            Some(p) => if prefix_count(ts.drop_last(), p) == 0 {
                o.push(decode_utf8(p))
            } else {
                o
            },
            None => o,
        }
    }
}

/// The first `k` prefixes of `order` that save bytes, with their savings and
/// their place in `order`.
pub open spec fn scored_prefixes(ts: Seq<Seq<char>>, order: Seq<Seq<char>>, k: int) -> Seq<
    ScoredPrefix,
>
    decreases k,
{
    if k <= 0 {
        Seq::empty()
    } else {
        let s = scored_prefixes(ts, order, k - 1);
        let sv = savings(ts, encode_utf8(order[k - 1]));
        if sv > 0 {
            s.push(ScoredPrefix { savings: sv as i128, pos: (k - 1) as u32 })
        } else {
            s
        }
    }
}

/// The prefixes `detect_prefixes` picks: those that save bytes, by
/// decreasing savings and, among equal savings, in the order of the first
/// term that has them; at most 254.
pub open spec fn top_prefixes(ts: Seq<Seq<char>>) -> Seq<Seq<char>> {
    let o = prefix_order(ts);
    let s = scored_prefixes(ts, o, o.len() as int).sort_by(crate::sort::leq::<ScoredPrefix>());
    let t = if s.len() < 254 { s.len() as int } else { 254 };
    s.take(t).map_values(|x: ScoredPrefix| o[x.pos as int])
}

/// Detect common URI prefixes of a set of terms (at most 254; prefix ID 255
/// means "no prefix").
pub fn detect_prefixes(terms: &[String]) -> (r: Vec<String>)
    requires
        terms@.len() <= u32::MAX,
    ensures
        prefixes_chosen(terms@.map_values(|s: String| s@), r@.map_values(|s: String| s@)),
        r@.map_values(|s: String| s@) == top_prefixes(terms@.map_values(|s: String| s@)),
{
    let ghost ts = terms@.map_values(|s: String| s@);
    let n = terms.len();
    let mut counts: StringHashMap<u32> = StringHashMap::new();
    let mut order: Vec<String> = Vec::new();
    let mut i: usize = 0;
    while i < n
        invariant
            n == terms@.len(),
            n <= u32::MAX,
            ts == terms@.map_values(|s: String| s@),
            i <= n,
            forall|c: Seq<char>| #[trigger] counts@.contains_key(c) ==> counts@[c] == prefix_count(ts.take(i as int), encode_utf8(c)) && counts@[c] > 0,
            forall|c: Seq<char>| prefix_count(ts.take(i as int), encode_utf8(c)) > 0 ==> #[trigger] counts@.contains_key(c),
            forall|k: int| 0 <= k < order@.len() ==> counts@.contains_key(#[trigger] order@[k]@),
            forall|c: Seq<char>| #[trigger] counts@.contains_key(c) ==> exists|k: int| 0 <= k < order@.len() && order@[k]@ == c,
            forall|a: int, b: int| 0 <= a < b < order@.len() ==> #[trigger] order@[a]@ != #[trigger] order@[b]@,
            order@.len() <= i,
            order@.map_values(|s: String| s@) == prefix_order(ts.take(i as int)),
        decreases n - i,
    {
        let term = terms[i].as_str();
        let cut = term_prefix(term);
        let ghost before = counts@;
        let ghost old_order = order@;
        proof {
            assert(ts[i as int] == term@);
        }
        match cut {
            Some(p) => {
                proof {
                    lemma_prefix_count_le(ts.take(i as int), encode_utf8(p@));
                }
                match counts.get(p) {
                    Some(c) => {
                        let c1 = *c + 1;
                        counts.insert(p.to_owned(), c1);
                    },
                    None => {
                        counts.insert(p.to_owned(), 1);
                        order.push(p.to_owned());
                    },
                }
                proof {
                    assert forall|c: Seq<char>| #[trigger] counts@.contains_key(c) implies counts@[c] == prefix_count(ts.take(i + 1), encode_utf8(c)) && counts@[c] > 0 by {
                        lemma_prefix_count_step(ts, i as int, encode_utf8(c));
                        crate::text::lemma_encode_injective(c, p@);
                    }
                    assert forall|c: Seq<char>| prefix_count(ts.take(i + 1), encode_utf8(c)) > 0 implies #[trigger] counts@.contains_key(c) by {
                        lemma_prefix_count_step(ts, i as int, encode_utf8(c));
                        crate::text::lemma_encode_injective(c, p@);
                    }
                    assert forall|c: Seq<char>| #[trigger] counts@.contains_key(c) implies exists|k: int| 0 <= k < order@.len() && order@[k]@ == c by {
                        if before.contains_key(c) {
                            let k = choose|k: int| 0 <= k < old_order.len() && old_order[k]@ == c;
                            assert(order@[k] == old_order[k]);
                        } else {
                            assert(order@[order@.len() - 1]@ == c);
                        }
                    }
                    assert forall|a: int, b: int| 0 <= a < b < order@.len() implies #[trigger] order@[a]@ != #[trigger] order@[b]@ by {
                        if b == order@.len() - 1 && !before.contains_key(p@) {
                            assert(order@[a] == old_order[a]);
                            assert(before.contains_key(old_order[a]@));
                        } else {
                            assert(order@[a] == old_order[a]);
                            assert(order@[b] == old_order[b]);
                        }
                    }
                }
            },
            None => {
                proof {
                    assert forall|c: Seq<char>| #[trigger] counts@.contains_key(c) implies counts@[c] == prefix_count(ts.take(i + 1), encode_utf8(c)) && counts@[c] > 0 by {
                        lemma_prefix_count_step(ts, i as int, encode_utf8(c));
                    }
                    assert forall|c: Seq<char>| prefix_count(ts.take(i + 1), encode_utf8(c)) > 0 implies #[trigger] counts@.contains_key(c) by {
                        lemma_prefix_count_step(ts, i as int, encode_utf8(c));
                    }
                }
            },
        }
        proof {
            let tk = ts.take(i + 1);
            assert(tk.drop_last() =~= ts.take(i as int));
            assert(tk.last() == term@);
            match cut {
                Some(p) => {
                    encode_utf8_decode_utf8(p@);
                    if before.contains_key(p@) {
                        assert(prefix_count(ts.take(i as int), encode_utf8(p@)) > 0);
                        assert(order@ == old_order);
                    } else {
                        assert(prefix_count(ts.take(i as int), encode_utf8(p@)) == 0);
                        assert(order@.map_values(|s: String| s@) =~= old_order.map_values(
                            |s: String| s@,
                        ).push(p@));
                    }
                },
                None => {
                    assert(order@ == old_order);
                },
            }
            assert(order@.map_values(|s: String| s@) =~= prefix_order(tk));
        }
        i = i + 1;
    }
    assert(ts.take(n as int) =~= ts);
    let ghost ov = order@.map_values(|s: String| s@);
    // Score every prefix that saves bytes.
    let mut scored: Vec<ScoredPrefix> = Vec::new();
    let mut k: usize = 0;
    while k < order.len()
        invariant
            ts == terms@.map_values(|s: String| s@),
            n == terms@.len(),
            n <= u32::MAX,
            order@.len() <= n,
            k <= order@.len(),
            forall|c: Seq<char>| #[trigger] counts@.contains_key(c) ==> counts@[c] == prefix_count(ts, encode_utf8(c)) && counts@[c] > 0,
            forall|c: Seq<char>| prefix_count(ts, encode_utf8(c)) > 0 ==> #[trigger] counts@.contains_key(c),
            forall|q: int| 0 <= q < order@.len() ==> counts@.contains_key(#[trigger] order@[q]@),
            forall|q: int| 0 <= q < scored@.len() ==> {
                &&& (#[trigger] scored@[q]).pos < k
                &&& scored@[q].savings == savings(ts, encode_utf8(order@[scored@[q].pos as int]@))
                &&& scored@[q].savings > 0
            },
            forall|q: int| 0 <= q < k && savings(ts, encode_utf8(#[trigger] order@[q]@)) > 0 ==> exists|z: int| 0 <= z < scored@.len() && scored@[z].pos == q,
            forall|a: int, b: int| 0 <= a < b < scored@.len() ==> #[trigger] scored@[a].pos < #[trigger] scored@[b].pos,
            ov == order@.map_values(|s: String| s@),
            ov == prefix_order(ts),
            scored@ == scored_prefixes(ts, ov, k as int),
        decreases order@.len() - k,
    {
        let p = order[k].as_str();
        let cnt = match counts.get(p) {
            Some(c) => *c,
            None => 0,
        };
        let len = p.as_bytes().len();
        proof {
            assert(counts@.contains_key(order@[k as int]@));
            assert(p@ == order@[k as int]@);
        }
        let l128 = len as i128;
        let c128 = cnt as i128 - 2;
        proof {
            assert(l128 * c128 <= 0x1_0000_0000_0000_0000_0000_0000i128)
                by (nonlinear_arith)
                requires
                    0 <= l128 <= 0xffff_ffff_ffff_ffff,
                    -2 <= c128 <= 0xffff_ffff,
            ;
            assert(l128 * c128 >= -0x2_0000_0000_0000_0000i128)
                by (nonlinear_arith)
                requires
                    0 <= l128 <= 0xffff_ffff_ffff_ffff,
                    -2 <= c128 <= 0xffff_ffff,
            ;
        }
        let sv: i128 = l128 * c128 - 2;
        proof {
            assert(cnt == prefix_count(ts, encode_utf8(p@)));
            assert(sv == savings(ts, encode_utf8(order@[k as int]@)));
        }
        let ghost old_scored = scored@;
        if sv > 0 {
            scored.push(ScoredPrefix { savings: sv, pos: k as u32 });
        }
        k = k + 1;
        proof {
            assert(ov[k - 1] == order@[k - 1]@);
            assert(scored@ =~= scored_prefixes(ts, ov, k as int));
            assert forall|q: int| 0 <= q < k && savings(ts, encode_utf8(#[trigger] order@[q]@)) > 0 implies exists|z: int| 0 <= z < scored@.len() && scored@[z].pos == q by {
                if q < k - 1 {
                    let z = choose|z: int| 0 <= z < old_scored.len() && old_scored[z].pos == q;
                    assert(scored@[z] == old_scored[z]);
                } else {
                    assert(scored@[scored@.len() - 1].pos == q);
                }
            }
        }
    }
    let sorted = crate::sort::merge_sort(&scored);
    let take = if sorted.len() < 254 { sorted.len() } else { 254 };
    let mut r: Vec<String> = Vec::new();
    let mut j: usize = 0;
    proof {
        broadcast use vstd::multiset::group_multiset_axioms;
        assert forall|q: int| 0 <= q < sorted@.len() implies {
            &&& (#[trigger] sorted@[q]).pos < order@.len()
            &&& sorted@[q].savings == savings(ts, encode_utf8(order@[sorted@[q].pos as int]@))
            &&& sorted@[q].savings > 0
        } by {
            assert(sorted@.to_multiset().count(sorted@[q]) > 0);
            assert(scored@.contains(sorted@[q]));
        }
    }
    while j < take
        invariant
            j <= take <= sorted@.len(),
            take <= 254,
            forall|q: int| 0 <= q < sorted@.len() ==> (#[trigger] sorted@[q]).pos < order@.len(),
            r@.len() == j,
            forall|q: int| 0 <= q < j ==> #[trigger] r@[q]@ == order@[sorted@[q].pos as int]@,
        decreases take - j,
    {
        let pos = sorted[j].pos as usize;
        r.push(order[pos].clone());
        j = j + 1;
    }
    proof {
        broadcast use vstd::multiset::group_multiset_axioms;
        let rv = r@.map_values(|s: String| s@);
        let le = crate::sort::leq::<ScoredPrefix>();
        // distinct positions in `sorted`
        assert(scored@.no_duplicates()) by {
            assert forall|a: int, b: int| 0 <= a < scored@.len() && 0 <= b < scored@.len() && a != b implies scored@[a] != scored@[b] by {
                if a < b {
                    assert(scored@[a].pos < scored@[b].pos);
                } else {
                    assert(scored@[b].pos < scored@[a].pos);
                }
            }
        }
        scored@.lemma_multiset_has_no_duplicates();
        sorted@.lemma_multiset_has_no_duplicates_conv();
        assert forall|a: int, b: int| 0 <= a < b < rv.len() implies #[trigger] rv[a] != #[trigger] rv[b] by {
            assert(rv[a] == order@[sorted@[a].pos as int]@);
            assert(rv[b] == order@[sorted@[b].pos as int]@);
            if sorted@[a].pos == sorted@[b].pos {
                assert(sorted@.to_multiset().count(sorted@[a]) > 0);
                assert(sorted@.to_multiset().count(sorted@[b]) > 0);
                let za = choose|z: int| 0 <= z < scored@.len() && scored@[z] == sorted@[a];
                let zb = choose|z: int| 0 <= z < scored@.len() && scored@[z] == sorted@[b];
                if za < zb {
                    assert(scored@[za].pos < scored@[zb].pos);
                } else if zb < za {
                    assert(scored@[zb].pos < scored@[za].pos);
                }
                assert(sorted@[a] == sorted@[b]);
            }
        }
        assert forall|a: int| 0 <= a < rv.len() implies is_candidate(ts, encode_utf8(#[trigger] rv[a])) by {
            assert(rv[a] == order@[sorted@[a].pos as int]@);
        }
        assert forall|a: int, b: int| 0 <= a < b < rv.len() implies savings(ts, encode_utf8(#[trigger] rv[a])) >= savings(ts, encode_utf8(#[trigger] rv[b])) by {
            assert(rv[a] == order@[sorted@[a].pos as int]@);
            assert(rv[b] == order@[sorted@[b].pos as int]@);
            assert(le(sorted@[a], sorted@[b]));
        }
        assert forall|c: Seq<char>| is_candidate(ts, encode_utf8(c)) && !rv.contains(c) implies rv.len() == 254 && savings(ts, encode_utf8(c)) <= savings(ts, encode_utf8(rv.last())) by {
            assert(counts@.contains_key(c));
            let q = choose|q: int| 0 <= q < order@.len() && order@[q]@ == c;
            let z = choose|z: int| 0 <= z < scored@.len() && scored@[z].pos == q;
            assert(sorted@.to_multiset().count(scored@[z]) > 0);
            assert(sorted@.contains(scored@[z]));
            let y = choose|y: int| 0 <= y < sorted@.len() && sorted@[y] == scored@[z];
            if y < take {
                assert(rv[y] == c);
            } else {
                assert(take == 254);
                assert(le(sorted@[253], sorted@[y]));
                assert(rv.last() == order@[sorted@[253].pos as int]@);
            }
        }
        assert(scored@ == scored_prefixes(ts, ov, ov.len() as int));
        assert(rv =~= sorted@.take(take as int).map_values(|x: ScoredPrefix| ov[x.pos as int]));
    }
    r
}

// ---------------------------------------------------------------------------
// Writing
// ---------------------------------------------------------------------------

/// `p` is a byte prefix of `tb` ending on a character boundary.
pub open spec fn prefix_matches(tb: Seq<u8>, p: Seq<u8>) -> bool {
    &&& p.len() <= tb.len()
    &&& tb.subrange(0, p.len() as int) == p
    &&& is_char_boundary(tb, p.len() as int)
}

/// The longest of the first `k` prefixes that matches (the first one among
/// equally long ones), as (prefix ID, length); (255, 0) when none matches.
pub open spec fn best_prefix_upto(tb: Seq<u8>, ps: Seq<Seq<char>>, k: int) -> (u8, int)
    decreases k,
{
    if k <= 0 {
        (255u8, 0)
    } else {
        let (bi, bl) = best_prefix_upto(tb, ps, k - 1);
        let p = encode_utf8(ps[k - 1]);
        if prefix_matches(tb, p) && p.len() > bl {
            ((k - 1) as u8, p.len() as int)
        } else {
            (bi, bl)
        }
    }
}

/// The prefix ID a term is stored under, and the length of that prefix.
pub open spec fn best_prefix_of(t: Seq<char>, ps: Seq<Seq<char>>) -> (u8, int) {
    best_prefix_upto(encode_utf8(t), ps, ps.len() as int)
}

/// The bytes of a term that follow its prefix.
pub open spec fn suffix_bytes(t: Seq<char>, ps: Seq<Seq<char>>) -> Seq<u8> {
    let tb = encode_utf8(t);
    tb.subrange(best_prefix_of(t, ps).1, tb.len() as int)
}

/// The suffixes of all terms, in ID order.
pub open spec fn suffix_blob(ts: Seq<Seq<char>>, ps: Seq<Seq<char>>) -> Seq<u8>
    decreases ts.len(),
{
    if ts.len() == 0 {
        Seq::empty()
    } else {
        suffix_blob(ts.drop_last(), ps) + suffix_bytes(ts.last(), ps)
    }
}

/// The id entries: prefix ID and suffix offset of each term.
pub open spec fn id_entries(ts: Seq<Seq<char>>, ps: Seq<Seq<char>>) -> Seq<u8>
    decreases ts.len(),
{
    if ts.len() == 0 {
        Seq::empty()
    } else {
        id_entries(ts.drop_last(), ps) + seq![best_prefix_of(ts.last(), ps).0] + le32(
            suffix_blob(ts.drop_last(), ps).len() as u32,
        )
    }
}

/// The prefix table: each prefix as a u16 length and its bytes.
pub open spec fn prefix_table(ps: Seq<Seq<char>>) -> Seq<u8>
    decreases ps.len(),
{
    if ps.len() == 0 {
        Seq::empty()
    } else {
        prefix_table(ps.drop_last()) + le16(encode_utf8(ps.last()).len() as u16) + encode_utf8(
            ps.last(),
        )
    }
}

/// The magic "RMDC".
pub open spec fn dict_magic() -> Seq<u8> {
    seq![0x52u8, 0x4du8, 0x44u8, 0x43u8]
}

/// The version 2 encoding of terms with a prefix table and a sorted index.
pub open spec fn dict_encoding(ts: Seq<Seq<char>>, ps: Seq<Seq<char>>, ids: Seq<u32>) -> Seq<u8> {
    dict_magic() + seq![2u8] + le32(ts.len() as u32) + seq![ps.len() as u8] + prefix_table(ps)
        + id_entries(ts, ps) + le32_seq(ids) + suffix_blob(ts, ps)
}

/// The longest matching prefix of a term: (prefix ID, rest of the term).
fn best_prefix<'a>(term: &'a str, prefixes: &Vec<String>) -> (r: (u8, &'a str))
    requires
        prefixes@.len() <= 254,
    ensures
        r.0 == best_prefix_of(term@, prefixes@.map_values(|s: String| s@)).0,
        r.1.spec_bytes() == suffix_bytes(term@, prefixes@.map_values(|s: String| s@)),
{
    let ghost ps = prefixes@.map_values(|s: String| s@);
    let ghost tb = term.spec_bytes();
    let tbytes = term.as_bytes();
    let mut best_id: u8 = 255;
    let mut best_len: usize = 0;
    let mut i: usize = 0;
    while i < prefixes.len()
        invariant
            prefixes@.len() <= 254,
            ps == prefixes@.map_values(|s: String| s@),
            tb == term.spec_bytes(),
            tbytes@ == tb,
            i <= prefixes@.len(),
            (best_id, best_len as int) == best_prefix_upto(tb, ps, i as int),
            best_len <= tb.len(),
        decreases prefixes@.len() - i,
    {
        let pb = prefixes[i].as_str().as_bytes();
        let plen = pb.len();
        if plen <= tbytes.len() && plen > best_len {
            let head = vstd::slice::slice_subrange(tbytes, 0, plen);
            if crate::text::bytes_eq(head, pb) && term.is_char_boundary(plen) {
                best_id = i as u8;
                best_len = plen;
            }
        }
        i = i + 1;
    }
    if best_id == 255 {
        proof {
            assert(tb.subrange(0, tb.len() as int) =~= tb);
            if best_len != 0 {
                lemma_best_upto_id(tb, ps, ps.len() as int);
            }
        }
        (255, term)
    } else {
        proof {
            lemma_best_upto_id(tb, ps, ps.len() as int);
        }
        let (_, rest) = term.split_at(best_len);
        (best_id, rest)
    }
}

/// A prefix was chosen exactly when the ID is not 255, and then its length
/// is a character boundary of the term.
proof fn lemma_best_upto_id(tb: Seq<u8>, ps: Seq<Seq<char>>, k: int)
    requires
        k <= 254,
        k <= ps.len(),
    ensures
        best_prefix_upto(tb, ps, k).1 >= 0,
        (best_prefix_upto(tb, ps, k).0 == 255) == (best_prefix_upto(tb, ps, k).1 == 0),
        best_prefix_upto(tb, ps, k).1 != 0 ==> is_char_boundary(tb, best_prefix_upto(tb, ps, k).1)
            && best_prefix_upto(tb, ps, k).1 <= tb.len(),
        best_prefix_upto(tb, ps, k).0 != 255 ==> best_prefix_upto(tb, ps, k).0 < k,
        best_prefix_upto(tb, ps, k).0 != 255 ==> prefix_matches(
            tb,
            encode_utf8(ps[best_prefix_upto(tb, ps, k).0 as int]),
        ) && encode_utf8(ps[best_prefix_upto(tb, ps, k).0 as int]).len() == best_prefix_upto(
            tb,
            ps,
            k,
        ).1,
    decreases k,
{
    if k > 0 {
        lemma_best_upto_id(tb, ps, k - 1);
    }
}

fn push_prefix_table(buf: &mut Vec<u8>, prefixes: &Vec<String>)
    ensures
        final(buf)@ == old(buf)@ + prefix_table(prefixes@.map_values(|s: String| s@)),
{
    let ghost ps = prefixes@.map_values(|s: String| s@);
    let ghost head = buf@;
    let mut i: usize = 0;
    while i < prefixes.len()
        invariant
            ps == prefixes@.map_values(|s: String| s@),
            i <= prefixes@.len(),
            buf@ == head + prefix_table(ps.take(i as int)),
        decreases prefixes@.len() - i,
    {
        let pb = prefixes[i].as_str().as_bytes();
        push_u16(buf, pb.len() as u16);
        push_bytes(buf, pb);
        i = i + 1;
        proof {
            assert(ps.take(i as int).drop_last() =~= ps.take(i - 1));
            assert(buf@ =~= head + prefix_table(ps.take(i as int)));
        }
    }
    assert(ps.take(i as int) =~= ps);
}

impl Dictionary {
    /// Serialize to the current format (version 2, prefix-compressed).
    pub fn to_bytes(&self) -> (r: Vec<u8>)
        ensures
            written_dictionary(self@, r@),
    {
        self.to_bytes_indexed()
    }

    /// Serialize to the prefix-compressed indexed format (version 2): the
    /// prefixes `detect_prefixes` picks, each term under its longest matching
    /// prefix, and the IDs in term order.
    #[verifier::rlimit(60)]
    #[verifier::spinoff_prover]
    pub fn to_bytes_indexed(&self) -> (r: Vec<u8>)
        ensures
            written_dictionary(self@, r@),
    {
        let n = self.len();
        let ghost ts = self@;
        let prefixes = detect_prefixes(self.id_to_term.as_slice());
        let ghost ps = prefixes@.map_values(|s: String| s@);
        proof {
            assert(self.id_to_term@.map_values(|s: String| s@) == ts);
        }
        let mut buf: Vec<u8> = Vec::new();
        buf.push(0x52u8);
        buf.push(0x4du8);
        buf.push(0x44u8);
        buf.push(0x43u8);
        buf.push(2u8);
        push_u32(&mut buf, n as u32);
        if n == 0 {
            buf.push(0u8);
            proof {
                let ids = Seq::<u32>::empty();
                assert(ts.len() == 0);
                if ps.len() > 0 {
                    assert(is_candidate(ts, encode_utf8(ps[0])));
                }
                assert(ps =~= Seq::<Seq<char>>::empty());
                assert(prefix_table(ps) =~= Seq::<u8>::empty());
                assert(id_entries(ts, ps) =~= Seq::<u8>::empty());
                assert(suffix_blob(ts, ps) =~= Seq::<u8>::empty());
                assert(le32_seq(ids) =~= Seq::<u8>::empty());
                assert(buf@ =~= dict_encoding(ts, ps, ids));
                assert(prefixes_chosen(ts, ps));
                assert(sorted_ids_of(ts, ids));
            }
            return buf;
        }
        let mut pids: Vec<u8> = Vec::new();
        let mut offsets: Vec<u32> = Vec::new();
        let mut blob: Vec<u8> = Vec::new();
        let mut i: usize = 0;
        while i < n
            invariant
                n == self.id_to_term@.len(),
                ts == self.id_to_term@.map_values(|s: String| s@),
                ps == prefixes@.map_values(|s: String| s@),
                prefixes@.len() <= 254,
                i <= n,
                pids@.len() == i,
                offsets@.len() == i,
                blob@ == suffix_blob(ts.take(i as int), ps),
                forall|k: int| 0 <= k < i ==> #[trigger] pids@[k] == best_prefix_of(ts[k], ps).0,
                forall|k: int| 0 <= k < i ==> #[trigger] offsets@[k] == suffix_blob(ts.take(k), ps).len() as u32,
            decreases n - i,
        {
            let term = self.id_to_term[i].as_str();
            let (pid, suffix) = best_prefix(term, &prefixes);
            pids.push(pid);
            offsets.push(blob.len() as u32);
            push_bytes(&mut blob, suffix.as_bytes());
            i = i + 1;
            proof {
                assert(ts.take(i as int).drop_last() =~= ts.take(i - 1));
                assert(ts.take(i as int).last() == ts[i - 1]);
            }
        }
        let sorted_ids = sort_ids_by_term(&self.id_to_term);
        buf.push(prefixes.len() as u8);
        let ghost h = buf@;
        push_prefix_table(&mut buf, &prefixes);
        let ghost h2 = buf@;
        let mut k: usize = 0;
        while k < n
            invariant
                n == ts.len(),
                pids@.len() == n,
                offsets@.len() == n,
                forall|q: int| 0 <= q < n ==> #[trigger] pids@[q] == best_prefix_of(ts[q], ps).0,
                forall|q: int| 0 <= q < n ==> #[trigger] offsets@[q] == suffix_blob(ts.take(q), ps).len() as u32,
                k <= n,
                buf@ == h2 + id_entries(ts.take(k as int), ps),
            decreases n - k,
        {
            buf.push(pids[k]);
            push_u32(&mut buf, offsets[k]);
            k = k + 1;
            proof {
                let tk = ts.take(k as int);
                assert(tk.drop_last() =~= ts.take(k - 1));
                assert(tk.last() == ts[k - 1]);
                assert(buf@ =~= h2 + id_entries(tk, ps));
            }
        }
        let ghost h3 = buf@;
        let mut j: usize = 0;
        while j < sorted_ids.len()
            invariant
                j <= sorted_ids@.len(),
                buf@ == h3 + le32_seq(sorted_ids@.take(j as int)),
            decreases sorted_ids@.len() - j,
        {
            push_u32(&mut buf, sorted_ids[j]);
            j = j + 1;
            proof {
                assert(sorted_ids@.take(j as int).drop_last() =~= sorted_ids@.take(j - 1));
            }
        }
        let ghost h4 = buf@;
        push_bytes(&mut buf, blob.as_slice());
        proof {
            assert(ts.take(n as int) =~= ts);
            assert(sorted_ids@.take(j as int) =~= sorted_ids@);
            assert(buf@ =~= dict_encoding(ts, ps, sorted_ids@));
        }
        buf
    }
}

// ---------------------------------------------------------------------------
// Reading
// ---------------------------------------------------------------------------

/// The prefix table: `k` entries of a u16 length and UTF-8 bytes, from `pos`;
/// the prefixes and the position after them.
pub open spec fn parse_prefixes(d: Seq<u8>, pos: int, k: nat) -> Option<(Seq<Seq<char>>, int)>
    decreases k,
{
    if k == 0 {
        Some((Seq::empty(), pos))
    } else if pos + 2 > d.len() {
        None
    } else {
        let l = get_le16(d, pos) as int;
        if pos + 2 + l > d.len() {
            None
        } else {
            match decoded(d.subrange(pos + 2, pos + 2 + l)) {
                None => None,
                Some(p) => match parse_prefixes(d, pos + 2 + l, (k - 1) as nat) {
                    None => None,
                    Some((rest, e)) => Some((seq![p] + rest, e)),
                },
            }
        }
    }
}

/// The layout of a serialized dictionary: (version, count, prefixes,
/// start of the id entries, of the sorted index, of the blob).
pub open spec fn dict_layout(d: Seq<u8>) -> Option<(u8, u32, Seq<Seq<char>>, int, int, int)> {
    if d.len() < 9 || d.subrange(0, 4) != dict_magic() {
        None
    } else {
        let n = get_le32(d, 5) as int;
        if d[4] == 1 {
            if 9 + 12 * n > d.len() {
                None
            } else {
                Some((1u8, n as u32, Seq::empty(), 9, 9 + 4 * n, 9 + 12 * n))
            }
        } else if d[4] == 2 {
            if d.len() < 10 {
                None
            } else {
            match parse_prefixes(d, 10, d[9] as nat) {
                None => None,
                Some((ps, off)) => if off + 9 * n > d.len() {
                    None
                } else {
                    Some((2u8, n as u32, ps, off, off + 5 * n, off + 9 * n))
                },
            }
            }
        } else {
            None
        }
    }
}

/// Inputs the reader can take: the section offsets fit in `usize`.
pub open spec fn dict_readable(d: Seq<u8>) -> bool {
    d.len() >= 9 ==> d.len() + 12 * get_le32(d, 5) + 9 <= usize::MAX
}

/// The blob range of entry `id`: (start, end) as absolute positions.
pub open spec fn entry_range(d: Seq<u8>, id: int) -> (int, int) {
    let lay = dict_layout(d).unwrap();
    let n = lay.1 as int;
    let blob = lay.5;
    if lay.0 == 1 {
        let pos = 9 + 4 * id;
        let end = if id + 1 < n { get_le32(d, pos + 4) as int } else { d.len() - blob };
        (blob + get_le32(d, pos), blob + end)
    } else {
        let pos = lay.3 + 5 * id;
        let end = if id + 1 < n { get_le32(d, pos + 6) as int } else { d.len() - blob };
        (blob + get_le32(d, pos + 1), blob + end)
    }
}

/// The prefix ID of version 2 entry `id`.
pub open spec fn entry_prefix_id(d: Seq<u8>, id: int) -> u8 {
    d[dict_layout(d).unwrap().3 + 5 * id]
}

/// The ID at position `j` of the sorted index.
pub open spec fn sorted_id(d: Seq<u8>, j: int) -> u32 {
    let lay = dict_layout(d).unwrap();
    if lay.0 == 1 {
        get_le32(d, lay.4 + 8 * j + 4)
    } else {
        get_le32(d, lay.4 + 4 * j)
    }
}

/// The blob start recorded at position `j` of a version 1 sorted index.
pub open spec fn sorted_offset_v1(d: Seq<u8>, j: int) -> int {
    get_le32(d, dict_layout(d).unwrap().4 + 8 * j) as int
}

/// The bytes a version 1 lookup compares at position `j` of the sorted index.
pub open spec fn sorted_range_v1(d: Seq<u8>, j: int) -> (int, int) {
    let lay = dict_layout(d).unwrap();
    (lay.5 + sorted_offset_v1(d, j), entry_range(d, sorted_id(d, j) as int).1)
}

/// Every read the reader can make stays inside the data.
pub open spec fn entries_safe(d: Seq<u8>) -> bool {
    let lay = dict_layout(d).unwrap();
    let n = lay.1 as int;
    &&& forall|id: int|
        0 <= id < n ==> #[trigger] entry_range(d, id).0 <= entry_range(d, id).1 <= d.len()
    &&& forall|j: int| 0 <= j < n ==> (#[trigger] sorted_id(d, j) as int) < n
    &&& lay.0 == 1 ==> forall|j: int|
        0 <= j < n ==> #[trigger] sorted_range_v1(d, j).0 <= sorted_range_v1(d, j).1 <= d.len()
}

/// The term stored under an ID.
pub open spec fn spec_resolve(d: Seq<u8>, id: int) -> Option<Seq<char>> {
    let lay = dict_layout(d).unwrap();
    if id < 0 || id >= lay.1 {
        None
    } else {
        let (a, b) = entry_range(d, id);
        match decoded(d.subrange(a, b)) {
            None => None,
            Some(sfx) => if lay.0 == 1 {
                Some(sfx)
            } else {
                let pid = entry_prefix_id(d, id);
                let ps = lay.2;
                if ps.len() == 0 || pid == 255 {
                    Some(sfx)
                } else if pid >= ps.len() {
                    None
                } else if ps[pid as int].len() == 0 {
                    Some(sfx)
                } else {
                    Some(ps[pid as int] + sfx)
                }
            },
        }
    }
}

/// The bytes a lookup compares for position `j` of the sorted index, when
/// they decode.
pub open spec fn sorted_term_bytes(d: Seq<u8>, j: int) -> Option<Seq<u8>> {
    let lay = dict_layout(d).unwrap();
    if lay.0 == 1 {
        let (a, b) = sorted_range_v1(d, j);
        match decoded(d.subrange(a, b)) {
            None => None,
            Some(_) => Some(d.subrange(a, b)),
        }
    } else {
        let id = sorted_id(d, j) as int;
        let (a, b) = entry_range(d, id);
        match decoded(d.subrange(a, b)) {
            None => None,
            Some(_) => {
                let pid = entry_prefix_id(d, id);
                let ps = lay.2;
                let pre = if pid == 255 || ps.len() == 0 || pid >= ps.len() {
                    Seq::empty()
                } else {
                    encode_utf8(ps[pid as int])
                };
                Some(pre + d.subrange(a, b))
            },
        }
    }
}

/// The sorted index is in strictly increasing term order and every entry it
/// names decodes: what binary search needs to find every term.
pub open spec fn index_ordered(d: Seq<u8>) -> bool {
    let n = dict_layout(d).unwrap().1 as int;
    &&& forall|j: int| 0 <= j < n ==> (#[trigger] sorted_term_bytes(d, j)) is Some
    &&& forall|i: int, j: int|
        0 <= i < j < n ==> lex_lt(
            (#[trigger] sorted_term_bytes(d, i))->0,
            (#[trigger] sorted_term_bytes(d, j))->0,
        )
}

fn parse_prefix_table(data: &Vec<u8>, k: usize) -> (r: Option<(Vec<String>, usize)>)
    requires
        10 <= data@.len(),
    ensures
        match r {
            None => parse_prefixes(data@, 10, k as nat) is None,
            Some((ps, e)) => parse_prefixes(data@, 10, k as nat) == Some(
                (ps@.map_values(|s: String| s@), e as int),
            ) && e <= data@.len(),
        },
{
    let mut offset: usize = 10;
    let mut ps: Vec<String> = Vec::new();
    let mut i: usize = 0;
    while i < k
        invariant
            i <= k,
            10 <= offset <= data@.len(),
            parse_prefixes(data@, 10, k as nat) == match parse_prefixes(
                data@,
                offset as int,
                (k - i) as nat,
            ) {
                None => None,
                Some((rest, e)) => Some((ps@.map_values(|s: String| s@) + rest, e)),
            },
        decreases k - i,
    {
        if data.len() - offset < 2 {
            return None;
        }
        let len = read_u16(data.as_slice(), offset) as usize;
        let start = offset + 2;
        if len > data.len() - start {
            return None;
        }
        let bytes = vstd::slice::slice_subrange(data.as_slice(), start, start + len);
        match decode_string(bytes) {
            None => {
                return None;
            },
            Some(p) => {
                let ghost before = ps@.map_values(|s: String| s@);
                ps.push(p);
                proof {
                    assert(ps@.map_values(|s: String| s@) =~= before.push(p@));
                    match parse_prefixes(data@, (start + len) as int, (k - i - 1) as nat) {
                        None => {},
                        Some((rest, e)) => {
                            assert(before + (seq![p@] + rest) =~= before.push(p@) + rest);
                        },
                    }
                }
                offset = start + len;
            },
        }
        i = i + 1;
    }
    proof {
        match parse_prefixes(data@, offset as int, 0) {
            None => {},
            Some((rest, e)) => {
                assert(ps@.map_values(|s: String| s@) + rest =~= ps@.map_values(|s: String| s@));
            },
        }
    }
    Some((ps, offset))
}

proof fn lemma_encode_empty(s: Seq<char>)
    ensures
        (encode_utf8(s).len() == 0) == (s.len() == 0),
{
    if s.len() > 0 {
        assert(encode_scalar(s[0] as u32).len() >= 1);
        assert(encode_utf8(s) == encode_scalar(s[0] as u32) + encode_utf8(s.drop_first()));
    }
}

/// Dictionary that answers `resolve` and `lookup` on the serialized bytes.
pub struct IndexedDictionary {
    data: Vec<u8>,
    version: u8,
    count: u32,
    prefixes: Vec<String>,
    id_entries_start: usize,
    sorted_index_start: usize,
    blob_start: usize,
}

impl View for IndexedDictionary {
    type V = Seq<u8>;

    closed spec fn view(&self) -> Seq<u8> {
        self.data@
    }
}

impl IndexedDictionary {
    #[verifier::type_invariant]
    closed spec fn layout_agrees(self) -> bool {
        &&& dict_layout(self.data@) == Some(
            (
                self.version,
                self.count,
                self.prefixes@.map_values(|s: String| s@),
                self.id_entries_start as int,
                self.sorted_index_start as int,
                self.blob_start as int,
            ),
        )
        &&& self.data@.len() + 12 * self.count + 9 <= usize::MAX
    }

    /// Parse a serialized dictionary (version 1 or 2).
    pub fn from_bytes(data: Vec<u8>) -> (r: Result<Self, String>)
        requires
            dict_readable(data@),
        ensures
            r is Ok <==> dict_layout(data@) is Some,
            r matches Ok(d) ==> d@ == data@,
    {
        if data.len() < 9 {
            return Err("IndexedDictionary: data too short".to_string());
        }
        let magic_ok = data[0] == 0x52u8 && data[1] == 0x4du8 && data[2] == 0x44u8 && data[3]
            == 0x43u8;
        proof {
            if magic_ok {
                assert(data@.subrange(0, 4) =~= dict_magic());
            } else if data@.subrange(0, 4) == dict_magic() {
                assert(data@[0] == data@.subrange(0, 4)[0]);
                assert(data@[1] == data@.subrange(0, 4)[1]);
                assert(data@[2] == data@.subrange(0, 4)[2]);
                assert(data@[3] == data@.subrange(0, 4)[3]);
            }
        }
        if !magic_ok {
            return Err("IndexedDictionary: bad magic".to_string());
        }
        let version = data[4];
        let count = read_u32(data.as_slice(), 5);
        let n = count as usize;
        if version == 1 {
            let id_entries_start: usize = 9;
            let sorted_index_start = id_entries_start + n * 4;
            let blob_start = sorted_index_start + n * 8;
            if blob_start > data.len() {
                return Err("IndexedDictionary v1: data truncated".to_string());
            }
            let prefixes: Vec<String> = Vec::new();
            assert(prefixes@.map_values(|s: String| s@) =~= Seq::<Seq<char>>::empty());
            Ok(IndexedDictionary {
                data,
                version: 1,
                count,
                prefixes,
                id_entries_start,
                sorted_index_start,
                blob_start,
            })
        } else if version == 2 {
            if data.len() < 10 {
                return Err("IndexedDictionary v2: prefix table truncated".to_string());
            }
            let prefix_count = data[9] as usize;
            match parse_prefix_table(&data, prefix_count) {
                None => Err("IndexedDictionary v2: prefix table truncated".to_string()),
                Some((prefixes, offset)) => {
                    let id_entries_start = offset;
                    let sorted_index_start = id_entries_start + n * 5;
                    let blob_start = sorted_index_start + n * 4;
                    if blob_start > data.len() {
                        return Err("IndexedDictionary v2: data truncated".to_string());
                    }
                    Ok(IndexedDictionary {
                        data,
                        version: 2,
                        count,
                        prefixes,
                        id_entries_start,
                        sorted_index_start,
                        blob_start,
                    })
                },
            }
        } else {
            Err("IndexedDictionary: unsupported version".to_string())
        }
    }

    /// Number of entries.
    pub fn len(&self) -> (r: usize)
        ensures
            r == dict_layout(self@).unwrap().1,
    {
        proof {
            use_type_invariant(self);
        }
        self.count as usize
    }

    /// Whether the dictionary holds no entry.
    pub fn is_empty(&self) -> (r: bool)
        ensures
            r == (dict_layout(self@).unwrap().1 == 0),
    {
        proof {
            use_type_invariant(self);
        }
        self.count == 0
    }
}

impl IndexedDictionary {
    /// Start and end of entry `id` relative to the blob.
    fn entry_offsets(&self, id: u32) -> (r: (usize, usize))
        requires
            (id as int) < dict_layout(self@).unwrap().1,
        ensures
            self.blob_start + r.0 == entry_range(self@, id as int).0,
            self.blob_start + r.1 == entry_range(self@, id as int).1,
            r.0 <= u32::MAX,
            self.blob_start <= self@.len(),
            self.blob_start == dict_layout(self@).unwrap().5,
    {
        proof {
            use_type_invariant(self);
        }
        let d = self.data.as_slice();
        let n = self.count;
        if self.version == 1 {
            let pos = 9 + 4 * (id as usize);
            let start = read_u32(d, pos) as usize;
            let end = if id + 1 < n {
                read_u32(d, pos + 4) as usize
            } else {
                d.len() - self.blob_start
            };
            (start, end)
        } else {
            let pos = self.id_entries_start + 5 * (id as usize);
            let start = read_u32(d, pos + 1) as usize;
            let end = if id + 1 < n {
                read_u32(d, pos + 6) as usize
            } else {
                d.len() - self.blob_start
            };
            (start, end)
        }
    }

    /// Whether every read `resolve` and `lookup` can make stays inside the data.
    #[verifier::rlimit(40)]
    #[verifier::spinoff_prover]
    pub fn check_entries(&self) -> (r: bool)
        ensures
            r == entries_safe(self@),
    {
        proof {
            use_type_invariant(self);
        }
        let n = self.count;
        let len = self.data.len();
        let mut id: u32 = 0;
        while id < n
            invariant
                n == dict_layout(self@).unwrap().1,
                len == self@.len(),
                id <= n,
                forall|q: int| 0 <= q < id ==> #[trigger] entry_range(self@, q).0 <= entry_range(self@, q).1 <= self@.len(),
            decreases n - id,
        {
            let (a, b) = self.entry_offsets(id);
            if !(a <= b && b <= len - self.blob_start) {
                proof {
                    assert(!(entry_range(self@, id as int).0 <= entry_range(self@, id as int).1 <= self@.len()));
                }
                return false;
            }
            id = id + 1;
        }
        let d = self.data.as_slice();
        let mut j: u32 = 0;
        while j < n
            invariant
                self.layout_agrees(),
                d@ == self@,
                n == dict_layout(self@).unwrap().1,
                len == self@.len(),
                j <= n,
                forall|q: int| 0 <= q < n ==> #[trigger] entry_range(self@, q).0 <= entry_range(self@, q).1 <= self@.len(),
                forall|q: int| 0 <= q < j ==> (#[trigger] sorted_id(self@, q) as int) < n,
                self.version == 1 ==> forall|q: int| 0 <= q < j ==> #[trigger] sorted_range_v1(self@, q).0 <= sorted_range_v1(self@, q).1 <= self@.len(),
            decreases n - j,
        {
            if self.version == 1 {
                let pos = self.sorted_index_start + 8 * (j as usize);
                let off = read_u32(d, pos) as usize;
                let id = read_u32(d, pos + 4);
                proof {
                    assert(id == sorted_id(self@, j as int));
                }
                if id >= n {
                    return false;
                }
                let (_, b) = self.entry_offsets(id);
                proof {
                    assert(off == sorted_offset_v1(self@, j as int));
                }
                if !(off <= b && b <= len - self.blob_start) {
                    proof {
                        assert(!(sorted_range_v1(self@, j as int).0 <= sorted_range_v1(self@, j as int).1 <= self@.len()));
                    }
                    return false;
                }
                proof {
                    assert(sorted_range_v1(self@, j as int).0 <= sorted_range_v1(self@, j as int).1 <= self@.len());
                }
            } else {
                let pos = self.sorted_index_start + 4 * (j as usize);
                let id = read_u32(d, pos);
                proof {
                    assert(id == sorted_id(self@, j as int));
                }
                if id >= n {
                    return false;
                }
            }
            let ghost jj = j as int;
            j = j + 1;
            proof {
                if self.version == 1 {
                    assert forall|q: int| 0 <= q < j implies #[trigger] sorted_range_v1(self@, q).0 <= sorted_range_v1(self@, q).1 <= self@.len() by {
                        if q < jj {
                        } else {
                            assert(q == jj);
                        }
                    }
                }
            }
        }
        true
    }

    /// The term stored under an ID.
    pub fn resolve(&self, id: u32) -> (r: Option<String>)
        requires
            (id as int) < dict_layout(self@).unwrap().1 ==> entry_range(self@, id as int).0
                <= entry_range(self@, id as int).1 <= self@.len(),
        ensures
            r matches Some(s) ==> spec_resolve(self@, id as int) == Some(s@),
            r is None ==> spec_resolve(self@, id as int) is None,
    {
        proof {
            use_type_invariant(self);
        }
        if id >= self.count {
            return None;
        }
        let (a, b) = self.entry_offsets(id);
        let bytes = vstd::slice::slice_subrange(self.data.as_slice(), self.blob_start + a, self.blob_start + b);
        let suffix = match decode_string(bytes) {
            None => {
                return None;
            },
            Some(s) => s,
        };
        if self.version == 1 {
            return Some(suffix);
        }
        let pid = self.data[self.id_entries_start + 5 * (id as usize)];
        if self.prefixes.len() == 0 || pid == 255 {
            return Some(suffix);
        }
        if (pid as usize) >= self.prefixes.len() {
            return None;
        }
        let prefix = self.prefixes[pid as usize].as_str();
        if prefix.as_bytes().len() == 0 {
            proof {
                lemma_encode_empty(prefix@);
            }
            return Some(suffix);
        }
        proof {
            assert(prefix@.len() != 0) by {
                if prefix@.len() == 0 {
                    assert(prefix@ =~= Seq::<char>::empty());
                }
            }
        }
        Some(crate::text::concat(prefix, suffix.as_str()))
    }

    /// The bytes a lookup compares for the ID at a sorted position, or `None`
    /// when the stored bytes are not UTF-8.
    fn sorted_term(&self, j: u32) -> (r: Option<Vec<u8>>)
        requires
            (j as int) < dict_layout(self@).unwrap().1,
            entries_safe(self@),
        ensures
            r matches Some(v) ==> sorted_term_bytes(self@, j as int) == Some(v@),
            r is None ==> sorted_term_bytes(self@, j as int) is None,
    {
        proof {
            use_type_invariant(self);
        }
        let d = self.data.as_slice();
        if self.version == 1 {
            let pos = self.sorted_index_start + 8 * (j as usize);
            let off = read_u32(d, pos) as usize;
            let id = read_u32(d, pos + 4);
            proof {
                assert(sorted_range_v1(self@, j as int).0 <= sorted_range_v1(self@, j as int).1 <= self@.len());
                assert((sorted_id(self@, j as int) as int) < dict_layout(self@).unwrap().1);
            }
            let (_, b) = self.entry_offsets(id);
            let bytes = vstd::slice::slice_subrange(d, self.blob_start + off, self.blob_start + b);
            match decode_string(bytes) {
                None => None,
                Some(_) => {
                    let mut v: Vec<u8> = Vec::new();
                    push_bytes(&mut v, bytes);
                    assert(v@ =~= bytes@);
                    Some(v)
                },
            }
        } else {
            let id = read_u32(d, self.sorted_index_start + 4 * (j as usize));
            proof {
                assert((sorted_id(self@, j as int) as int) < dict_layout(self@).unwrap().1);
                assert(entry_range(self@, id as int).0 <= entry_range(self@, id as int).1 <= self@.len());
            }
            let (a, b) = self.entry_offsets(id);
            let bytes = vstd::slice::slice_subrange(d, self.blob_start + a, self.blob_start + b);
            match decode_string(bytes) {
                None => None,
                Some(_) => {
                    let pid = d[self.id_entries_start + 5 * (id as usize)];
                    let mut v: Vec<u8> = Vec::new();
                    if !(pid == 255 || self.prefixes.len() == 0 || (pid as usize) >= self.prefixes.len()) {
                        push_bytes(&mut v, self.prefixes[pid as usize].as_str().as_bytes());
                    }
                    push_bytes(&mut v, bytes);
                    proof {
                        if pid == 255 || self.prefixes@.len() == 0 || pid >= self.prefixes@.len() {
                            assert(v@ =~= Seq::<u8>::empty() + bytes@);
                        }
                    }
                    Some(v)
                },
            }
        }
    }

    /// The ID of a term, by binary search over the sorted index.
    #[verifier::rlimit(40)]
    #[verifier::spinoff_prover]
    pub fn lookup(&self, term: &str) -> (r: Option<u32>)
        requires
            entries_safe(self@),
        ensures
            r matches Some(id) ==> exists|j: int|
                0 <= j < dict_layout(self@).unwrap().1 && sorted_id(self@, j) == id
                    && sorted_term_bytes(self@, j) == Some(term.spec_bytes()),
            index_ordered(self@) ==> (r is Some <==> exists|j: int|
                0 <= j < dict_layout(self@).unwrap().1 && sorted_term_bytes(self@, j) == Some(
                    term.spec_bytes(),
                )),
    {
        proof {
            use_type_invariant(self);
        }
        let ghost d = self@;
        let n = self.count;
        let target = term.as_bytes();
        let mut lo: u32 = 0;
        let mut hi: u32 = n;
        while lo < hi
            invariant
                n == dict_layout(d).unwrap().1,
                d == self@,
                entries_safe(d),
                target@ == term.spec_bytes(),
                lo <= hi <= n,
                index_ordered(d) ==> forall|q: int| 0 <= q < lo ==> lex_lt((#[trigger] sorted_term_bytes(d, q))->0, target@),
                index_ordered(d) ==> forall|q: int| hi <= q < n ==> lex_lt(target@, (#[trigger] sorted_term_bytes(d, q))->0),
                self.layout_agrees(),
            decreases hi - lo,
        {
            let mid = lo + (hi - lo) / 2;
            let mt = match self.sorted_term(mid) {
                None => {
                    return None;
                },
                Some(v) => v,
            };
            let c = compare_bytes(mt.as_slice(), target);
            if c == 0 {
                let id = if self.version == 1 {
                    read_u32(self.data.as_slice(), self.sorted_index_start + 8 * (mid as usize) + 4)
                } else {
                    read_u32(self.data.as_slice(), self.sorted_index_start + 4 * (mid as usize))
                };
                return Some(id);
            } else if c < 0 {
                proof {
                    if index_ordered(d) {
                        assert forall|q: int| 0 <= q < mid + 1 implies lex_lt((#[trigger] sorted_term_bytes(d, q))->0, target@) by {
                            if q < mid {
                                assert(lex_lt(sorted_term_bytes(d, q)->0, sorted_term_bytes(d, mid as int)->0));
                                lemma_lex_transitive(sorted_term_bytes(d, q)->0, mt@, target@);
                            }
                        }
                    }
                }
                lo = mid + 1;
            } else {
                proof {
                    if index_ordered(d) {
                        assert forall|q: int| mid <= q < n implies lex_lt(target@, (#[trigger] sorted_term_bytes(d, q))->0) by {
                            if q > mid {
                                assert(lex_lt(sorted_term_bytes(d, mid as int)->0, sorted_term_bytes(d, q)->0));
                                lemma_lex_transitive(target@, mt@, sorted_term_bytes(d, q)->0);
                            }
                        }
                    }
                }
                hi = mid;
            }
        }
        proof {
            if index_ordered(d) {
                assert forall|j: int| 0 <= j < n implies sorted_term_bytes(d, j) != Some(term.spec_bytes()) by {
                    if j < lo {
                        lemma_lex_irreflexive(target@);
                    } else {
                        lemma_lex_irreflexive(target@);
                    }
                }
            }
        }
        None
    }
}

// ---------------------------------------------------------------------------
// Reading into a Dictionary
// ---------------------------------------------------------------------------

/// The terms of a sequence interned in order: first occurrences only.
pub open spec fn interned(ts: Seq<Seq<char>>) -> Seq<Seq<char>>
    decreases ts.len(),
{
    if ts.len() == 0 {
        Seq::empty()
    } else {
        let s = interned(ts.drop_last());
        if s.contains(ts.last()) {
            s
        } else {
            s.push(ts.last())
        }
    }
}

/// The legacy format: `k` entries of a u32 length and UTF-8 bytes from `pos`.
pub open spec fn parse_legacy(d: Seq<u8>, pos: int, k: nat) -> Option<Seq<Seq<char>>>
    decreases k,
{
    if k == 0 {
        Some(Seq::empty())
    } else if pos + 4 > d.len() {
        None
    } else {
        let l = get_le32(d, pos) as int;
        if pos + 4 + l > d.len() {
            None
        } else {
            match decoded(d.subrange(pos + 4, pos + 4 + l)) {
                None => None,
                Some(t) => match parse_legacy(d, pos + 4 + l, (k - 1) as nat) {
                    None => None,
                    Some(rest) => Some(seq![t] + rest),
                },
            }
        }
    }
}

/// The terms an indexed dictionary resolves, among the first `k` IDs, in
/// ID order (IDs that do not resolve are skipped).
pub open spec fn resolved_terms(d: Seq<u8>, k: int) -> Seq<Seq<char>>
    decreases k,
{
    if k <= 0 {
        Seq::empty()
    } else {
        match spec_resolve(d, k - 1) {
            Some(t) => resolved_terms(d, k - 1).push(t),
            None => resolved_terms(d, k - 1),
        }
    }
}

/// Whether bytes start like an indexed dictionary.
pub open spec fn has_dict_magic(d: Seq<u8>) -> bool {
    d.len() >= 5 && d.subrange(0, 4) == dict_magic()
}

/// The terms a byte string holds, in either format.
pub open spec fn spec_dictionary_terms(d: Seq<u8>) -> Option<Seq<Seq<char>>> {
    if has_dict_magic(d) {
        match dict_layout(d) {
            None => None,
            Some(lay) => Some(interned(resolved_terms(d, lay.1 as int))),
        }
    } else if d.len() < 4 {
        None
    } else {
        match parse_legacy(d, 4, get_le32(d, 0) as nat) {
            None => None,
            Some(ts) => Some(interned(ts)),
        }
    }
}

/// Inputs `Dictionary::from_bytes` reads without running past the data.
pub open spec fn dictionary_bytes_ok(d: Seq<u8>) -> bool {
    has_dict_magic(d) ==> dict_readable(d) && (dict_layout(d) is Some ==> entries_safe(d))
}

proof fn lemma_interned_len(ts: Seq<Seq<char>>)
    ensures
        interned(ts).len() <= ts.len(),
    decreases ts.len(),
{
    if ts.len() > 0 {
        lemma_interned_len(ts.drop_last());
    }
}

impl Dictionary {
    /// Deserialize from any supported format (legacy, indexed v1 or v2).
    pub fn from_bytes(data: &[u8]) -> (r: Result<Self, String>)
        requires
            dictionary_bytes_ok(data@),
        ensures
            r is Ok <==> spec_dictionary_terms(data@) is Some,
            r matches Ok(dict) ==> spec_dictionary_terms(data@) == Some(dict@),
    {
        let magic = data.len() >= 5 && data[0] == 0x52u8 && data[1] == 0x4du8 && data[2] == 0x44u8
            && data[3] == 0x43u8;
        proof {
            if magic {
                assert(data@.subrange(0, 4) =~= dict_magic());
            } else if has_dict_magic(data@) {
                assert(data@[0] == data@.subrange(0, 4)[0]);
                assert(data@[1] == data@.subrange(0, 4)[1]);
                assert(data@[2] == data@.subrange(0, 4)[2]);
                assert(data@[3] == data@.subrange(0, 4)[3]);
            }
        }
        if magic {
            Self::from_bytes_indexed(data)
        } else {
            Self::from_bytes_legacy(data)
        }
    }

    fn from_bytes_legacy(data: &[u8]) -> (r: Result<Self, String>)
        requires
            !has_dict_magic(data@),
        ensures
            r is Ok <==> spec_dictionary_terms(data@) is Some,
            r matches Ok(dict) ==> spec_dictionary_terms(data@) == Some(dict@),
    {
        if data.len() < 4 {
            return Err("Dictionary data too short".to_string());
        }
        let count = read_u32(data, 0);
        let mut offset: usize = 4;
        let mut dict = Dictionary::new();
        let ghost mut seen: Seq<Seq<char>> = Seq::empty();
        let mut i: u32 = 0;
        while i < count
            invariant
                !has_dict_magic(data@),
                data@.len() >= 4,
                i <= count,
                count == get_le32(data@, 0),
                4 <= offset <= data@.len(),
                dict@ == interned(seen),
                seen.len() == i,
                parse_legacy(data@, 4, count as nat) == match parse_legacy(
                    data@,
                    offset as int,
                    (count - i) as nat,
                ) {
                    None => None,
                    Some(rest) => Some(seen + rest),
                },
            decreases count - i,
        {
            if data.len() - offset < 4 {
                proof {
                    assert(parse_legacy(data@, offset as int, (count - i) as nat) is None);
                    assert(parse_legacy(data@, 4, count as nat) is None);
                    assert(spec_dictionary_terms(data@) is None);
                }
                return Err("Unexpected end of dictionary data".to_string());
            }
            let len = read_u32(data, offset) as usize;
            let start = offset + 4;
            if len > data.len() - start {
                proof {
                    assert(parse_legacy(data@, offset as int, (count - i) as nat) is None);
                    assert(parse_legacy(data@, 4, count as nat) is None);
                    assert(spec_dictionary_terms(data@) is None);
                }
                return Err("Unexpected end of dictionary string data".to_string());
            }
            let bytes = vstd::slice::slice_subrange(data, start, start + len);
            match decode_string(bytes) {
                None => {
                    return Err("Invalid UTF-8 in dictionary".to_string());
                },
                Some(t) => {
                    proof {
                        lemma_interned_len(seen);
                    }
                    dict.intern(t.as_str());
                    proof {
                        let ns = seen.push(t@);
                        assert(ns.drop_last() =~= seen);
                        match parse_legacy(data@, (start + len) as int, (count - i - 1) as nat) {
                            None => {},
                            Some(rest) => {
                                assert(seen + (seq![t@] + rest) =~= ns + rest);
                            },
                        }
                        seen = ns;
                    }
                    offset = start + len;
                },
            }
            i = i + 1;
        }
        proof {
            assert(seen + Seq::<Seq<char>>::empty() =~= seen);
        }
        Ok(dict)
    }

    fn from_bytes_indexed(data: &[u8]) -> (r: Result<Self, String>)
        requires
            has_dict_magic(data@),
            dictionary_bytes_ok(data@),
        ensures
            r is Ok <==> spec_dictionary_terms(data@) is Some,
            r matches Ok(dict) ==> spec_dictionary_terms(data@) == Some(dict@),
    {
        let mut v: Vec<u8> = Vec::new();
        push_bytes(&mut v, data);
        assert(v@ =~= data@);
        let indexed = match IndexedDictionary::from_bytes(v) {
            Err(e) => {
                return Err(e);
            },
            Ok(x) => x,
        };
        let n = indexed.len();
        let mut dict = Dictionary::new();
        let mut id: usize = 0;
        while id < n
            invariant
                indexed@ == data@,
                entries_safe(data@),
                n == dict_layout(data@).unwrap().1,
                id <= n,
                dict@ == interned(resolved_terms(data@, id as int)),
            decreases n - id,
        {
            proof {
                assert(entry_range(data@, id as int).0 <= entry_range(data@, id as int).1 <= data@.len());
            }
            match indexed.resolve(id as u32) {
                Some(term) => {
                    proof {
                        lemma_resolved_terms_len(data@, id as int);
                        lemma_interned_len(resolved_terms(data@, id as int));
                    }
                    dict.intern(term.as_str());
                    proof {
                        let rt = resolved_terms(data@, id + 1);
                        assert(rt == resolved_terms(data@, id as int).push(term@));
                        assert(rt.drop_last() =~= resolved_terms(data@, id as int));
                    }
                },
                None => {},
            }
            id = id + 1;
        }
        Ok(dict)
    }
}

proof fn lemma_resolved_terms_len(d: Seq<u8>, k: int)
    requires
        k >= 0,
    ensures
        resolved_terms(d, k).len() <= k,
    decreases k,
{
    if k > 0 {
        lemma_resolved_terms_len(d, k - 1);
    }
}

/// Lookups and resolution shared by both dictionaries.
pub trait DictLookup {
    /// The lookups can run: their reads stay inside the data.
    spec fn ready(&self) -> bool;

    /// Look up an ID by term string.
    fn lookup(&self, term: &str) -> Option<u32>
        requires
            self.ready(),
    ;

    /// The term of an ID, when there is one.
    spec fn term_of(&self, id: u32) -> Option<Seq<char>>;

    /// Resolve an ID to its term string.
    fn resolve(&self, id: u32) -> (r: Option<String>)
        requires
            self.ready(),
        ensures
            r matches Some(s) ==> self.term_of(id) == Some(s@),
            r is None ==> self.term_of(id) is None,
    ;

    /// Number of entries.
    fn len(&self) -> usize;

    /// Whether the dictionary is empty.
    fn is_empty(&self) -> bool;
}

impl DictLookup for Dictionary {
    open spec fn ready(&self) -> bool {
        true
    }

    open spec fn term_of(&self, id: u32) -> Option<Seq<char>> {
        if id < self@.len() {
            Some(self@[id as int])
        } else {
            None
        }
    }

    fn lookup(&self, term: &str) -> (r: Option<u32>)
        ensures
            r is Some <==> self@.contains(term@),
            r matches Some(id) ==> id < self@.len() && self@[id as int] == term@,
    {
        Dictionary::lookup(self, term)
    }

    fn resolve(&self, id: u32) -> Option<String> {
        match Dictionary::resolve(self, id) {
            Some(t) => Some(t.to_owned()),
            None => None,
        }
    }

    fn len(&self) -> (r: usize)
        ensures
            r == self@.len(),
    {
        Dictionary::len(self)
    }

    fn is_empty(&self) -> (r: bool)
        ensures
            r == (self@.len() == 0),
    {
        Dictionary::is_empty(self)
    }
}

impl DictLookup for IndexedDictionary {
    open spec fn ready(&self) -> bool {
        entries_safe(self@)
    }

    open spec fn term_of(&self, id: u32) -> Option<Seq<char>> {
        spec_resolve(self@, id as int)
    }

    fn lookup(&self, term: &str) -> (r: Option<u32>)
        ensures
            r matches Some(id) ==> exists|j: int|
                0 <= j < dict_layout(self@).unwrap().1 && sorted_id(self@, j) == id
                    && sorted_term_bytes(self@, j) == Some(term.spec_bytes()),
            index_ordered(self@) ==> (r is Some <==> exists|j: int|
                0 <= j < dict_layout(self@).unwrap().1 && sorted_term_bytes(self@, j) == Some(
                    term.spec_bytes(),
                )),
    {
        IndexedDictionary::lookup(self, term)
    }

    fn resolve(&self, id: u32) -> (r: Option<String>) {
        IndexedDictionary::resolve(self, id)
    }

    fn len(&self) -> (r: usize)
        ensures
            r == dict_layout(self@).unwrap().1,
    {
        IndexedDictionary::len(self)
    }

    fn is_empty(&self) -> (r: bool)
        ensures
            r == (dict_layout(self@).unwrap().1 == 0),
    {
        IndexedDictionary::is_empty(self)
    }
}

// ---------------------------------------------------------------------------
// Round trip
// ---------------------------------------------------------------------------

proof fn lemma_prefix_table_front(ps: Seq<Seq<char>>)
    requires
        ps.len() > 0,
    ensures
        prefix_table(ps) == le16(encode_utf8(ps[0]).len() as u16) + encode_utf8(ps[0])
            + prefix_table(ps.drop_first()),
    decreases ps.len(),
{
    if ps.len() > 1 {
        lemma_prefix_table_front(ps.drop_last());
        assert(ps.drop_last().drop_first() =~= ps.drop_first().drop_last());
        assert(ps.drop_first().last() == ps.last());
        assert(ps.drop_last()[0] == ps[0]);
    } else {
        assert(ps.drop_first() =~= Seq::<Seq<char>>::empty());
        assert(ps.drop_last() =~= Seq::<Seq<char>>::empty());
    }
}

proof fn lemma_parse_prefix_table(a: Seq<u8>, ps: Seq<Seq<char>>, b: Seq<u8>)
    requires
        forall|k: int| 0 <= k < ps.len() ==> encode_utf8(#[trigger] ps[k]).len() <= u16::MAX,
    ensures
        parse_prefixes(a + prefix_table(ps) + b, a.len() as int, ps.len()) == Some(
            (ps, (a.len() + prefix_table(ps).len()) as int),
        ),
    decreases ps.len(),
{
    if ps.len() == 0 {
        assert(ps =~= Seq::<Seq<char>>::empty());
    } else {
        let e0 = encode_utf8(ps[0]);
        let l0 = e0.len() as u16;
        let rest = ps.drop_first();
        lemma_prefix_table_front(ps);
        let t = prefix_table(rest);
        let d = a + prefix_table(ps) + b;
        assert(d =~= a + le16(l0) + (e0 + t + b));
        lemma_get_le16_at(a, l0, e0 + t + b);
        crate::codec::lemma_le16_roundtrip(l0);
        let pos = a.len() as int;
        assert(d.subrange(pos + 2, pos + 2 + e0.len()) =~= e0);
        lemma_decoded_encode(ps[0]);
        assert forall|k: int| 0 <= k < rest.len() implies encode_utf8(#[trigger] rest[k]).len() <= u16::MAX by {
            assert(rest[k] == ps[k + 1]);
        }
        lemma_parse_prefix_table(a + le16(l0) + e0, rest, b);
        assert(d =~= (a + le16(l0) + e0) + t + b);
        assert(seq![ps[0]] + rest =~= ps);
    }
}

proof fn lemma_suffix_blob_take(ts: Seq<Seq<char>>, ps: Seq<Seq<char>>, i: int)
    requires
        0 <= i <= ts.len(),
    ensures
        suffix_blob(ts.take(i), ps).len() <= suffix_blob(ts, ps).len(),
        suffix_blob(ts, ps).subrange(0, suffix_blob(ts.take(i), ps).len() as int) == suffix_blob(
            ts.take(i),
            ps,
        ),
    decreases ts.len(),
{
    if i == ts.len() {
        assert(ts.take(i) =~= ts);
        assert(suffix_blob(ts, ps).subrange(0, suffix_blob(ts, ps).len() as int) =~= suffix_blob(ts, ps));
    } else {
        let t = ts.drop_last();
        lemma_suffix_blob_take(t, ps, i);
        assert(t.take(i) =~= ts.take(i));
        let sb = suffix_blob(ts, ps);
        assert(sb == suffix_blob(t, ps) + suffix_bytes(ts.last(), ps));
        assert(sb.subrange(0, suffix_blob(ts.take(i), ps).len() as int) =~= suffix_blob(t, ps).subrange(0, suffix_blob(ts.take(i), ps).len() as int));
    }
}

proof fn lemma_suffix_blob_step(ts: Seq<Seq<char>>, ps: Seq<Seq<char>>, i: int)
    requires
        0 <= i < ts.len(),
    ensures
        suffix_blob(ts.take(i + 1), ps) == suffix_blob(ts.take(i), ps) + suffix_bytes(ts[i], ps),
{
    assert(ts.take(i + 1).drop_last() =~= ts.take(i));
}

#[verifier::rlimit(40)]
#[verifier::spinoff_prover]
proof fn lemma_id_entries(ts: Seq<Seq<char>>, ps: Seq<Seq<char>>, i: int)
    requires
        0 <= i < ts.len(),
    ensures
        id_entries(ts, ps).len() == 5 * ts.len(),
        id_entries(ts, ps)[5 * i] == best_prefix_of(ts[i], ps).0,
        get_le32(id_entries(ts, ps), 5 * i + 1) == suffix_blob(ts.take(i), ps).len() as u32,
    decreases ts.len(),
{
    let t = ts.drop_last();
    lemma_id_entries_len(t, ps);
    lemma_id_entries_len(ts, ps);
    let e = id_entries(ts, ps);
    let et = id_entries(t, ps);
    let tail = seq![best_prefix_of(ts.last(), ps).0];
    let l = le32(suffix_blob(t, ps).len() as u32);
    assert(e == et + tail + l);
    if i == ts.len() - 1 {
        assert(t =~= ts.take(i));
        assert(e =~= (et + tail) + l + Seq::<u8>::empty());
        lemma_get_le32_at(et + tail, suffix_blob(t, ps).len() as u32, Seq::empty());
    } else {
        lemma_id_entries(t, ps, i);
        assert(t.take(i) =~= ts.take(i));
        assert(t[i] == ts[i]);
        assert(e[5 * i] == et[5 * i]);
        assert(e =~= Seq::<u8>::empty() + et + (tail + l));
        lemma_get_le32_shift(Seq::<u8>::empty(), et, tail + l, 5 * i + 1);
    }
}

proof fn lemma_id_entries_len(ts: Seq<Seq<char>>, ps: Seq<Seq<char>>)
    ensures
        id_entries(ts, ps).len() == 5 * ts.len(),
    decreases ts.len(),
{
    if ts.len() > 0 {
        lemma_id_entries_len(ts.drop_last(), ps);
    }
}

proof fn lemma_suffix_decodes(t: Seq<char>, ps: Seq<Seq<char>>)
    requires
        ps.len() <= 254,
    ensures
        decoded(suffix_bytes(t, ps)) is Some,
        ({
            let (pid, bl) = best_prefix_of(t, ps);
            let sfx = decoded(suffix_bytes(t, ps))->0;
            &&& (pid == 255) == (bl == 0)
            &&& pid == 255 ==> sfx == t
            &&& pid != 255 ==> (pid as int) < ps.len() && ps[pid as int].len() > 0 && ps[pid as int]
                + sfx == t && encode_utf8(ps[pid as int]) + suffix_bytes(t, ps) == encode_utf8(t)
            &&& pid == 255 ==> suffix_bytes(t, ps) == encode_utf8(t)
        }),
{
    let tb = encode_utf8(t);
    encode_utf8_valid_utf8(t);
    encode_utf8_decode_utf8(t);
    lemma_best_upto_id(tb, ps, ps.len() as int);
    let (pid, bl) = best_prefix_of(t, ps);
    let sfx = suffix_bytes(t, ps);
    if pid == 255 {
        assert(sfx =~= tb);
    } else {
        valid_utf8_split(tb, bl);
        decode_utf8_split(tb, bl);
        let p = ps[pid as int];
        assert(tb.subrange(0, bl) == encode_utf8(p));
        encode_utf8_decode_utf8(p);
        lemma_encode_empty(p);
        assert(encode_utf8(p) + sfx =~= tb);
    }
}

/// The pieces of a version 2 encoding.
proof fn lemma_encoding_parts(ts: Seq<Seq<char>>, ps: Seq<Seq<char>>, ids: Seq<u32>)
    requires
        ts.len() <= u32::MAX,
        ps.len() <= 254,
        ids.len() == ts.len(),
        forall|k: int| 0 <= k < ps.len() ==> encode_utf8(#[trigger] ps[k]).len() <= u16::MAX,
    ensures
        ({
            let d = dict_encoding(ts, ps, ids);
            let n = ts.len() as int;
            let off = 10 + prefix_table(ps).len() as int;
            &&& d.len() == off + 9 * n + suffix_blob(ts, ps).len()
            &&& d.len() >= 10
            &&& d.subrange(0, 4) == dict_magic()
            &&& d[4] == 2
            &&& get_le32(d, 5) == n
            &&& d[9] == ps.len()
            &&& parse_prefixes(d, 10, ps.len()) == Some((ps, off))
            &&& d.subrange(off, off + 5 * n) == id_entries(ts, ps)
            &&& d.subrange(off + 5 * n, off + 9 * n) == le32_seq(ids)
            &&& d.subrange(off + 9 * n, d.len() as int) == suffix_blob(ts, ps)
        }),
{
    let n = ts.len() as int;
    let d = dict_encoding(ts, ps, ids);
    let h = dict_magic() + seq![2u8];
    let t = prefix_table(ps);
    let e = id_entries(ts, ps);
    let s = le32_seq(ids);
    let b = suffix_blob(ts, ps);
    lemma_id_entries_len(ts, ps);
    lemma_le32_seq_len(ids);
    assert(d =~= h + le32(n as u32) + (seq![ps.len() as u8] + t + e + s + b));
    lemma_get_le32_at(h, n as u32, seq![ps.len() as u8] + t + e + s + b);
    let h10 = h + le32(n as u32) + seq![ps.len() as u8];
    assert(h10.len() == 10);
    assert(d =~= h10 + t + (e + s + b));
    lemma_parse_prefix_table(h10, ps, e + s + b);
    assert(d.subrange(0, 4) =~= dict_magic());
    let off = 10 + t.len() as int;
    assert(d.subrange(off, off + 5 * n) =~= e);
    assert(d.subrange(off + 5 * n, off + 9 * n) =~= s);
    assert(d.subrange(off + 9 * n, d.len() as int) =~= b);
}

/// What the writer's inputs satisfy.
pub open spec fn encodable(ts: Seq<Seq<char>>, ps: Seq<Seq<char>>, ids: Seq<u32>) -> bool {
    &&& distinct_terms(ts)
    &&& ts.len() <= u32::MAX
    &&& prefixes_chosen(ts, ps)
    &&& sorted_ids_of(ts, ids)
    &&& forall|k: int| 0 <= k < ps.len() ==> encode_utf8(#[trigger] ps[k]).len() <= u16::MAX
    &&& suffix_blob(ts, ps).len() <= u32::MAX
}

proof fn lemma_layout(ts: Seq<Seq<char>>, ps: Seq<Seq<char>>, ids: Seq<u32>)
    requires
        encodable(ts, ps, ids),
    ensures
        ({
            let d = dict_encoding(ts, ps, ids);
            let n = ts.len() as int;
            let off = 10 + prefix_table(ps).len() as int;
            &&& dict_layout(d) == Some((2u8, n as u32, ps, off, off + 5 * n, off + 9 * n))
            &&& d.len() == off + 9 * n + suffix_blob(ts, ps).len()
        }),
{
    lemma_encoding_parts(ts, ps, ids);
}

#[verifier::rlimit(40)]
#[verifier::spinoff_prover]
proof fn lemma_entry(ts: Seq<Seq<char>>, ps: Seq<Seq<char>>, ids: Seq<u32>, id: int)
    requires
        encodable(ts, ps, ids),
        0 <= id < ts.len(),
    ensures
        ({
            let d = dict_encoding(ts, ps, ids);
            let (a, b) = entry_range(d, id);
            &&& a <= b <= d.len()
            &&& d.subrange(a, b) == suffix_bytes(ts[id], ps)
            &&& entry_prefix_id(d, id) == best_prefix_of(ts[id], ps).0
        }),
{
    let d = dict_encoding(ts, ps, ids);
    let n = ts.len() as int;
    let off = 10 + prefix_table(ps).len() as int;
    let blob = off + 9 * n;
    lemma_encoding_parts(ts, ps, ids);
    lemma_layout(ts, ps, ids);
    let e = id_entries(ts, ps);
    let bl = suffix_blob(ts, ps);
    lemma_id_entries(ts, ps, id);
    let pos = off + 5 * id;
    assert(d[pos] == d.subrange(off, off + 5 * n)[5 * id]);
    assert(d.subrange(pos + 1, pos + 5) =~= e.subrange(5 * id + 1, 5 * id + 5));
    lemma_get_le32_sub(d, e, pos + 1, 5 * id + 1);
    lemma_suffix_blob_take(ts, ps, id);
    lemma_suffix_blob_take(ts, ps, id + 1);
    lemma_suffix_blob_step(ts, ps, id);
    let o1 = suffix_blob(ts.take(id), ps).len() as int;
    let o2 = suffix_blob(ts.take(id + 1), ps).len() as int;
    if id + 1 < n {
        lemma_id_entries(ts, ps, id + 1);
        assert(d.subrange(pos + 6, pos + 10) =~= e.subrange(5 * (id + 1) + 1, 5 * (id + 1) + 5));
        lemma_get_le32_sub(d, e, pos + 6, 5 * (id + 1) + 1);
    } else {
        assert(ts.take(id + 1) =~= ts);
    }
    assert(entry_range(d, id) == (blob + o1, blob + o2));
    assert(d.subrange(blob + o1, blob + o2) =~= bl.subrange(o1, o2));
    assert(bl.subrange(o1, o2) =~= suffix_blob(ts.take(id + 1), ps).subrange(o1, o2));
    assert(suffix_blob(ts.take(id + 1), ps).subrange(o1, o2) =~= suffix_bytes(ts[id], ps));
}

#[verifier::rlimit(40)]
#[verifier::spinoff_prover]
proof fn lemma_sorted_entry(ts: Seq<Seq<char>>, ps: Seq<Seq<char>>, ids: Seq<u32>, j: int)
    requires
        encodable(ts, ps, ids),
        0 <= j < ts.len(),
    ensures
        sorted_id(dict_encoding(ts, ps, ids), j) == ids[j],
        sorted_term_bytes(dict_encoding(ts, ps, ids), j) == Some(term_bytes(ts, ids[j])),
{
    let d = dict_encoding(ts, ps, ids);
    let n = ts.len() as int;
    let off = 10 + prefix_table(ps).len() as int;
    lemma_encoding_parts(ts, ps, ids);
    lemma_layout(ts, ps, ids);
    let s = le32_seq(ids);
    lemma_le32_seq_index(ids, j);
    let p = off + 5 * n + 4 * j;
    assert(d.subrange(p, p + 4) =~= s.subrange(4 * j, 4 * j + 4));
    lemma_get_le32_sub(d, s, p, 4 * j);
    let id = ids[j] as int;
    assert((id as int) < n);
    lemma_entry(ts, ps, ids, id);
    lemma_suffix_decodes(ts[id], ps);
    let (pid, bl) = best_prefix_of(ts[id], ps);
    if pid == 255 || ps.len() == 0 || pid >= ps.len() {
        assert(Seq::<u8>::empty() + suffix_bytes(ts[id], ps) =~= encode_utf8(ts[id]));
    }
}

proof fn lemma_rt_safe(ts: Seq<Seq<char>>, ps: Seq<Seq<char>>, ids: Seq<u32>)
    requires
        encodable(ts, ps, ids),
    ensures
        entries_safe(dict_encoding(ts, ps, ids)),
        index_ordered(dict_encoding(ts, ps, ids)),
{
    let d = dict_encoding(ts, ps, ids);
    let n = ts.len() as int;
    lemma_layout(ts, ps, ids);
    assert forall|id: int| 0 <= id < n implies #[trigger] entry_range(d, id).0 <= entry_range(d, id).1 <= d.len() by {
        lemma_entry(ts, ps, ids, id);
    }
    assert forall|j: int| 0 <= j < n implies (#[trigger] sorted_id(d, j) as int) < n by {
        lemma_sorted_entry(ts, ps, ids, j);
    }
    assert forall|j: int| 0 <= j < n implies (#[trigger] sorted_term_bytes(d, j)) is Some by {
        lemma_sorted_entry(ts, ps, ids, j);
    }
    assert forall|i: int, j: int| 0 <= i < j < n implies lex_lt(
        (#[trigger] sorted_term_bytes(d, i))->0,
        (#[trigger] sorted_term_bytes(d, j))->0,
    ) by {
        lemma_sorted_entry(ts, ps, ids, i);
        lemma_sorted_entry(ts, ps, ids, j);
    }
}

proof fn lemma_rt_resolve(ts: Seq<Seq<char>>, ps: Seq<Seq<char>>, ids: Seq<u32>)
    requires
        encodable(ts, ps, ids),
    ensures
        forall|i: int| 0 <= i < ts.len() ==> spec_resolve(dict_encoding(ts, ps, ids), i) == Some(#[trigger] ts[i]),
{
    let d = dict_encoding(ts, ps, ids);
    lemma_layout(ts, ps, ids);
    assert forall|i: int| 0 <= i < ts.len() implies spec_resolve(d, i) == Some(#[trigger] ts[i]) by {
        lemma_entry(ts, ps, ids, i);
        lemma_suffix_decodes(ts[i], ps);
    }
}

proof fn lemma_rt_lookup(ts: Seq<Seq<char>>, ps: Seq<Seq<char>>, ids: Seq<u32>)
    requires
        encodable(ts, ps, ids),
    ensures
        ({
            let d = dict_encoding(ts, ps, ids);
            &&& forall|t: Seq<char>|
                (exists|j: int| 0 <= j < ts.len() && sorted_term_bytes(d, j) == Some(encode_utf8(t)))
                    <==> #[trigger] ts.contains(t)
            &&& forall|j: int, t: Seq<char>|
                0 <= j < ts.len() && #[trigger] sorted_term_bytes(d, j) == Some(#[trigger] encode_utf8(t)) ==> ts[sorted_id(d, j) as int] == t
        }),
{
    let d = dict_encoding(ts, ps, ids);
    let n = ts.len() as int;
    assert forall|j: int, t: Seq<char>| 0 <= j < n && #[trigger] sorted_term_bytes(d, j) == Some(#[trigger] encode_utf8(t)) implies ts[sorted_id(d, j) as int] == t by {
        lemma_sorted_entry(ts, ps, ids, j);
        crate::text::lemma_encode_injective(ts[ids[j] as int], t);
    }
    assert forall|t: Seq<char>| (exists|j: int| 0 <= j < n && sorted_term_bytes(d, j) == Some(encode_utf8(t))) <==> #[trigger] ts.contains(t) by {
        if ts.contains(t) {
            let i = choose|i: int| 0 <= i < n && ts[i] == t;
            lemma_ids_cover(ts, ids, i);
            let j = choose|j: int| 0 <= j < ids.len() && ids[j] == i;
            lemma_sorted_entry(ts, ps, ids, j);
        }
        if exists|j: int| 0 <= j < n && sorted_term_bytes(d, j) == Some(encode_utf8(t)) {
            let j = choose|j: int| 0 <= j < n && sorted_term_bytes(d, j) == Some(encode_utf8(t));
            lemma_sorted_entry(ts, ps, ids, j);
            crate::text::lemma_encode_injective(ts[ids[j] as int], t);
        }
    }
}

/// IDs in strictly increasing term order, all below the term count, are
/// each of the IDs `0..n`.
proof fn lemma_sorted_ids_cover(ts: Seq<Seq<char>>, a: Seq<u32>)
    requires
        sorted_ids_of(ts, a),
    ensures
        forall|x: u32| x < ts.len() ==> #[trigger] a.contains(x),
{
    let ai = a.map_values(|v: u32| v as int);
    assert forall|i: int, j: int| 0 <= i < ai.len() && 0 <= j < ai.len() && i != j implies ai[i]
        != ai[j] by {
        if i < j {
            assert(lex_lt(term_bytes(ts, a[i]), term_bytes(ts, a[j])));
            if a[i] == a[j] {
                lemma_lex_irreflexive(term_bytes(ts, a[i]));
            }
        } else {
            assert(lex_lt(term_bytes(ts, a[j]), term_bytes(ts, a[i])));
            if a[i] == a[j] {
                lemma_lex_irreflexive(term_bytes(ts, a[i]));
            }
        }
    }
    assert(ai.no_duplicates());
    ai.unique_seq_to_set();
    let r = vstd::set_lib::set_int_range(0, ts.len() as int);
    vstd::set_lib::lemma_int_range(0, ts.len() as int);
    assert(ai.to_set().subset_of(r)) by {
        assert forall|x: int| ai.to_set().contains(x) implies r.contains(x) by {
            let k = choose|k: int| 0 <= k < ai.len() && ai[k] == x;
            assert(a[k] < ts.len());
        }
    }
    vstd::seq_lib::seq_to_set_is_finite(ai);
    vstd::set_lib::lemma_subset_equality(ai.to_set(), r);
    assert forall|x: u32| x < ts.len() implies #[trigger] a.contains(x) by {
        assert(r.contains(x as int));
        assert(ai.to_set().contains(x as int));
        let k = choose|k: int| 0 <= k < ai.len() && ai[k] == x as int;
        assert(a[k] == x);
    }
}

/// The IDs in term order are one sequence: two orderings agree up to `i`.
proof fn lemma_sorted_ids_agree(ts: Seq<Seq<char>>, a: Seq<u32>, b: Seq<u32>, i: int)
    requires
        sorted_ids_of(ts, a),
        sorted_ids_of(ts, b),
        0 <= i <= a.len(),
    ensures
        forall|j: int| 0 <= j < i ==> a[j] == b[j],
    decreases i,
{
    if i > 0 {
        lemma_sorted_ids_agree(ts, a, b, i - 1);
        let m = i - 1;
        if a[m] != b[m] {
            lemma_sorted_ids_cover(ts, a);
            lemma_sorted_ids_cover(ts, b);
            assert(a.contains(b[m]));
            let j = choose|j: int| 0 <= j < a.len() && a[j] == b[m];
            assert(b.contains(a[m]));
            let k = choose|k: int| 0 <= k < b.len() && b[k] == a[m];
            if j < m {
                assert(b[j] == a[j]);
                assert(lex_lt(term_bytes(ts, b[j]), term_bytes(ts, b[m])));
                lemma_lex_irreflexive(term_bytes(ts, b[m]));
            } else if k < m {
                assert(a[k] == b[k]);
                assert(lex_lt(term_bytes(ts, a[k]), term_bytes(ts, a[m])));
                lemma_lex_irreflexive(term_bytes(ts, a[m]));
            } else {
                assert(j != m && k != m);
                assert(lex_lt(term_bytes(ts, a[m]), term_bytes(ts, a[j])));
                assert(lex_lt(term_bytes(ts, b[m]), term_bytes(ts, b[k])));
                lemma_lex_asymmetric(term_bytes(ts, a[m]), term_bytes(ts, b[m]));
            }
        }
    }
}

/// What `to_bytes` writes for the terms `ts`: the prefixes `top_prefixes`
/// picks and the IDs in term order, encoded.
pub open spec fn written_dictionary(ts: Seq<Seq<char>>, r: Seq<u8>) -> bool {
    exists|ps: Seq<Seq<char>>, ids: Seq<u32>|
        ps == top_prefixes(ts) && prefixes_chosen(ts, ps) && sorted_ids_of(ts, ids) && r
            == dict_encoding(ts, ps, ids)
}

/// The bytes `to_bytes` and `to_bytes_indexed` write depend on the
/// dictionary's terms alone: dictionaries with the same terms in the same ID
/// order give byte-identical files.
pub proof fn lemma_dictionary_bytes_determined(ts: Seq<Seq<char>>, r1: Seq<u8>, r2: Seq<u8>)
    requires
        written_dictionary(ts, r1),
        written_dictionary(ts, r2),
    ensures
        r1 == r2,
{
    let (ps1, ids1) = choose|ps: Seq<Seq<char>>, ids: Seq<u32>|
        ps == top_prefixes(ts) && prefixes_chosen(ts, ps) && sorted_ids_of(ts, ids) && r1
            == dict_encoding(ts, ps, ids);
    let (ps2, ids2) = choose|ps: Seq<Seq<char>>, ids: Seq<u32>|
        ps == top_prefixes(ts) && prefixes_chosen(ts, ps) && sorted_ids_of(ts, ids) && r2
            == dict_encoding(ts, ps, ids);
    lemma_sorted_ids_agree(ts, ids1, ids2, ids1.len() as int);
    assert(ids1 =~= ids2);
}

/// Reading back what `to_bytes_indexed` writes: the reader accepts it, every
/// ID resolves to its term, the sorted index is in term order, a lookup finds
/// exactly the terms of the dictionary and answers each with its own ID, and
/// `Dictionary::from_bytes` gives back the same terms.
pub proof fn lemma_dictionary_roundtrip(ts: Seq<Seq<char>>, ps: Seq<Seq<char>>, ids: Seq<u32>)
    requires
        encodable(ts, ps, ids),
        dict_encoding(ts, ps, ids).len() + 12 * ts.len() + 9 <= usize::MAX,
    ensures
        ({
            let d = dict_encoding(ts, ps, ids);
            &&& dict_readable(d)
            &&& dict_layout(d) is Some
            &&& dict_layout(d).unwrap().1 == ts.len()
            &&& entries_safe(d)
            &&& index_ordered(d)
            &&& forall|i: int| 0 <= i < ts.len() ==> spec_resolve(d, i) == Some(#[trigger] ts[i])
            &&& forall|t: Seq<char>|
                (exists|j: int| 0 <= j < ts.len() && sorted_term_bytes(d, j) == Some(encode_utf8(t)))
                    <==> #[trigger] ts.contains(t)
            &&& forall|j: int, t: Seq<char>|
                0 <= j < ts.len() && #[trigger] sorted_term_bytes(d, j) == Some(#[trigger] encode_utf8(t)) ==> ts[sorted_id(d, j) as int] == t
            &&& dictionary_bytes_ok(d)
            &&& spec_dictionary_terms(d) == Some(ts)
        }),
{
    let d = dict_encoding(ts, ps, ids);
    lemma_encoding_parts(ts, ps, ids);
    lemma_layout(ts, ps, ids);
    lemma_rt_safe(ts, ps, ids);
    lemma_rt_resolve(ts, ps, ids);
    lemma_rt_lookup(ts, ps, ids);
    lemma_resolved_all(d, ts, ts.len() as int);
    lemma_interned_distinct(ts);
    assert(ts.take(ts.len() as int) =~= ts);
}

proof fn lemma_resolved_all(d: Seq<u8>, ts: Seq<Seq<char>>, k: int)
    requires
        0 <= k <= ts.len(),
        forall|i: int| 0 <= i < ts.len() ==> spec_resolve(d, i) == Some(#[trigger] ts[i]),
    ensures
        resolved_terms(d, k) == ts.take(k),
    decreases k,
{
    if k > 0 {
        lemma_resolved_all(d, ts, k - 1);
        assert(spec_resolve(d, k - 1) == Some(ts[k - 1]));
        assert(ts.take(k - 1).push(ts[k - 1]) =~= ts.take(k));
    } else {
        assert(ts.take(0) =~= Seq::<Seq<char>>::empty());
    }
}

proof fn lemma_interned_distinct(ts: Seq<Seq<char>>)
    requires
        distinct_terms(ts),
    ensures
        interned(ts) == ts,
    decreases ts.len(),
{
    if ts.len() > 0 {
        let t = ts.drop_last();
        assert(distinct_terms(t)) by {
            assert forall|i: int, j: int| 0 <= i < j < t.len() implies #[trigger] t[i] != #[trigger] t[j] by {
                assert(t[i] == ts[i] && t[j] == ts[j]);
            }
        }
        lemma_interned_distinct(t);
        if t.contains(ts.last()) {
            let i = choose|i: int| 0 <= i < t.len() && t[i] == ts.last();
            assert(ts[i] == ts[ts.len() - 1]);
        }
        assert(t.push(ts.last()) =~= ts);
    } else {
        assert(ts =~= Seq::<Seq<char>>::empty());
    }
}

/// The sorted index names every ID.
proof fn lemma_ids_cover(ts: Seq<Seq<char>>, ids: Seq<u32>, i: int)
    requires
        sorted_ids_of(ts, ids),
        ts.len() <= u32::MAX,
        0 <= i < ts.len(),
    ensures
        exists|j: int| 0 <= j < ids.len() && ids[j] == i,
{
    // ids is an injective map from 0..n into 0..n, hence onto.
    let n = ts.len() as int;
    assert(ids.no_duplicates()) by {
        assert forall|a: int, b: int| 0 <= a < ids.len() && 0 <= b < ids.len() && a != b implies ids[a] != ids[b] by {
            if a < b {
                lemma_lex_irreflexive(term_bytes(ts, ids[a]));
            } else {
                lemma_lex_irreflexive(term_bytes(ts, ids[b]));
            }
        }
    }
    let s = ids.to_set();
    ids.unique_seq_to_set();
    let full = Set::new(|x: u32| (x as int) < n);
    assert(s.subset_of(full));
    lemma_full_len(n);
    vstd::set_lib::lemma_len_subset(s, full);
    assert(full.contains(i as u32));
    if !s.contains(i as u32) {
        assert(s.subset_of(full.remove(i as u32)));
        vstd::set_lib::lemma_len_subset(s, full.remove(i as u32));
        assert(false);
    }
    assert(ids.contains(i as u32));
}

proof fn lemma_full_len(n: int)
    requires
        0 <= n <= u32::MAX + 1,
    ensures
        Set::new(|x: u32| (x as int) < n).finite(),
        Set::new(|x: u32| (x as int) < n).len() == n,
    decreases n,
{
    let full = Set::new(|x: u32| (x as int) < n);
    if n == 0 {
        assert(full =~= Set::<u32>::empty());
    } else {
        lemma_full_len(n - 1);
        let smaller = Set::new(|x: u32| (x as int) < n - 1);
        assert(full =~= smaller.insert((n - 1) as u32));
    }
}

} // verus!
