//! Set algebra of query answers: choosing the layers a query runs on,
//! intersecting the page sets of a plan, and intersecting the per-pattern
//! matches (each the union over layers) into one sorted answer.

use vstd::prelude::*;
use vstd::utf8::encode_utf8;
use vstd::string::*;
use crate::text::{compare_bytes, concat, lemma_encode_injective, lemma_lex_asymmetric, lemma_lex_irreflexive, lemma_lex_total, lemma_lex_transitive, lex_lt, str_eq};

verus! {

/// The byte-wise order of strings (the order of Rust's `str`).
pub open spec fn str_lt(a: Seq<char>, b: Seq<char>) -> bool {
    lex_lt(encode_utf8(a), encode_utf8(b))
}

/// Strings in strictly increasing order: sorted, with no string twice.
pub open spec fn strictly_sorted(s: Seq<Seq<char>>) -> bool {
    forall|i: int, j: int| 0 <= i < j < s.len() ==> str_lt(#[trigger] s[i], #[trigger] s[j])
}

/// A string found in every set (and there is at least one set).
pub open spec fn in_every(sets: Seq<Seq<Seq<char>>>, u: Seq<char>) -> bool {
    sets.len() > 0 && forall|k: int| 0 <= k < sets.len() ==> (#[trigger] sets[k]).contains(u)
}

/// The strings of a vector, as plain values.
pub open spec fn strs(v: Seq<String>) -> Seq<Seq<char>> {
    v.map_values(|s: String| s@)
}

/// The message for a layer filter that names no layer.
pub open spec fn unknown_layer(name: Seq<char>) -> Seq<char> {
    "Unknown layer: '"@ + name + "'"@
}

/// A layer filter as a plain value.
pub open spec fn filter_view(filter: Option<&str>) -> Option<Seq<char>> {
    match filter {
        Some(f) => Some(f@),
        None => None,
    }
}

/// Whether a filter lets a layer of this name through.
pub open spec fn picks(filter: Option<Seq<char>>, name: Seq<char>) -> bool {
    match filter {
        Some(f) => name == f,
        None => true,
    }
}

/// The layers a query runs on: those whose name is `filter`, or all of them,
/// in order. It is an error when that leaves no layer.
pub fn select_layers(names: &[String], filter: Option<&str>) -> (r: Result<Vec<usize>, String>)
    ensures
        match r {
            Ok(ix) => {
                &&& ix@.len() > 0
                &&& forall|j: int, k: int| 0 <= j < k < ix@.len() ==> ix@[j] < ix@[k]
                &&& forall|j: int|
                    0 <= j < ix@.len() ==> #[trigger] ix@[j] < names@.len() && picks(
                        filter_view(filter),
                        names@[ix@[j] as int]@,
                    )
                &&& forall|i: int|
                    0 <= i < names@.len() && picks(filter_view(filter), (#[trigger] names@[i])@)
                        ==> ix@.contains(i as usize)
            },
            Err(e) => {
                &&& forall|i: int|
                    0 <= i < names@.len() ==> !picks(filter_view(filter), (#[trigger] names@[i])@)
                &&& e@ == unknown_layer(
                    match filter {
                        Some(f) => f@,
                        None => Seq::empty(),
                    },
                )
            },
        },
{
    let ghost fv = filter_view(filter);
    let mut ix: Vec<usize> = Vec::new();
    let mut i: usize = 0;
    while i < names.len()
        invariant
            i <= names@.len(),
            fv == filter_view(filter),
            forall|j: int, k: int| 0 <= j < k < ix@.len() ==> ix@[j] < ix@[k],
            forall|j: int|
                0 <= j < ix@.len() ==> #[trigger] ix@[j] < i && picks(fv, names@[ix@[j] as int]@),
            forall|q: int| 0 <= q < i && picks(fv, (#[trigger] names@[q])@) ==> ix@.contains(q as usize),
        decreases names@.len() - i,
    {
        let wanted = match filter {
            Some(f) => str_eq(names[i].as_str(), f),
            None => true,
        };
        assert(wanted == picks(fv, names@[i as int]@));
        if wanted {
            let ghost before = ix@;
            ix.push(i);
            proof {
                assert(ix@ == before.push(i));
                assert forall|q: int| 0 <= q < i + 1 && picks(fv, (#[trigger] names@[q])@) implies ix@.contains(
                    q as usize,
                ) by {
                    if q < i {
                        assert(before.contains(q as usize));
                        let w = choose|w: int| 0 <= w < before.len() && before[w] == q as usize;
                        assert(ix@[w] == q as usize);
                    } else {
                        assert(ix@[ix@.len() - 1] == q as usize);
                    }
                }
            }
        }
        i = i + 1;
    }
    if ix.len() == 0 {
        let name = match filter {
            Some(f) => f,
            None => "",
        };
        proof {
            reveal_strlit("");
            assert forall|q: int| 0 <= q < names@.len() implies !picks(fv, (#[trigger] names@[q])@) by {
                if picks(fv, names@[q]@) {
                    assert(ix@.contains(q as usize));
                }
            }
        }
        let head = concat("Unknown layer: '", name);
        return Err(concat(head.as_str(), "'"));
    }
    Ok(ix)
}

/// Whether `u` is one of the strings of `v`.
fn contains_str(v: &Vec<String>, u: &str) -> (r: bool)
    ensures
        r == strs(v@).contains(u@),
{
    let mut i: usize = 0;
    while i < v.len()
        invariant
            i <= v@.len(),
            forall|j: int| 0 <= j < i ==> v@[j]@ != u@,
        decreases v@.len() - i,
    {
        if str_eq(v[i].as_str(), u) {
            proof {
                assert(strs(v@)[i as int] == u@);
            }
            return true;
        }
        i = i + 1;
    }
    proof {
        if strs(v@).contains(u@) {
            let j = choose|j: int| 0 <= j < strs(v@).len() && strs(v@)[j] == u@;
            assert(v@[j]@ == u@);
        }
    }
    false
}

/// Whether `u` is in every set from `from` on.
fn in_sets_from(sets: &[Vec<String>], from: usize, u: &str) -> (r: bool)
    requires
        from <= sets@.len(),
    ensures
        r == forall|k: int| from <= k < sets@.len() ==> strs(#[trigger] sets@[k]@).contains(u@),
{
    let mut k: usize = from;
    while k < sets.len()
        invariant
            from <= k <= sets@.len(),
            forall|q: int| from <= q < k ==> strs(#[trigger] sets@[q]@).contains(u@),
        decreases sets@.len() - k,
    {
        if !contains_str(&sets[k], u) {
            return false;
        }
        k = k + 1;
    }
    true
}

/// Insert `u` into strictly sorted strings, unless it is already there.
fn insert_sorted(out: &mut Vec<String>, u: &String)
    requires
        strictly_sorted(strs(old(out)@)),
    ensures
        strictly_sorted(strs(final(out)@)),
        forall|w: Seq<char>|
            strs(final(out)@).contains(w) <==> (strs(old(out)@).contains(w) || w == u@),
{
    let ghost o = strs(out@);
    let ub = u.as_str().as_bytes();
    let mut j: usize = 0;
    let mut stop = false;
    while j < out.len() && !stop
        invariant
            j <= out@.len(),
            o == strs(out@),
            o == strs(old(out)@),
            strictly_sorted(o),
            ub@ == encode_utf8(u@),
            forall|m: int| 0 <= m < j ==> str_lt(#[trigger] o[m], u@),
            stop ==> j < out@.len() && str_lt(u@, o[j as int]),
        decreases out@.len() - j + (if stop { 0int } else { 1int }),
    {
        let c = compare_bytes(out[j].as_str().as_bytes(), ub);
        if c == 0 {
            proof {
                lemma_encode_injective(out@[j as int]@, u@);
                assert(o[j as int] == u@);
                assert forall|w: Seq<char>| o.contains(w) <==> (o.contains(w) || w == u@) by {}
            }
            return;
        }
        if c > 0 {
            stop = true;
        } else {
            j = j + 1;
        }
    }
    proof {
        assert forall|m: int| j <= m < o.len() implies str_lt(u@, #[trigger] o[m]) by {
            assert(stop);
            if m > j {
                assert(str_lt(o[j as int], o[m]));
                lemma_lex_transitive(encode_utf8(u@), encode_utf8(o[j as int]), encode_utf8(o[m]));
            }
        }
    }
    out.insert(j, u.clone());
    proof {
        let n = strs(out@);
        assert(n =~= o.insert(j as int, u@));
        assert forall|a: int, b: int| 0 <= a < b < n.len() implies str_lt(#[trigger] n[a], #[trigger] n[b]) by {
            if b < j {
            } else if a < j && b == j {
            } else if a < j && b > j {
                assert(n[b] == o[b - 1]);
                lemma_lex_transitive(encode_utf8(o[a]), encode_utf8(u@), encode_utf8(o[b - 1]));
            } else if a == j {
                assert(n[b] == o[b - 1]);
            } else {
                assert(n[a] == o[a - 1] && n[b] == o[b - 1]);
            }
        }
        assert forall|w: Seq<char>| n.contains(w) <==> (o.contains(w) || w == u@) by {
            if n.contains(w) {
                let q = choose|q: int| 0 <= q < n.len() && n[q] == w;
                if q < j {
                    assert(o[q] == w);
                } else if q > j {
                    assert(o[q - 1] == w);
                }
            }
            if o.contains(w) {
                let q = choose|q: int| 0 <= q < o.len() && o[q] == w;
                if q < j {
                    assert(n[q] == w);
                } else {
                    assert(n[q + 1] == w);
                }
            }
            if w == u@ {
                assert(n[j as int] == w);
            }
        }
    }
}

/// The strings found in the matches of every pattern, sorted byte-wise with
/// none twice; nothing when there is no pattern.
pub fn combine_pattern_matches(per_pattern: &[Vec<String>]) -> (r: Vec<String>)
    ensures
        strictly_sorted(strs(r@)),
        forall|u: Seq<char>|
            strs(r@).contains(u) <==> in_every(
                per_pattern@.map_values(|v: Vec<String>| strs(v@)),
                u,
            ),
{
    let ghost sets = per_pattern@.map_values(|v: Vec<String>| strs(v@));
    let mut out: Vec<String> = Vec::new();
    if per_pattern.len() == 0 {
        proof {
            assert forall|u: Seq<char>| strs(out@).contains(u) <==> in_every(sets, u) by {
                assert(strs(out@).len() == 0);
            }
        }
        return out;
    }
    let first = &per_pattern[0];
    let mut i: usize = 0;
    while i < first.len()
        invariant
            per_pattern@.len() > 0,
            *first == per_pattern@[0],
            sets == per_pattern@.map_values(|v: Vec<String>| strs(v@)),
            i <= first@.len(),
            strictly_sorted(strs(out@)),
            forall|u: Seq<char>|
                #[trigger] strs(out@).contains(u) <==> (strs(first@.subrange(0, i as int)).contains(u)
                    && in_every(sets, u)),
        decreases first@.len() - i,
    {
        let u = &first[i];
        let keep = in_sets_from(per_pattern, 1, u.as_str());
        let ghost pre = strs(first@.subrange(0, i as int));
        let ghost post = strs(first@.subrange(0, i + 1));
        proof {
            assert(post =~= pre.push(u@));
            assert(keep == in_every(sets, u@)) by {
                if keep {
                    assert forall|k: int| 0 <= k < sets.len() implies (#[trigger] sets[k]).contains(u@) by {
                        if k == 0 {
                            assert(strs(first@)[i as int] == u@);
                        } else {
                            assert(strs(per_pattern@[k]@).contains(u@));
                        }
                    }
                }
                if in_every(sets, u@) {
                    assert forall|k: int| 1 <= k < per_pattern@.len() implies strs(#[trigger] per_pattern@[k]@).contains(u@) by {
                        assert(sets[k].contains(u@));
                    }
                }
            }
        }
        if keep {
            let ghost before = strs(out@);
            insert_sorted(&mut out, u);
            proof {
                assert forall|w: Seq<char>| strs(out@).contains(w) <==> (post.contains(w) && in_every(sets, w)) by {
                    if w == u@ {
                        assert(post[i as int] == w);
                    } else {
                        if post.contains(w) {
                            let q = choose|q: int| 0 <= q < post.len() && post[q] == w;
                            assert(q != i);
                            assert(pre[q] == w);
                        }
                        if pre.contains(w) {
                            let q = choose|q: int| 0 <= q < pre.len() && pre[q] == w;
                            assert(post[q] == w);
                        }
                        assert(strs(out@).contains(w) == before.contains(w));
                    }
                }
            }
        } else {
            proof {
                assert forall|w: Seq<char>| strs(out@).contains(w) <==> (post.contains(w) && in_every(sets, w)) by {
                    assert(strs(out@).contains(w) == (pre.contains(w) && in_every(sets, w)));
                    if post.contains(w) {
                        let q = choose|q: int| 0 <= q < post.len() && post[q] == w;
                        if q < i {
                            assert(pre[q] == w);
                        } else {
                            assert(post[q] == u@);
                            assert(!in_every(sets, w));
                        }
                    }
                    if pre.contains(w) {
                        let q = choose|q: int| 0 <= q < pre.len() && pre[q] == w;
                        assert(post[q] == w);
                    }
                }
            }
        }
        i = i + 1;
    }
    proof {
        assert(first@.subrange(0, first@.len() as int) =~= first@);
        assert forall|u: Seq<char>| in_every(sets, u) implies strs(first@).contains(u) by {
            assert(sets[0].contains(u));
        }
    }
    out
}

/// A page found in every set (and there is at least one set).
pub open spec fn page_in_every(sets: Seq<Seq<u32>>, p: u32) -> bool {
    sets.len() > 0 && forall|k: int| 0 <= k < sets.len() ==> (#[trigger] sets[k]).contains(p)
}

/// Pages in strictly increasing order.
pub open spec fn pages_increasing(s: Seq<u32>) -> bool {
    forall|i: int, j: int| 0 <= i < j < s.len() ==> s[i] < s[j]
}

/// Insert `p` into strictly increasing pages, unless it is already there.
fn insert_page(out: &mut Vec<u32>, p: u32)
    requires
        pages_increasing(old(out)@),
    ensures
        pages_increasing(final(out)@),
        forall|w: u32| final(out)@.contains(w) <==> (old(out)@.contains(w) || w == p),
{
    let ghost o = out@;
    let mut j: usize = 0;
    while j < out.len() && out[j] < p
        invariant
            j <= out@.len(),
            o == out@,
            forall|m: int| 0 <= m < j ==> out@[m] < p,
        decreases out@.len() - j,
    {
        j = j + 1;
    }
    if j < out.len() && out[j] == p {
        return;
    }
    out.insert(j, p);
    proof {
        let n = out@;
        assert(n =~= o.insert(j as int, p));
        assert forall|w: u32| n.contains(w) <==> (o.contains(w) || w == p) by {
            if n.contains(w) {
                let q = choose|q: int| 0 <= q < n.len() && n[q] == w;
                if q < j {
                    assert(o[q] == w);
                } else if q > j {
                    assert(o[q - 1] == w);
                }
            }
            if o.contains(w) {
                let q = choose|q: int| 0 <= q < o.len() && o[q] == w;
                if q < j {
                    assert(n[q] == w);
                } else {
                    assert(n[q + 1] == w);
                }
            }
            if w == p {
                assert(n[j as int] == w);
            }
        }
    }
}

/// Whether page `p` is in every set from `from` on.
fn page_in_sets_from(sets: &[Vec<u32>], from: usize, p: u32) -> (r: bool)
    requires
        from <= sets@.len(),
    ensures
        r == forall|k: int| from <= k < sets@.len() ==> (#[trigger] sets@[k])@.contains(p),
{
    let mut k: usize = from;
    while k < sets.len()
        invariant
            from <= k <= sets@.len(),
            forall|q: int| from <= q < k ==> (#[trigger] sets@[q])@.contains(p),
        decreases sets@.len() - k,
    {
        let s = &sets[k];
        let mut i: usize = 0;
        let mut found = false;
        while i < s.len() && !found
            invariant
                i <= s@.len(),
                found ==> s@.contains(p),
                !found ==> forall|m: int| 0 <= m < i ==> s@[m] != p,
            decreases s@.len() - i + (if found { 0int } else { 1int }),
        {
            if s[i] == p {
                found = true;
            } else {
                i = i + 1;
            }
        }
        if !found {
            return false;
        }
        k = k + 1;
    }
    true
}

/// The pages found in every one of the page sets, in increasing order with
/// none twice; nothing when there is no set.
pub fn intersect_page_sets(sets: &[Vec<u32>]) -> (r: Vec<u32>)
    ensures
        pages_increasing(r@),
        forall|p: u32|
            r@.contains(p) <==> page_in_every(sets@.map_values(|v: Vec<u32>| v@), p),
{
    let ghost sv = sets@.map_values(|v: Vec<u32>| v@);
    let mut out: Vec<u32> = Vec::new();
    if sets.len() == 0 {
        return out;
    }
    let first = &sets[0];
    let mut i: usize = 0;
    while i < first.len()
        invariant
            sets@.len() > 0,
            *first == sets@[0],
            sv == sets@.map_values(|v: Vec<u32>| v@),
            i <= first@.len(),
            pages_increasing(out@),
            forall|p: u32|
                #[trigger] out@.contains(p) <==> (first@.subrange(0, i as int).contains(p)
                    && page_in_every(sv, p)),
        decreases first@.len() - i,
    {
        let p = first[i];
        let keep = page_in_sets_from(sets, 1, p);
        let ghost pre = first@.subrange(0, i as int);
        let ghost post = first@.subrange(0, i + 1);
        proof {
            assert(post =~= pre.push(p));
            assert(keep == page_in_every(sv, p)) by {
                if keep {
                    assert forall|k: int| 0 <= k < sv.len() implies (#[trigger] sv[k]).contains(p) by {
                        if k == 0 {
                            assert(first@[i as int] == p);
                        } else {
                            assert(sets@[k]@.contains(p));
                        }
                    }
                }
                if page_in_every(sv, p) {
                    assert forall|k: int| 1 <= k < sets@.len() implies (#[trigger] sets@[k])@.contains(p) by {
                        assert(sv[k].contains(p));
                    }
                }
            }
        }
        let ghost before = out@;
        if keep {
            insert_page(&mut out, p);
        }
        proof {
            assert forall|w: u32| #[trigger] out@.contains(w) <==> (post.contains(w) && page_in_every(sv, w)) by {
                assert(before.contains(w) == (pre.contains(w) && page_in_every(sv, w)));
                if post.contains(w) {
                    let q = choose|q: int| 0 <= q < post.len() && post[q] == w;
                    if q < i {
                        assert(pre[q] == w);
                    } else {
                        assert(post[q] == p);
                    }
                }
                if pre.contains(w) {
                    let q = choose|q: int| 0 <= q < pre.len() && pre[q] == w;
                    assert(post[q] == w);
                }
                if w == p {
                    assert(post[i as int] == w);
                }
            }
        }
        i = i + 1;
    }
    proof {
        assert(first@.subrange(0, first@.len() as int) =~= first@);
        assert forall|p: u32| page_in_every(sv, p) implies first@.contains(p) by {
            assert(sv[0].contains(p));
        }
    }
    out
}

} // verus!
