//! Verified merge sort over keys with a total order.
//!
//! Every sorting step of the index builders goes through [`merge_sort`]:
//! its result is the unique sorted permutation of its input, so callers can
//! state their own results over `Seq::sort_by`.

use vstd::prelude::*;
use vstd::relations::*;

verus! {

broadcast use vstd::seq_lib::group_to_multiset_ensures;

/// A key type with a total order that can be compared at run time.
pub trait SortKey: Copy + Sized {
    spec fn key_le(a: Self, b: Self) -> bool;

    proof fn lemma_total()
        ensures
            total_ordering(|a: Self, b: Self| Self::key_le(a, b)),
    ;

    fn le(a: &Self, b: &Self) -> (r: bool)
        ensures
            r == Self::key_le(*a, *b),
    ;
}

/// The order relation of a key type, as a spec closure.
pub open spec fn leq<T: SortKey>() -> spec_fn(T, T) -> bool {
    |a: T, b: T| T::key_le(a, b)
}

impl SortKey for u32 {
    open spec fn key_le(a: u32, b: u32) -> bool {
        a <= b
    }

    proof fn lemma_total() {
    }

    fn le(a: &u32, b: &u32) -> (r: bool) {
        *a <= *b
    }
}

/// A lexicographically ordered key of up to four integer components.
#[derive(Clone, Copy, Debug, PartialEq, Eq)]
pub struct Key4 {
    pub a: i64,
    pub b: i64,
    pub c: i64,
    pub d: i64,
}

impl SortKey for Key4 {
    open spec fn key_le(x: Key4, y: Key4) -> bool {
        x.a < y.a || (x.a == y.a && (x.b < y.b || (x.b == y.b && (x.c < y.c || (x.c == y.c
            && x.d <= y.d)))))
    }

    proof fn lemma_total() {
    }

    fn le(x: &Key4, y: &Key4) -> (r: bool) {
        x.a < y.a || (x.a == y.a && (x.b < y.b || (x.b == y.b && (x.c < y.c || (x.c == y.c
            && x.d <= y.d)))))
    }
}

fn merge<T: SortKey>(a: &Vec<T>, b: &Vec<T>) -> (r: Vec<T>)
    requires
        sorted_by(a@, leq::<T>()),
        sorted_by(b@, leq::<T>()),
    ensures
        sorted_by(r@, leq::<T>()),
        r@.to_multiset() == a@.to_multiset().add(b@.to_multiset()),
{
    proof {
        T::lemma_total();
    }
    let ghost le = leq::<T>();
    let mut r: Vec<T> = Vec::new();
    let mut i: usize = 0;
    let mut j: usize = 0;
    while i < a.len() || j < b.len()
        invariant
            le == leq::<T>(),
            total_ordering(le),
            sorted_by(a@, le),
            sorted_by(b@, le),
            i <= a@.len(),
            j <= b@.len(),
            sorted_by(r@, le),
            r@.to_multiset() == a@.subrange(0, i as int).to_multiset().add(
                b@.subrange(0, j as int).to_multiset(),
            ),
            r@.len() == i + j,
            forall|k: int| 0 <= k < r@.len() && i < a@.len() ==> le(#[trigger] r@[k], a@[i as int]),
            forall|k: int| 0 <= k < r@.len() && j < b@.len() ==> le(#[trigger] r@[k], b@[j as int]),
        decreases a@.len() + b@.len() - i - j,
    {
        let take_a = if i < a.len() && j < b.len() {
            T::le(&a[i], &b[j])
        } else {
            i < a.len()
        };
        let ghost old_r = r@;
        if take_a {
            let x = a[i];
            r.push(x);
            proof {
                assert(a@.subrange(0, i + 1) == a@.subrange(0, i as int).push(x));
                assert(forall|k: int| 0 <= k < old_r.len() ==> le(old_r[k], x));
            }
            i = i + 1;
            proof {
                assert forall|k: int| 0 <= k < r@.len() && i < a@.len() implies le(
                    #[trigger] r@[k],
                    a@[i as int],
                ) by {
                    assert(le(a@[i - 1], a@[i as int]));
                    if k < old_r.len() {
                        assert(le(old_r[k], x));
                    }
                }
                assert forall|k: int| 0 <= k < r@.len() && j < b@.len() implies le(
                    #[trigger] r@[k],
                    b@[j as int],
                ) by {
                    if k < old_r.len() {
                    } else {
                        assert(le(x, b@[j as int]));
                    }
                }
            }
        } else {
            let x = b[j];
            r.push(x);
            proof {
                assert(b@.subrange(0, j + 1) == b@.subrange(0, j as int).push(x));
                assert(forall|k: int| 0 <= k < old_r.len() ==> le(old_r[k], x));
                if i < a@.len() {
                    assert(le(a@[i as int], x) || le(x, a@[i as int]));
                    assert(le(x, a@[i as int]));
                }
            }
            j = j + 1;
            proof {
                assert forall|k: int| 0 <= k < r@.len() && j < b@.len() implies le(
                    #[trigger] r@[k],
                    b@[j as int],
                ) by {
                    assert(le(b@[j - 1], b@[j as int]));
                    if k < old_r.len() {
                        assert(le(old_r[k], x));
                    }
                }
                assert forall|k: int| 0 <= k < r@.len() && i < a@.len() implies le(
                    #[trigger] r@[k],
                    a@[i as int],
                ) by {
                    if k < old_r.len() {
                    }
                }
            }
        }
    }
    proof {
        assert(a@.subrange(0, a@.len() as int) == a@);
        assert(b@.subrange(0, b@.len() as int) == b@);
    }
    r
}

fn copy_sub<T: Copy>(v: &Vec<T>, lo: usize, hi: usize) -> (r: Vec<T>)
    requires
        lo <= hi <= v@.len(),
    ensures
        r@ == v@.subrange(lo as int, hi as int),
{
    let mut r: Vec<T> = Vec::with_capacity(hi - lo);
    let mut k = lo;
    while k < hi
        invariant
            lo <= k <= hi <= v@.len(),
            r@ == v@.subrange(lo as int, k as int),
        decreases hi - k,
    {
        r.push(v[k]);
        k = k + 1;
        assert(v@.subrange(lo as int, k as int) == v@.subrange(lo as int, k - 1 as int).push(
            v@[k - 1],
        ));
    }
    r
}

fn sort_range<T: SortKey>(v: &Vec<T>, lo: usize, hi: usize) -> (r: Vec<T>)
    requires
        lo <= hi <= v@.len(),
    ensures
        sorted_by(r@, leq::<T>()),
        r@.to_multiset() == v@.subrange(lo as int, hi as int).to_multiset(),
    decreases hi - lo,
{
    if hi - lo <= 1 {
        copy_sub(v, lo, hi)
    } else {
        let mid = lo + (hi - lo) / 2;
        let left = sort_range(v, lo, mid);
        let right = sort_range(v, mid, hi);
        let r = merge(&left, &right);
        proof {
            vstd::seq_lib::lemma_multiset_commutative(
                v@.subrange(lo as int, mid as int),
                v@.subrange(mid as int, hi as int),
            );
            assert(v@.subrange(lo as int, mid as int) + v@.subrange(mid as int, hi as int)
                == v@.subrange(lo as int, hi as int));
        }
        r
    }
}

/// Sort a vector of keys in ascending order.
///
/// The result is the unique sorted permutation of the input.
pub fn merge_sort<T: SortKey>(v: &Vec<T>) -> (r: Vec<T>)
    ensures
        r@ == v@.sort_by(leq::<T>()),
        sorted_by(r@, leq::<T>()),
        r@.to_multiset() == v@.to_multiset(),
{
    let r = sort_range(v, 0, v.len());
    proof {
        assert(v@.subrange(0, v@.len() as int) == v@);
        T::lemma_total();
        v@.lemma_sort_by_ensures(leq::<T>());
        vstd::seq_lib::lemma_sorted_unique(r@, v@.sort_by(leq::<T>()), leq::<T>());
    }
    r
}

} // verus!
