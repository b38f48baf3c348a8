//! N-dimensional Hilbert curve encoding (Skilling's transpose algorithm).

use vstd::prelude::*;

verus! {

/// One coordinate step of the inverse-undo pass at bit `q` for axis `i`.
pub open spec fn undo_step(a: Seq<u64>, q: u64, i: int) -> Seq<u64> {
    let p = (q - 1) as u64;
    if a[i] & q != 0 {
        a.update(0, a[0] ^ p)
    } else {
        let t = (a[0] ^ a[i]) & p;
        let b = a.update(0, a[0] ^ t);
        b.update(i, a[i] ^ t)
    }
}

/// The inverse-undo pass at bit `q` over axes `i..`.
pub open spec fn undo_row(a: Seq<u64>, q: u64, i: int) -> Seq<u64>
    decreases a.len() - i,
{
    if i < 0 || i >= a.len() {
        a
    } else {
        undo_row(undo_step(a, q, i), q, i + 1)
    }
}

/// The inverse-undo passes for bits `q, q/2, ..., 2`.
pub open spec fn undo_all(a: Seq<u64>, q: u64) -> Seq<u64>
    decreases q,
{
    if q <= 1 {
        a
    } else {
        undo_all(undo_row(a, q, 0), q / 2)
    }
}

/// Gray encoding: each axis XORed with the (already encoded) previous one.
pub open spec fn gray_from(a: Seq<u64>, i: int) -> Seq<u64>
    decreases a.len() - i,
{
    if i < 1 || i >= a.len() {
        a
    } else {
        gray_from(a.update(i, a[i] ^ a[i - 1]), i + 1)
    }
}

/// The correction mask from the last axis, for bits `q, q/2, ..., 2`.
pub open spec fn t_mask(last: u64, q: u64) -> u64
    decreases q,
{
    if q <= 1 {
        0
    } else {
        (if last & q != 0 { (q - 1) as u64 } else { 0u64 }) ^ t_mask(last, q / 2)
    }
}

/// Coordinates in Hilbert transpose form.
pub open spec fn transposed(a: Seq<u64>, bits: u32) -> Seq<u64> {
    if a.len() == 0 || bits == 0 {
        a
    } else {
        let m = (1u64 << ((bits - 1) as u64)) as u64;
        let g = gray_from(undo_all(a, m), 1);
        let t = t_mask(g[g.len() - 1], m);
        g.map_values(|x: u64| x ^ t)
    }
}

/// The bits of round `j` (bit `bits - 1 - j` of each axis, from axis `dim`)
/// placed from the top of the result.
pub open spec fn interleave_dims(a: Seq<u64>, bits: u32, j: int, dim: int, acc: u64) -> u64
    decreases a.len() - dim,
{
    if dim < 0 || dim >= a.len() {
        acc
    } else {
        let bit = bits - 1 - j;
        let b = (a[dim] >> (bit as u64)) & 1;
        let shift = j * a.len() + dim;
        let acc2 = if shift < 64 { acc | (b << ((63 - shift) as u64)) } else { acc };
        interleave_dims(a, bits, j, dim + 1, acc2)
    }
}

/// All rounds from `j` on.
pub open spec fn interleave_rounds(a: Seq<u64>, bits: u32, j: int, acc: u64) -> u64
    decreases bits - j,
{
    if j < 0 || j >= bits {
        acc
    } else {
        interleave_rounds(a, bits, j + 1, interleave_dims(a, bits, j, 0, acc))
    }
}

/// The transposed bits read out most significant first, right-aligned when
/// they take fewer than 64 bits.
pub open spec fn interleaved(a: Seq<u64>, bits: u32) -> u64 {
    let r = interleave_rounds(a, bits, 0, 0);
    let total = bits * a.len();
    if total < 64 {
        r >> ((64 - total) as u64)
    } else {
        r
    }
}

fn axes_to_transpose(axes: &mut Vec<u64>, bits: u32)
    requires
        1 <= bits <= 64,
    ensures
        final(axes)@ == transposed(old(axes)@, bits),
        final(axes)@.len() == old(axes)@.len(),
{
    let n = axes.len();
    if n == 0 {
        return;
    }
    let ghost a0 = axes@;
    proof {
        assert(bits - 1 < 64);
    }
    let m: u64 = 1u64 << (bits - 1);
    let mut q = m;
    while q > 1
        invariant
            axes@.len() == n,
            n > 0,
            undo_all(axes@, q) == undo_all(a0, m),
        decreases q,
    {
        let p = q - 1;
        let ghost start = axes@;
        let mut i: usize = 0;
        while i < n
            invariant
                axes@.len() == n,
                n > 0,
                i <= n,
                p == q - 1,
                undo_row(axes@, q, i as int) == undo_row(start, q, 0),
            decreases n - i,
        {
            let ghost before = axes@;
            if axes[i] & q != 0 {
                let v = axes[0] ^ p;
                axes.set(0, v);
            } else {
                let t = (axes[0] ^ axes[i]) & p;
                let v0 = axes[0] ^ t;
                let vi = axes[i] ^ t;
                axes.set(0, v0);
                axes.set(i, vi);
            }
            proof {
                assert(axes@ =~= undo_step(before, q, i as int));
            }
            i = i + 1;
        }
        proof {
            assert(q >> 1 == q / 2) by (bit_vector);
        }
        q = q >> 1;
    }
    let ghost u = axes@;
    let mut i: usize = 1;
    while i < n
        invariant
            axes@.len() == n,
            1 <= i <= n,
            gray_from(axes@, i as int) == gray_from(u, 1),
        decreases n - i,
    {
        let ghost before = axes@;
        let v = axes[i] ^ axes[i - 1];
        axes.set(i, v);
        proof {
            assert(axes@ =~= before.update(i as int, before[i as int] ^ before[i - 1]));
        }
        i = i + 1;
    }
    let ghost g = axes@;
    let last = axes[n - 1];
    let mut t: u64 = 0;
    let mut q = m;
    proof {
        let tm = t_mask(last, m);
        assert(0u64 ^ tm == tm) by (bit_vector);
    }
    while q > 1
        invariant
            t ^ t_mask(last, q) == t_mask(last, m),
        decreases q,
    {
        let ghost tq = t_mask(last, q / 2);
        if last & q != 0 {
            let ghost t0 = t;
            t = t ^ (q - 1);
            proof {
                let qm = (q - 1) as u64;
                assert(t0 ^ (qm ^ tq) == (t0 ^ qm) ^ tq) by (bit_vector);
            }
        } else {
            proof {
                let t0 = t;
                assert(t0 ^ (0u64 ^ tq) == t0 ^ tq) by (bit_vector);
            }
        }
        proof {
            assert(q >> 1 == q / 2) by (bit_vector);
        }
        q = q >> 1;
    }
    proof {
        assert(t ^ 0u64 == t) by (bit_vector);
    }
    let mut k: usize = 0;
    while k < n
        invariant
            axes@.len() == n,
            k <= n,
            forall|j: int| 0 <= j < k ==> #[trigger] axes@[j] == g[j] ^ t,
            forall|j: int| k <= j < n ==> #[trigger] axes@[j] == g[j],
        decreases n - k,
    {
        let v = axes[k] ^ t;
        axes.set(k, v);
        k = k + 1;
    }
    proof {
        assert(axes@ =~= g.map_values(|x: u64| x ^ t));
    }
}

fn interleave_bits(axes: &Vec<u64>, bits: u32) -> (r: u64)
    requires
        1 <= bits <= 64,
        axes@.len() >= 1,
        axes@.len() * 128 <= usize::MAX,
    ensures
        r == interleaved(axes@, bits),
{
    let n = axes.len();
    let mut result: u64 = 0;
    let mut j: u32 = 0;
    while j < bits
        invariant
            n == axes@.len(),
            n * 128 <= usize::MAX,
            bits <= 64,
            j <= bits,
            interleave_rounds(axes@, bits, j as int, result) == interleave_rounds(axes@, bits, 0, 0),
        decreases bits - j,
    {
        let bit = bits - 1 - j;
        let mut dim: usize = 0;
        let ghost acc0 = result;
        while dim < n
            invariant
                n == axes@.len(),
                n * 128 <= usize::MAX,
                j < bits <= 64,
                bit == bits - 1 - j,
                dim <= n,
                interleave_dims(axes@, bits, j as int, dim as int, result) == interleave_dims(axes@, bits, j as int, 0, acc0),
            decreases n - dim,
        {
            let b = (axes[dim] >> bit) & 1;
            proof {
                assert((j as usize) * n <= 64 * n) by (nonlinear_arith)
                    requires
                        j <= 64,
                ;
                assert(dim < n);
            }
            let shift = (j as usize) * n + dim;
            if shift < 64 {
                result = result | (b << (63 - shift as u64));
            }
            dim = dim + 1;
        }
        j = j + 1;
    }
    proof {
        assert(bits * n <= 64 * n) by (nonlinear_arith)
            requires
                bits <= 64,
        ;
    }
    let total = (bits as usize) * n;
    proof {
        assert(bits * n >= 1) by (nonlinear_arith)
            requires
                bits >= 1,
                n >= 1,
        ;
    }
    if total < 64 {
        result = result >> (64 - total as u64);
    }
    result
}

/// The Hilbert index of an N-dimensional coordinate: the coordinates (each
/// below 2^bits) put in transpose form and their bits interleaved.
pub fn hilbert_index_nd(coords: &[u64], bits: u32) -> (r: u64)
    requires
        1 <= bits <= 64,
        coords@.len() >= 1,
        coords@.len() * 128 <= usize::MAX,
    ensures
        r == interleaved(transposed(coords@, bits), bits),
{
    let mut axes: Vec<u64> = Vec::new();
    let mut i: usize = 0;
    while i < coords.len()
        invariant
            i <= coords@.len(),
            axes@ == coords@.take(i as int),
        decreases coords@.len() - i,
    {
        axes.push(coords[i]);
        i = i + 1;
        proof {
            assert(axes@ =~= coords@.take(i as int));
        }
    }
    proof {
        assert(axes@ =~= coords@);
    }
    axes_to_transpose(&mut axes, bits);
    interleave_bits(&axes, bits)
}

// ---------------------------------------------------------------------------
// The order of the top-level sub-cubes
// ---------------------------------------------------------------------------

/// How many low bits of the index the curve uses: `bits` per axis, at most 64.
pub open spec fn used_bits(bits: u32, n: nat) -> int {
    if bits * n < 64 {
        bits * n
    } else {
        64
    }
}

/// Gray encoding from axis `i` on keeps the axes before `i`, and makes each
/// later axis its input XORed with the encoded axis before it.
proof fn lemma_gray_from(a: Seq<u64>, i: int)
    requires
        i >= 1,
    ensures
        gray_from(a, i).len() == a.len(),
        forall|j: int| 0 <= j < i && j < a.len() ==> #[trigger] gray_from(a, i)[j] == a[j],
        forall|j: int|
            i <= j < a.len() ==> #[trigger] gray_from(a, i)[j] == gray_from(a, i)[j - 1] ^ a[j],
    decreases a.len() - i,
{
    if i < a.len() {
        let a2 = a.update(i, a[i] ^ a[i - 1]);
        lemma_gray_from(a2, i + 1);
        let g2 = gray_from(a2, i + 1);
        assert(gray_from(a, i) == g2);
        assert forall|j: int| i <= j < a.len() implies #[trigger] g2[j] == g2[j - 1] ^ a[j] by {
            if j == i {
                assert(g2[i] == a2[i]);
                assert(g2[i - 1] == a2[i - 1]);
                lemma_xor_cancel(a[i], a[i - 1]);
            } else {
                assert(g2[j] == g2[j - 1] ^ a2[j]);
                assert(a2[j] == a[j]);
            }
        }
        assert forall|j: int| 0 <= j < i && j < a.len() implies #[trigger] g2[j] == a[j] by {
            assert(g2[j] == a2[j]);
        }
    }
}

/// The bits `x ^ y` picks are those of `x` that `y` flips: undone by `y`.
proof fn lemma_xor_cancel(x: u64, y: u64)
    ensures
        (x ^ y) ^ y == x,
        x ^ 0 == x,
        x ^ y == y ^ x,
        ((x ^ y) & 1) == ((x & 1) ^ (y & 1)),
{
    assert(x ^ y == y ^ x) by (bit_vector);
    assert((x ^ y) ^ y == x) by (bit_vector);
    assert(x ^ 0 == x) by (bit_vector);
    assert(((x ^ y) & 1) == ((x & 1) ^ (y & 1))) by (bit_vector);
}

/// Bit `k` of `x ^ y` is the XOR of their bits `k`; a bit is 0 or 1.
proof fn lemma_xor_bit(x: u64, y: u64, k: u64)
    ensures
        ((x ^ y) >> k) & 1 == ((x >> k) & 1) ^ ((y >> k) & 1),
        (y >> k) & 1 == 0 ==> ((x ^ y) >> k) & 1 == (x >> k) & 1,
        ((x >> k) & 1 == 0 && (y >> k) & 1 == 0) ==> ((x ^ y) >> k) & 1 == 0,
        (x >> k) & 1 <= 1,
{
    assert({
        &&& ((x ^ y) >> k) & 1 == ((x >> k) & 1) ^ ((y >> k) & 1)
        &&& (y >> k) & 1 == 0 ==> ((x ^ y) >> k) & 1 == (x >> k) & 1
        &&& ((x >> k) & 1 == 0 && (y >> k) & 1 == 0) ==> ((x ^ y) >> k) & 1 == 0
        &&& (x >> k) & 1 <= 1
    }) by (bit_vector);
}

/// A mask below bit `k` leaves bit `k` alone.
proof fn lemma_low_mask(x: u64, y: u64, p: u64, k: u64)
    requires
        k < 64,
        p < (1u64 << k),
    ensures
        ((x ^ p) >> k) & 1 == (x >> k) & 1,
        ((x ^ (y & p)) >> k) & 1 == (x >> k) & 1,
        (p >> k) & 1 == 0,
{
    assert(((x ^ p) >> k) & 1 == (x >> k) & 1) by (bit_vector)
        requires
            k < 64,
            p < (1u64 << k),
    ;
    assert(((x ^ (y & p)) >> k) & 1 == (x >> k) & 1) by (bit_vector)
        requires
            k < 64,
            p < (1u64 << k),
    ;
    assert((p >> k) & 1 == 0) by (bit_vector)
        requires
            k < 64,
            p < (1u64 << k),
    ;
}

/// One undo step at bit `q` (at most `2^k`) keeps bit `k` of every axis.
proof fn lemma_undo_step_top(a: Seq<u64>, q: u64, i: int, k: u64)
    requires
        0 <= i < a.len(),
        k < 64,
        1 <= q <= (1u64 << k),
    ensures
        undo_step(a, q, i).len() == a.len(),
        forall|j: int|
            0 <= j < a.len() ==> (#[trigger] undo_step(a, q, i)[j] >> k) & 1 == (a[j] >> k) & 1,
{
    let p = (q - 1) as u64;
    let r = undo_step(a, q, i);
    lemma_low_mask(a[0], a[0] ^ a[i], p, k);
    lemma_low_mask(a[i], a[0] ^ a[i], p, k);
    if a[i] & q != 0 {
        assert(r == a.update(0, a[0] ^ p));
    } else {
        let t = (a[0] ^ a[i]) & p;
        assert(r == a.update(0, a[0] ^ t).update(i, a[i] ^ t));
    }
}

/// An undo row keeps bit `k` of every axis.
proof fn lemma_undo_row_top(a: Seq<u64>, q: u64, i: int, k: u64)
    requires
        0 <= i,
        k < 64,
        1 <= q <= (1u64 << k),
    ensures
        undo_row(a, q, i).len() == a.len(),
        forall|j: int|
            0 <= j < a.len() ==> (#[trigger] undo_row(a, q, i)[j] >> k) & 1 == (a[j] >> k) & 1,
    decreases a.len() - i,
{
    if i < a.len() {
        let b = undo_step(a, q, i);
        lemma_undo_step_top(a, q, i, k);
        lemma_undo_row_top(b, q, i + 1, k);
        assert forall|j: int| 0 <= j < a.len() implies (#[trigger] undo_row(a, q, i)[j] >> k) & 1
            == (a[j] >> k) & 1 by {
            assert((undo_row(b, q, i + 1)[j] >> k) & 1 == (b[j] >> k) & 1);
        }
    }
}

/// All undo rows from bit `q` (at most `2^k`) down keep bit `k` of every axis.
proof fn lemma_undo_all_top(a: Seq<u64>, q: u64, k: u64)
    requires
        k < 64,
        q <= (1u64 << k),
    ensures
        undo_all(a, q).len() == a.len(),
        forall|j: int| 0 <= j < a.len() ==> (#[trigger] undo_all(a, q)[j] >> k) & 1 == (a[j] >> k) & 1,
    decreases q,
{
    if q > 1 {
        let b = undo_row(a, q, 0);
        lemma_undo_row_top(a, q, 0, k);
        lemma_undo_all_top(b, q / 2, k);
        assert forall|j: int| 0 <= j < a.len() implies (#[trigger] undo_all(a, q)[j] >> k) & 1 == (
        a[j] >> k) & 1 by {
            assert((undo_all(b, q / 2)[j] >> k) & 1 == (b[j] >> k) & 1);
        }
    }
}

/// The correction mask from bit `q` (at most `2^k`) down has bit `k` clear.
proof fn lemma_t_mask_top(last: u64, q: u64, k: u64)
    requires
        k < 64,
        q <= (1u64 << k),
    ensures
        (t_mask(last, q) >> k) & 1 == 0,
    decreases q,
{
    assert((0u64 >> k) & 1 == 0) by (bit_vector);
    if q > 1 {
        let term = if last & q != 0 {
            (q - 1) as u64
        } else {
            0u64
        };
        lemma_low_mask(0, 0, (q - 1) as u64, k);
        assert((term >> k) & 1 == 0);
        lemma_t_mask_top(last, q / 2, k);
        lemma_xor_bit(term, t_mask(last, q / 2), k);
        assert(t_mask(last, q) == term ^ t_mask(last, q / 2));
    }
}

/// Setting bit `b` at position `ps` of `acc` leaves every other position alone,
/// and puts `b` at `ps` when that position was clear.
proof fn lemma_place_bit(acc: u64, b: u64, ps: u64, pd: u64)
    requires
        b <= 1,
        ps < 64,
        pd < 64,
    ensures
        pd != ps ==> ((acc | (b << ps)) >> pd) & 1 == (acc >> pd) & 1,
        (acc >> ps) & 1 == 0 ==> ((acc | (b << ps)) >> ps) & 1 == b,
{
    assert(pd != ps ==> ((acc | (b << ps)) >> pd) & 1 == (acc >> pd) & 1) by (bit_vector)
        requires
            b <= 1,
            ps < 64,
            pd < 64,
    ;
    assert((acc >> ps) & 1 == 0 ==> ((acc | (b << ps)) >> ps) & 1 == b) by (bit_vector)
        requires
            b <= 1,
            ps < 64,
    ;
}

/// The first round of interleaving, from axis `dim` on, puts the top bit of
/// axis `d` at position `63 - d` and keeps the earlier positions.
proof fn lemma_dims_top(a: Seq<u64>, bits: u32, dim: int, acc: u64)
    requires
        1 <= bits <= 64,
        0 <= dim <= a.len() <= 64,
        forall|d: int| dim <= d < a.len() ==> (#[trigger] (acc >> ((63 - d) as u64))) & 1 == 0,
    ensures
        forall|d: int|
            0 <= d < a.len() ==> (#[trigger] (interleave_dims(a, bits, 0, dim, acc) >> ((63 - d) as u64)))
                & 1 == if d >= dim {
                (a[d] >> ((bits - 1) as u64)) & 1
            } else {
                (acc >> ((63 - d) as u64)) & 1
            },
    decreases a.len() - dim,
{
    if dim < a.len() {
        let k = (bits - 1) as u64;
        let b = (a[dim] >> k) & 1;
        lemma_xor_bit(a[dim], 0, k);
        let acc2 = acc | (b << ((63 - dim) as u64));
        assert(interleave_dims(a, bits, 0, dim, acc) == interleave_dims(a, bits, 0, dim + 1, acc2));
        assert forall|d: int| 0 <= d < a.len() implies (#[trigger] (acc2 >> ((63 - d) as u64))) & 1
            == if d == dim {
            b
        } else {
            (acc >> ((63 - d) as u64)) & 1
        } by {
            lemma_place_bit(acc, b, (63 - dim) as u64, (63 - d) as u64);
        }
        lemma_dims_top(a, bits, dim + 1, acc2);
    }
}

/// A later round (`j >= 1`) writes only below the first round's positions.
proof fn lemma_dims_keep(a: Seq<u64>, bits: u32, j: int, dim: int, acc: u64)
    requires
        1 <= j < bits,
        0 <= dim,
        a.len() <= 64,
    ensures
        forall|d: int|
            0 <= d < a.len() ==> (#[trigger] (interleave_dims(a, bits, j, dim, acc) >> ((63 - d) as u64)))
                & 1 == (acc >> ((63 - d) as u64)) & 1,
    decreases a.len() - dim,
{
    if dim < a.len() {
        let n = a.len();
        let sb = (bits - 1 - j) as u64;
        let b = (a[dim] >> sb) & 1;
        let shift = j * n + dim;
        assert(j * n >= n) by (nonlinear_arith)
            requires
                j >= 1,
                n >= 0,
        ;
        let acc2 = if shift < 64 {
            acc | (b << ((63 - shift) as u64))
        } else {
            acc
        };
        assert(interleave_dims(a, bits, j, dim, acc) == interleave_dims(a, bits, j, dim + 1, acc2));
        if shift < 64 {
            lemma_xor_bit(a[dim], 0, sb);
            assert forall|d: int| 0 <= d < n implies (#[trigger] (acc2 >> ((63 - d) as u64))) & 1 == (
            acc >> ((63 - d) as u64)) & 1 by {
                lemma_place_bit(acc, b, (63 - shift) as u64, (63 - d) as u64);
            }
        }
        lemma_dims_keep(a, bits, j, dim + 1, acc2);
    }
}

/// The rounds from `j >= 1` on keep the first round's positions.
proof fn lemma_rounds_keep(a: Seq<u64>, bits: u32, j: int, acc: u64)
    requires
        1 <= j,
        a.len() <= 64,
    ensures
        forall|d: int|
            0 <= d < a.len() ==> (#[trigger] (interleave_rounds(a, bits, j, acc) >> ((63 - d) as u64)))
                & 1 == (acc >> ((63 - d) as u64)) & 1,
    decreases bits - j,
{
    if j < bits {
        let acc2 = interleave_dims(a, bits, j, 0, acc);
        lemma_dims_keep(a, bits, j, 0, acc);
        lemma_rounds_keep(a, bits, j + 1, acc2);
        assert forall|d: int| 0 <= d < a.len() implies (#[trigger] (interleave_rounds(a, bits, j, acc)
            >> ((63 - d) as u64))) & 1 == (acc >> ((63 - d) as u64)) & 1 by {
            assert((interleave_rounds(a, bits, j + 1, acc2) >> ((63 - d) as u64)) & 1 == (acc2 >> ((63
                - d) as u64)) & 1);
        }
    }
}

/// The index holds the top bit of transpose axis `d` at position
/// `used_bits - 1 - d`, counting from the least significant bit.
proof fn lemma_interleaved_top(t: Seq<u64>, bits: u32)
    requires
        1 <= bits <= 64,
        1 <= t.len() <= 64,
    ensures
        forall|d: int|
            0 <= d < t.len() ==> (#[trigger] (interleaved(t, bits) >> ((used_bits(bits, t.len()) - 1
                - d) as u64))) & 1 == (t[d] >> ((bits - 1) as u64)) & 1,
{
    let n = t.len();
    assert forall|d: int| 0 <= d < n implies (#[trigger] (0u64 >> ((63 - d) as u64))) & 1 == 0 by {
        let s = (63 - d) as u64;
        assert((0u64 >> s) & 1 == 0) by (bit_vector);
    }
    lemma_dims_top(t, bits, 0, 0);
    let r0 = interleave_dims(t, bits, 0, 0, 0);
    assert(interleave_rounds(t, bits, 0, 0) == interleave_rounds(t, bits, 1, r0));
    lemma_rounds_keep(t, bits, 1, r0);
    let r = interleave_rounds(t, bits, 0, 0);
    let total = bits * n;
    assert(total >= n) by (nonlinear_arith)
        requires
            total == bits * n,
            bits >= 1,
    ;
    assert forall|d: int| 0 <= d < n implies (#[trigger] (interleaved(t, bits) >> ((used_bits(bits, n)
        - 1 - d) as u64))) & 1 == (t[d] >> ((bits - 1) as u64)) & 1 by {
        assert((r >> ((63 - d) as u64)) & 1 == (r0 >> ((63 - d) as u64)) & 1);
        assert((r0 >> ((63 - d) as u64)) & 1 == (t[d] >> ((bits - 1) as u64)) & 1);
        if total < 64 {
            let sh = (64 - total) as u64;
            let k = (total - 1 - d) as u64;
            let x = r >> sh;
            let pos = (63 - d) as u64;
            assert((x >> k) & 1 == (r >> pos) & 1) by (bit_vector)
                requires
                    x == r >> sh,
                    sh + k == pos,
                    pos < 64,
            ;
        }
    }
}

/// The Hilbert curve of any order visits the `2^n` top-level sub-cubes in
/// reflected Gray-code order, so each next sub-cube is a neighbour of the
/// last, differing in one coordinate. Reading the index's `n` most
/// significant used bits as `b_0 .. b_{n-1}`, the top bit of the first
/// coordinate is `b_0` and the top bit of each later coordinate `d` is
/// `b_d XOR b_{d-1}`. At order one this is the whole curve.
pub proof fn lemma_top_level_gray(coords: Seq<u64>, bits: u32)
    requires
        1 <= bits <= 64,
        1 <= coords.len() <= 64,
    ensures
        ({
            let n = coords.len();
            let k = (bits - 1) as u64;
            let w = used_bits(bits, n);
            let idx = interleaved(transposed(coords, bits), bits);
            &&& (coords[0] >> k) & 1 == (idx >> ((w - 1) as u64)) & 1
            &&& forall|d: int|
                1 <= d < n ==> (#[trigger] coords[d] >> k) & 1 == ((idx >> ((w - 1 - d) as u64)) & 1)
                    ^ ((idx >> ((w - d) as u64)) & 1)
        }),
{
    let n = coords.len();
    let k = (bits - 1) as u64;
    let m = (1u64 << k) as u64;
    let u = undo_all(coords, m);
    lemma_undo_all_top(coords, m, k);
    let g = gray_from(u, 1);
    lemma_gray_from(u, 1);
    let tm = t_mask(g[g.len() - 1], m);
    lemma_t_mask_top(g[g.len() - 1], m, k);
    let t = transposed(coords, bits);
    assert(t == g.map_values(|x: u64| x ^ tm));
    assert forall|j: int| 0 <= j < n implies (#[trigger] t[j] >> k) & 1 == (g[j] >> k) & 1 by {
        assert(t[j] == g[j] ^ tm);
        lemma_xor_bit(g[j], tm, k);
    }
    lemma_interleaved_top(t, bits);
    let idx = interleaved(t, bits);
    let w = used_bits(bits, n);
    assert((coords[0] >> k) & 1 == (idx >> ((w - 1) as u64)) & 1) by {
        assert((t[0] >> k) & 1 == (g[0] >> k) & 1);
        assert(g[0] == u[0]);
        assert((u[0] >> k) & 1 == (coords[0] >> k) & 1);
        assert((idx >> ((w - 1 - 0) as u64)) & 1 == (t[0] >> k) & 1);
    }
    assert forall|d: int| 1 <= d < n implies (#[trigger] coords[d] >> k) & 1 == ((idx >> ((w - 1 - d)
        as u64)) & 1) ^ ((idx >> ((w - d) as u64)) & 1) by {
        assert((idx >> ((w - 1 - (d - 1)) as u64)) & 1 == (t[d - 1] >> k) & 1);
        assert((idx >> ((w - 1 - d) as u64)) & 1 == (t[d] >> k) & 1);
        assert((t[d] >> k) & 1 == (g[d] >> k) & 1);
        assert((t[d - 1] >> k) & 1 == (g[d - 1] >> k) & 1);
        assert(g[d] == g[d - 1] ^ u[d]);
        lemma_xor_bit(g[d - 1], u[d], k);
        lemma_xor_bit(u[d], 0, k);
        lemma_xor_bit(g[d - 1], 0, k);
        assert((u[d] >> k) & 1 == (coords[d] >> k) & 1);
        let x = (g[d - 1] >> k) & 1;
        let c = (u[d] >> k) & 1;
        assert((x ^ c) ^ x == c) by (bit_vector);
        assert(x ^ (x ^ c) == c) by (bit_vector);
    }
}

} // verus!
