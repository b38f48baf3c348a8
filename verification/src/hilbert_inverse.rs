//! The two walks of the 65536 x 65536 Hilbert grid undo each other.
//!
//! `xy_to_hilbert_u16` walks cell sizes from the top down, while
//! `hilbert_to_xy_u16` builds the cell from the lowest two index bits up.
//! Both are related here to one curve, `curve_cell`, defined quadrant by
//! quadrant from the top.

use vstd::prelude::*;
use vstd::arithmetic::div_mod::*;
use crate::quantize::{d_step, d_to_xy, flip16, level, level32, lemma_xy_to_d_bound, xy_step, xy_to_d};

verus! {

/// `2^n`.
pub open spec fn p2(n: nat) -> nat
    decreases n,
{
    if n == 0 {
        1
    } else {
        2 * p2((n - 1) as nat)
    }
}

/// The cell `(x, y)` of the order-`n-1` curve, with side `s`, placed in quadrant `q`
/// of the grid of side `2s`.
pub open spec fn place(q: int, x: int, y: int, s: int) -> (int, int) {
    if q == 0 {
        (y, x)
    } else if q == 1 {
        (x, y + s)
    } else if q == 2 {
        (x + s, y + s)
    } else {
        (2 * s - 1 - y, s - 1 - x)
    }
}

/// The cell at index `d` of the Hilbert curve on the grid of side `2^n`.
pub open spec fn curve_cell(n: nat, d: int) -> (int, int)
    decreases n,
{
    if n == 0 {
        (0, 0)
    } else {
        let s = p2((n - 1) as nat) as int;
        let sub = curve_cell((n - 1) as nat, d % (s * s));
        place((d / (s * s)) % 4, sub.0, sub.1, s)
    }
}

proof fn lemma_bit_split(x: u16, s: u16)
    by (bit_vector)
    requires
        level(s),
        s > 0,
    ensures
        (x & s > 0) ==> (x as u32) % ((s as u32) << 1u32) == (x % s) as u32 + (s as u32),
        !(x & s > 0) ==> (x as u32) % ((s as u32) << 1u32) == (x % s) as u32,
        ((s as u32) << 1u32) == 2 * (s as u32),
{
}

/// `2s - 1 - v`, taken modulo 2^16, leaves `s - 1 - v % s` below `s`.
proof fn lemma_flip_mod(s: u16, v: u16)
    requires
        level(s),
        s > 0,
    ensures
        flip16(s, v) % s == s - 1 - v % s,
{
    let q = v / s;
    let r = v % s;
    lemma_fundamental_div_mod(v as int, s as int);
    lemma_mod_pos_bound(v as int, s as int);
    let w: int = 2 * s - 1 - v;
    if w >= 0 {
        lemma_small_mod(w as nat, 0x10000);
        assert(w == (1 - q) * s + (s - 1 - r)) by (nonlinear_arith)
            requires
                v == s * q + r,
                w == 2 * s - 1 - v,
        ;
        lemma_fundamental_div_mod_converse(w, s as int, 1 - q, s - 1 - r);
    } else {
        let k: int = 0x10000int / (s as int);
        assert(s * k == 0x10000);
        assert(w + 0x10000 == (1 - q + k) * s + (s - 1 - r)) by (nonlinear_arith)
            requires
                v == s * q + r,
                w == 2 * s - 1 - v,
                s * k == 0x10000,
        ;
        lemma_fundamental_div_mod_converse(w + 0x10000, s as int, 1 - q + k, s - 1 - r);
    }
}

/// The two bits that one step of the index-to-cell walk reads pick the quadrant
/// `dd % 4` as `place` does.
proof fn lemma_d_step_place(dd: u32, x: u32, y: u32, s: u32)
    requires
        level32(s),
        s < 0x10000,
        x < s,
        y < s,
    ensures
        d_step(dd, x, y, s).0 as int == place((dd % 4) as int, x as int, y as int, s as int).0,
        d_step(dd, x, y, s).1 as int == place((dd % 4) as int, x as int, y as int, s as int).1,
{
    let rx: u32 = 1 & (dd / 2);
    let ry: u32 = 1 & (dd ^ rx);
    assert((dd % 4 == 0 ==> rx == 0 && ry == 0) && (dd % 4 == 1 ==> rx == 0 && ry == 1) && (dd
        % 4 == 2 ==> rx == 1 && ry == 1) && (dd % 4 == 3 ==> rx == 1 && ry == 0)) by (bit_vector)
        requires
            rx == 1 & (dd / 2),
            ry == 1 & (dd ^ rx),
    ;
}

/// Every cell of the order-`n` curve lies on the grid of side `2^n`.
proof fn lemma_curve_cell_bound(n: nat, d: int)
    requires
        0 <= d,
    ensures
        0 <= curve_cell(n, d).0 < p2(n),
        0 <= curve_cell(n, d).1 < p2(n),
    decreases n,
{
    if n > 0 {
        let s = p2((n - 1) as nat) as int;
        lemma_p2_pos((n - 1) as nat);
        assert(s * s > 0) by (nonlinear_arith)
            requires
                s > 0,
        ;
        lemma_mod_pos_bound(d, s * s);
        lemma_curve_cell_bound((n - 1) as nat, d % (s * s));
    }
}

proof fn lemma_p2_pos(n: nat)
    ensures
        p2(n) >= 1,
    decreases n,
{
    if n > 0 {
        lemma_p2_pos((n - 1) as nat);
    }
}

/// Doubling up from `2^k` to `2^m`.
proof fn lemma_p2_grows(k: nat, m: nat)
    requires
        k < m,
    ensures
        2 * p2(k) <= p2(m),
    decreases m,
{
    lemma_p2_pos(k);
    if k + 1 < m {
        lemma_p2_grows(k, (m - 1) as nat);
    }
}

proof fn lemma_p2_top()
    ensures
        p2(16) == 0x10000,
{
    reveal_with_fuel(p2, 17);
}

/// The powers `2^k` below `2^16` are cell sizes of both walks.
proof fn lemma_p2_level(k: nat)
    requires
        k <= 16,
    ensures
        level32(p2(k) as u32),
        p2(k) <= 0x10000,
        k < 16 ==> p2(k) <= 0x8000,
        k < 16 ==> level(p2(k) as u16),
    decreases k,
{
    lemma_p2_pos(k);
    lemma_p2_top();
    if k < 16 {
        lemma_p2_grows(k, 16);
    }
    if k > 0 {
        lemma_p2_level((k - 1) as nat);
    }
}

/// From level `k` up, the index-to-cell walk finishes the cell that the curve
/// gives to the whole index, when it starts from the curve's cell for the low
/// `2k` bits.
proof fn lemma_bottom_up(d0: u32, k: nat)
    requires
        k <= 16,
    ensures
        ({
            let s = p2(k) as int;
            let c = curve_cell(k, (d0 as int) % (s * s));
            d_to_xy(((d0 as int) / (s * s)) as u32, c.0 as u32, c.1 as u32, s) == (
                curve_cell(16, d0 as int).0 as u32,
                curve_cell(16, d0 as int).1 as u32,
            )
        }),
    decreases 16 - k,
{
    let di = d0 as int;
    let s = p2(k) as int;
    let ss = s * s;
    lemma_p2_level(k);
    lemma_p2_pos(k);
    assert(ss > 0) by (nonlinear_arith)
        requires
            s > 0,
            ss == s * s,
    ;
    let c = curve_cell(k, di % ss);
    lemma_mod_pos_bound(di, ss);
    lemma_curve_cell_bound(k, di % ss);
    if k == 16 {
        lemma_p2_top();
        assert(ss == 0x1_0000_0000) by (nonlinear_arith)
            requires
                s == 0x10000,
                ss == s * s,
        ;
        lemma_small_mod(d0 as nat, ss as nat);
        lemma_basic_div(di, ss);
    } else {
        let d: u32 = (di / ss) as u32;
        lemma_div_pos_is_pos(di, ss);
        lemma_div_is_ordered_by_denominator(di, 1, ss);
        lemma_d_step_place(d, c.0 as u32, c.1 as u32, s as u32);
        let s2 = p2(k + 1) as int;
        assert(s2 == 2 * s);
        assert(s2 * s2 == ss * 4) by (nonlinear_arith)
            requires
                s2 == 2 * s,
                ss == s * s,
        ;
        lemma_mod_mod(di, ss, 4);
        lemma_mod_breakdown(di, ss, 4);
        lemma_mod_pos_bound(di / ss, 4);
        let q = (di / ss) % 4;
        assert(q * ss == ss * q) by (nonlinear_arith);
        lemma_fundamental_div_mod_converse(di % (ss * 4), ss, q, di % ss);
        lemma_div_denominator(di, ss, 4);
        assert(curve_cell(k + 1, di % (s2 * s2)) == place((d % 4) as int, c.0, c.1, s));
        lemma_bottom_up(d0, k + 1);
    }
}

/// The cell-to-index walk from cell size `2^(n-1)` down gives the index at
/// which the order-`n` curve visits the cell of `(x, y)` on the grid of side `2^n`.
proof fn lemma_top_down(x: u16, y: u16, n: nat)
    requires
        n <= 16,
    ensures
        curve_cell(n, xy_to_d(x, y, (p2(n) / 2) as u16)) == (
            (x as int) % (p2(n) as int),
            (y as int) % (p2(n) as int),
        ),
    decreases n,
{
    lemma_p2_pos(n);
    if n == 0 {
        assert(xy_to_d(x, y, 0) == 0);
        lemma_fundamental_div_mod_converse(x as int, 1, x as int, 0);
        lemma_fundamental_div_mod_converse(y as int, 1, y as int, 0);
    } else {
        let s = p2((n - 1) as nat) as int;
        let s16: u16 = s as u16;
        lemma_p2_level((n - 1) as nat);
        lemma_p2_pos((n - 1) as nat);
        assert(p2(n) / 2 == s);
        let (x2, y2, add) = xy_step(x, y, s16);
        let rest = xy_to_d(x2, y2, s16 / 2);
        assert((p2((n - 1) as nat) / 2) as u16 == s16 / 2);
        lemma_top_down(x2, y2, (n - 1) as nat);
        lemma_xy_to_d_bound(x2, y2, s16 / 2);
        let ss = s * s;
        if s16 >= 2 {
            assert(4 * (s / 2) * (s / 2) == ss) by (nonlinear_arith)
                requires
                    s % 2 == 0,
                    ss == s * s,
            ;
        }
        assert(0 <= rest < ss);
        let quad: int = if x & s16 > 0 {
            if y & s16 > 0 { 2 } else { 3 }
        } else {
            if y & s16 > 0 { 1 } else { 0 }
        };
        assert(s * s * quad <= 3 * 0x4000_0000) by (nonlinear_arith)
            requires
                0 < s <= 0x8000,
                0 <= quad <= 3,
        ;
        assert(add == ss * quad);
        let d = xy_to_d(x, y, s16);
        assert(d == add + rest);
        assert(quad * ss == ss * quad) by (nonlinear_arith);
        lemma_fundamental_div_mod_converse(d, ss, quad, rest);
        lemma_bit_split(x, s16);
        lemma_bit_split(y, s16);
        lemma_flip_mod(s16, x);
        lemma_flip_mod(s16, y);
    }
}

/// Every cell of the 65536 x 65536 grid is found again from its Hilbert index:
/// `hilbert_to_xy_u16(xy_to_hilbert_u16(x, y)) == (x, y)`.
pub proof fn lemma_hilbert_u16_roundtrip(x: u16, y: u16)
    ensures
        0 <= xy_to_d(x, y, 32768) <= u32::MAX,
        d_to_xy(xy_to_d(x, y, 32768) as u32, 0, 0, 1) == (x as u32, y as u32),
{
    lemma_xy_to_d_bound(x, y, 32768);
    lemma_p2_top();
    lemma_top_down(x, y, 16);
    assert((p2(16) / 2) as u16 == 32768u16);
    let d0 = xy_to_d(x, y, 32768) as u32;
    assert(d0 as int == xy_to_d(x, y, 32768));
    lemma_bottom_up(d0, 0);
    lemma_fundamental_div_mod_converse(d0 as int, 1, d0 as int, 0);
    lemma_small_mod(x as nat, 0x10000);
    lemma_small_mod(y as nat, 0x10000);
    assert(p2(0) == 1);
    assert(curve_cell(0, (d0 as int) % 1) == (0int, 0int));
    assert(curve_cell(16, d0 as int) == (x as int, y as int));
}

/// A cell that agrees with the order-`n` curve's cell at index `d` below `2^n`
/// is walked back to `d` from cell size `2^(n-1)` down.
proof fn lemma_index_of_cell(x: u16, y: u16, n: nat, d: int)
    requires
        n <= 16,
        0 <= d < p2(n) * p2(n),
        (x as int) % (p2(n) as int) == curve_cell(n, d).0,
        (y as int) % (p2(n) as int) == curve_cell(n, d).1,
    ensures
        xy_to_d(x, y, (p2(n) / 2) as u16) == d,
    decreases n,
{
    lemma_p2_pos(n);
    if n > 0 {
        let s = p2((n - 1) as nat) as int;
        let s16: u16 = s as u16;
        lemma_p2_level((n - 1) as nat);
        lemma_p2_pos((n - 1) as nat);
        assert(p2(n) / 2 == s);
        let ss = s * s;
        assert(ss > 0 && p2(n) * p2(n) == 4 * ss) by (nonlinear_arith)
            requires
                s > 0,
                ss == s * s,
                p2(n) == 2 * s,
        ;
        let quad = d / ss;
        let rest = d % ss;
        lemma_fundamental_div_mod(d, ss);
        lemma_mod_pos_bound(d, ss);
        lemma_div_pos_is_pos(d, ss);
        assert(quad < 4) by (nonlinear_arith)
            requires
                d == ss * quad + rest,
                0 <= rest,
                d < 4 * ss,
                ss > 0,
        ;
        lemma_small_mod(quad as nat, 4);
        let c = curve_cell((n - 1) as nat, rest);
        lemma_curve_cell_bound((n - 1) as nat, rest);
        let (x2, y2, add) = xy_step(x, y, s16);
        lemma_bit_split(x, s16);
        lemma_bit_split(y, s16);
        lemma_flip_mod(s16, x);
        lemma_flip_mod(s16, y);
        assert((x2 as int) % s == c.0 && (y2 as int) % s == c.1);
        assert((p2((n - 1) as nat) / 2) as u16 == s16 / 2);
        lemma_index_of_cell(x2, y2, (n - 1) as nat, rest);
        assert(s * s * quad <= 3 * 0x4000_0000) by (nonlinear_arith)
            requires
                0 < s <= 0x8000,
                0 <= quad <= 3,
        ;
        assert(add == ss * quad);
        assert(xy_to_d(x, y, s16) == add + xy_to_d(x2, y2, s16 / 2));
        assert(xy_to_d(x, y, s16) == d);
    } else {
        assert(p2(n) == 1);
        assert(p2(n) * p2(n) == 1) by (nonlinear_arith)
            requires
                p2(n) == 1,
        ;
        assert(d == 0);
        assert(xy_to_d(x, y, 0) == 0);
    }
}

/// Every Hilbert index names a cell of the 65536 x 65536 grid from which it is
/// computed again: `xy_to_hilbert_u16(hilbert_to_xy_u16(d)) == d`.
pub proof fn lemma_hilbert_index_roundtrip(d: u32)
    ensures
        d_to_xy(d, 0, 0, 1).0 < 0x10000,
        d_to_xy(d, 0, 0, 1).1 < 0x10000,
        xy_to_d(d_to_xy(d, 0, 0, 1).0 as u16, d_to_xy(d, 0, 0, 1).1 as u16, 32768) == d,
{
    lemma_p2_top();
    lemma_bottom_up(d, 0);
    lemma_fundamental_div_mod_converse(d as int, 1, d as int, 0);
    assert(p2(0) == 1);
    assert(curve_cell(0, (d as int) % 1) == (0int, 0int));
    let c = curve_cell(16, d as int);
    lemma_curve_cell_bound(16, d as int);
    lemma_small_mod(c.0 as nat, 0x10000);
    lemma_small_mod(c.1 as nat, 0x10000);
    assert((p2(16) / 2) as u16 == 32768u16);
    lemma_index_of_cell(c.0 as u16, c.1 as u16, 16, d as int);
}

} // verus!
