//! Laws of the date encoding: decoding an encoded valid date gives the date
//! back.

use vstd::prelude::*;
use vstd::arithmetic::div_mod::{lemma_fundamental_div_mod, lemma_fundamental_div_mod_converse};
use crate::quantize::{civil_days, spec_date_from_days, spec_days_since_epoch, tdiv};

verus! {

/// A Gregorian leap year.
pub open spec fn is_leap(year: int) -> bool {
    year % 4 == 0 && (year % 100 != 0 || year % 400 == 0)
}

/// The number of days of a month.
pub open spec fn days_in_month(year: int, month: int) -> int {
    if month == 2 {
        if is_leap(year) {
            29
        } else {
            28
        }
    } else if month == 4 || month == 6 || month == 9 || month == 11 {
        30
    } else {
        31
    }
}

/// `tdiv` of a numerator moved down by `b - 1` when negative is floor
/// division.
proof fn lemma_floor_tdiv(a: int, b: int)
    requires
        b >= 1,
    ensures
        tdiv(if a >= 0 { a } else { a - (b - 1) }, b) * b <= a,
        a < tdiv(if a >= 0 { a } else { a - (b - 1) }, b) * b + b,
{
    if a >= 0 {
        lemma_fundamental_div_mod(a, b);
        assert(0 <= a % b < b) by {
            vstd::arithmetic::div_mod::lemma_mod_bound(a, b);
        }
        assert((a / b) * b == b * (a / b)) by (nonlinear_arith);
    } else {
        let n = b - 1 - a;
        lemma_fundamental_div_mod(n, b);
        vstd::arithmetic::div_mod::lemma_mod_bound(n, b);
        let t = n / b;
        assert(tdiv(a - (b - 1), b) == -t);
        assert((-t) * b == -(b * t)) by (nonlinear_arith);
    }
}

/// The year of an era comes back from its day number.
proof fn lemma_yoe_inverse(yoe: int, doy: int)
    requires
        0 <= yoe <= 399,
        0 <= doy <= 365,
        doy == 365 ==> is_leap(yoe + 1),
    ensures
        0 <= yoe * 365 + yoe / 4 - yoe / 100 + doy <= 146096,
        ({
            let doe = yoe * 365 + yoe / 4 - yoe / 100 + doy;
            (doe - doe / 1460 + doe / 36524 - doe / 146096) / 365 == yoe
        }),
{
    let c = yoe / 100;
    let r = yoe % 100;
    lemma_fundamental_div_mod(yoe, 100);
    vstd::arithmetic::div_mod::lemma_mod_bound(yoe, 100);
    let a = r / 4;
    let b = r % 4;
    lemma_fundamental_div_mod(r, 4);
    vstd::arithmetic::div_mod::lemma_mod_bound(r, 4);
    assert(0 <= c <= 3);
    assert(0 <= a <= 24);
    assert(yoe == 100 * c + 4 * a + b);
    lemma_fundamental_div_mod_converse(yoe, 4, 25 * c + a, b);
    let doe = yoe * 365 + yoe / 4 - yoe / 100 + doy;
    assert(doe == 36524 * c + 1461 * a + 365 * b + doy);
    // leap years of the era end in b == 3
    if doy == 365 {
        if b < 3 {
            lemma_fundamental_div_mod_converse(yoe + 1, 4, 25 * c + a, b + 1);
        }
        assert(b == 3);
    }
    let s = 24 * c + a + 365 * b + doy;
    assert(doe == 1460 * (25 * c + a) + s);
    let special = a == 24 && b == 3 && doy == 365;
    if special {
        assert(yoe == 100 * c + 99);
        assert((yoe + 1) % 100 == 0) by {
            lemma_fundamental_div_mod_converse(yoe + 1, 100, c + 1, 0);
        }
        assert((yoe + 1) % 400 == 0);
        if c < 3 {
            lemma_fundamental_div_mod_converse(yoe + 1, 400, 0, yoe + 1);
        }
        assert(c == 3);
        assert(doe == 146096);
        assert(doe / 1460 == 100) by {
            lemma_fundamental_div_mod_converse(doe, 1460, 100, 96);
        }
        assert(doe / 36524 == 4) by {
            lemma_fundamental_div_mod_converse(doe, 36524, 4, 0);
        }
        assert(doe / 146096 == 1) by {
            lemma_fundamental_div_mod_converse(doe, 146096, 1, 0);
        }
        lemma_fundamental_div_mod_converse(145999, 365, 399, 364);
    } else {
        let rr = 1461 * a + 365 * b + doy;
        assert(rr <= 36523);
        lemma_fundamental_div_mod_converse(doe, 36524, c, rr);
        assert(doe < 146096);
        lemma_fundamental_div_mod_converse(doe, 146096, 0, doe);
        let hi: int = if s >= 1460 { 1 } else { 0 };
        assert(s < 2920);
        lemma_fundamental_div_mod_converse(doe, 1460, 25 * c + a + hi, s - 1460 * hi);
        let rest = doy - hi;
        assert(doy == 0 ==> s < 1460);
        assert(0 <= rest <= 364);
        assert(doe - doe / 1460 + doe / 36524 - doe / 146096 == 365 * yoe + rest);
        lemma_fundamental_div_mod_converse(365 * yoe + rest, 365, yoe, rest);
    }
}

/// The first day of the shifted month `mm` (March = 0) within its year.
proof fn lemma_month_inverse(mm: int, day: int, dim: int)
    requires
        0 <= mm <= 11,
        1 <= day <= dim,
        dim == (if mm == 11 { 29int } else if mm == 1 || mm == 3 || mm == 6 || mm == 8 { 30int } else { 31int }),
    ensures
        ({
            let doy = (153 * mm + 2) / 5 + day - 1;
            &&& 0 <= doy <= 365
            &&& (5 * doy + 2) / 153 == mm
            &&& doy - (153 * ((5 * doy + 2) / 153) + 2) / 5 + 1 == day
            &&& doy == 365 ==> mm == 11 && day == 29
        }),
{
    let base = (153 * mm + 2) / 5;
    let doy = base + day - 1;
    // the month starts, March first
    let starts = seq![0int, 31, 61, 92, 122, 153, 184, 214, 245, 275, 306, 337];
    assert(base == starts[mm]) by {
        lemma_fundamental_div_mod_converse(153 * mm + 2, 5, starts[mm], 153 * mm + 2 - 5 * starts[mm]);
    }
    lemma_fundamental_div_mod_converse(5 * doy + 2, 153, mm, 5 * doy + 2 - 153 * mm);
}

/// Decoding the encoding of a valid date gives the date back.
pub proof fn lemma_date_roundtrip(year: int, month: int, day: int)
    requires
        i32::MIN <= year <= i32::MAX,
        1 <= month <= 12,
        1 <= day <= days_in_month(year, month),
        spec_days_since_epoch(year, month, day) is Some,
    ensures
        spec_date_from_days(spec_days_since_epoch(year, month, day)->0) == (
            year as i32,
            month as u32,
            day as u32,
        ),
{
    let yy = if month <= 2 { year - 1 } else { year };
    let mm = if month <= 2 { month + 9 } else { month - 3 };
    let era = tdiv(if yy >= 0 { yy } else { yy - 399 }, 400);
    lemma_floor_tdiv(yy, 400);
    let yoe = yy - era * 400;
    assert(0 <= yoe <= 399);
    let dim = days_in_month(year, month);
    let sdim: int = if mm == 11 { 29 } else if mm == 1 || mm == 3 || mm == 6 || mm == 8 { 30 } else { 31 };
    assert(day <= sdim);
    lemma_month_inverse(mm, day, sdim);
    let doy = (153 * mm + 2) / 5 + day - 1;
    assert(tdiv(153 * mm + 2, 5) == (153 * mm + 2) / 5);
    if doy == 365 {
        assert(month == 2 && day == 29);
        assert(is_leap(year));
        // the calendar year of the leap day is yy + 1, which has yoe + 1's residues
        assert(year == yoe + 1 + era * 400);
        assert(year % 4 == (yoe + 1) % 4) by {
            lemma_fundamental_div_mod_converse(year, 4, (yoe + 1) / 4 + era * 100, (yoe + 1) % 4);
            lemma_fundamental_div_mod(yoe + 1, 4);
            vstd::arithmetic::div_mod::lemma_mod_bound(yoe + 1, 4);
        }
        assert(year % 100 == (yoe + 1) % 100) by {
            lemma_fundamental_div_mod_converse(year, 100, (yoe + 1) / 100 + era * 4, (yoe + 1) % 100);
            lemma_fundamental_div_mod(yoe + 1, 100);
            vstd::arithmetic::div_mod::lemma_mod_bound(yoe + 1, 100);
        }
        assert(year % 400 == (yoe + 1) % 400) by {
            lemma_fundamental_div_mod_converse(year, 400, (yoe + 1) / 400 + era, (yoe + 1) % 400);
            lemma_fundamental_div_mod(yoe + 1, 400);
            vstd::arithmetic::div_mod::lemma_mod_bound(yoe + 1, 400);
        }
    }
    lemma_yoe_inverse(yoe, doy);
    let doe = yoe * 365 + yoe / 4 - yoe / 100 + doy;
    assert(tdiv(yoe, 4) == yoe / 4 && tdiv(yoe, 100) == yoe / 100);
    assert(civil_days(year, month, day) == era * 146097 + doe - 719468);
    let enc = spec_days_since_epoch(year, month, day)->0;
    let z = enc - 0x8000_0000 + 719468;
    assert(z == era * 146097 + doe);
    let era2 = tdiv(if z >= 0 { z } else { z - 146096 }, 146097);
    lemma_floor_tdiv(z, 146097);
    assert(era2 == era) by {
        assert(era2 * 146097 <= era * 146097 + doe < era2 * 146097 + 146097);
        if era2 < era {
            assert(era2 * 146097 + 146097 <= era * 146097) by (nonlinear_arith)
                requires
                    era2 < era,
            ;
        }
        if era2 > era {
            assert(era * 146097 + 146097 <= era2 * 146097) by (nonlinear_arith)
                requires
                    era2 > era,
            ;
        }
    }
    assert(z - era2 * 146097 == doe);
    assert(tdiv(doe, 1460) == doe / 1460 && tdiv(doe, 36524) == doe / 36524 && tdiv(doe, 146096)
        == doe / 146096);
    let num = doe - doe / 1460 + doe / 36524 - doe / 146096;
    assert(num >= 0) by {
        lemma_fundamental_div_mod_converse(num, 365, yoe, num - 365 * yoe);
    }
    assert(tdiv(num, 365) == yoe);
    assert(tdiv(yoe, 4) == yoe / 4);
    assert(tdiv(5 * doy + 2, 153) == (5 * doy + 2) / 153);
    assert(tdiv(153 * mm + 2, 5) == (153 * mm + 2) / 5);
}


/// Days before the shifted year `yy` (years starting in March), up to a
/// constant.
pub open spec fn year_start(yy: int) -> int {
    365 * yy + yy / 4 - yy / 100 + yy / 400
}

proof fn lemma_next_multiple(a: int, k: int)
    requires
        k >= 1,
    ensures
        (a + 1) / k - a / k == if (a + 1) % k == 0 { 1int } else { 0int },
{
    lemma_fundamental_div_mod(a, k);
    vstd::arithmetic::div_mod::lemma_mod_bound(a, k);
    lemma_fundamental_div_mod(a + 1, k);
    vstd::arithmetic::div_mod::lemma_mod_bound(a + 1, k);
    let q = a / k;
    assert((q + 1) * k == k * q + k) by (nonlinear_arith);
    assert(q * k == k * q) by (nonlinear_arith);
    if a % k == k - 1 {
        lemma_fundamental_div_mod_converse(a + 1, k, q + 1, 0);
    } else {
        lemma_fundamental_div_mod_converse(a + 1, k, q, a % k + 1);
    }
}

proof fn lemma_year_start_step(yy: int)
    ensures
        year_start(yy + 1) == year_start(yy) + 365 + if is_leap(yy + 1) { 1int } else { 0int },
{
    lemma_next_multiple(yy, 4);
    lemma_next_multiple(yy, 100);
    lemma_next_multiple(yy, 400);
    let x = yy + 1;
    if x % 400 == 0 {
        assert(x % 100 == 0) by {
            lemma_fundamental_div_mod(x, 400);
            lemma_fundamental_div_mod_converse(x, 100, 4 * (x / 400), 0);
        }
    }
    if x % 100 == 0 {
        assert(x % 4 == 0) by {
            lemma_fundamental_div_mod(x, 100);
            lemma_fundamental_div_mod_converse(x, 4, 25 * (x / 100), 0);
        }
    }
}

proof fn lemma_year_start_grows(a: int, b: int)
    requires
        a < b,
    ensures
        year_start(a) + 365 <= year_start(b),
        year_start(a + 1) <= year_start(b),
    decreases b - a,
{
    lemma_year_start_step(a);
    if a + 1 < b {
        lemma_year_start_grows(a + 1, b);
    }
}

/// The encoded day count of a date, over its shifted year and day of year.
proof fn lemma_civil_days_split(year: int, month: int, day: int)
    requires
        1 <= month <= 12,
    ensures
        ({
            let yy = if month <= 2 { year - 1 } else { year };
            let mm = if month <= 2 { month + 9 } else { month - 3 };
            civil_days(year, month, day) == year_start(yy) + (153 * mm + 2) / 5 + day - 1 - 719468
        }),
{
    let yy = if month <= 2 { year - 1 } else { year };
    let mm = if month <= 2 { month + 9 } else { month - 3 };
    let era = tdiv(if yy >= 0 { yy } else { yy - 399 }, 400);
    lemma_floor_tdiv(yy, 400);
    let yoe = yy - era * 400;
    lemma_fundamental_div_mod_converse(yy, 400, era, yoe);
    lemma_fundamental_div_mod(yoe, 4);
    vstd::arithmetic::div_mod::lemma_mod_bound(yoe, 4);
    lemma_fundamental_div_mod_converse(yy, 4, 100 * era + yoe / 4, yoe % 4);
    lemma_fundamental_div_mod(yoe, 100);
    vstd::arithmetic::div_mod::lemma_mod_bound(yoe, 100);
    lemma_fundamental_div_mod_converse(yy, 100, 4 * era + yoe / 100, yoe % 100);
    assert(tdiv(yoe, 4) == yoe / 4 && tdiv(yoe, 100) == yoe / 100);
    assert(tdiv(153 * mm + 2, 5) == (153 * mm + 2) / 5);
}

/// The day of year of a valid date in its shifted year.
proof fn lemma_doy_bounds(year: int, month: int, day: int)
    requires
        1 <= month <= 12,
        1 <= day <= days_in_month(year, month),
    ensures
        ({
            let yy = if month <= 2 { year - 1 } else { year };
            let mm = if month <= 2 { month + 9 } else { month - 3 };
            let doy = (153 * mm + 2) / 5 + day - 1;
            &&& 0 <= doy
            &&& doy <= 364 + if is_leap(yy + 1) { 1int } else { 0int }
        }),
{
    let mm = if month <= 2 { month + 9 } else { month - 3 };
    let sdim: int = if mm == 11 { 29 } else if mm == 1 || mm == 3 || mm == 6 || mm == 8 { 30 } else { 31 };
    lemma_month_inverse(mm, day, sdim);
}

/// Days before month `mm` of a shifted year, and the following month's start.
proof fn lemma_month_start(mm: int)
    requires
        0 <= mm <= 10,
    ensures
        (153 * (mm + 1) + 2) / 5 == (153 * mm + 2) / 5 + (if mm == 1 || mm == 3 || mm == 6 || mm == 8 { 30int } else { 31int }),
{
    let starts = seq![0int, 31, 61, 92, 122, 153, 184, 214, 245, 275, 306, 337];
    lemma_fundamental_div_mod_converse(153 * mm + 2, 5, starts[mm], 153 * mm + 2 - 5 * starts[mm]);
    lemma_fundamental_div_mod_converse(
        153 * (mm + 1) + 2,
        5,
        starts[mm + 1],
        153 * (mm + 1) + 2 - 5 * starts[mm + 1],
    );
}

proof fn lemma_month_start_grows(m1: int, m2: int)
    requires
        0 <= m1 < m2 <= 11,
    ensures
        (153 * m1 + 2) / 5 + (if m1 == 1 || m1 == 3 || m1 == 6 || m1 == 8 { 30int } else { 31int }) <= (153 * m2 + 2) / 5,
    decreases m2 - m1,
{
    lemma_month_start(m1);
    if m1 + 1 < m2 {
        lemma_month_start_grows(m1 + 1, m2);
        lemma_month_start(m1 + 1);
    }
}

/// Calendar order of dates.
pub open spec fn date_before(y1: int, m1: int, d1: int, y2: int, m2: int, d2: int) -> bool {
    y1 < y2 || (y1 == y2 && (m1 < m2 || (m1 == m2 && d1 < d2)))
}

/// Encoded dates sort as the dates do.
pub proof fn lemma_date_order(y1: int, m1: int, d1: int, y2: int, m2: int, d2: int)
    requires
        1 <= m1 <= 12,
        1 <= d1 <= days_in_month(y1, m1),
        1 <= m2 <= 12,
        1 <= d2 <= days_in_month(y2, m2),
        date_before(y1, m1, d1, y2, m2, d2),
        spec_days_since_epoch(y1, m1, d1) is Some,
        spec_days_since_epoch(y2, m2, d2) is Some,
    ensures
        spec_days_since_epoch(y1, m1, d1)->0 < spec_days_since_epoch(y2, m2, d2)->0,
{
    let yy1 = if m1 <= 2 { y1 - 1 } else { y1 };
    let mm1 = if m1 <= 2 { m1 + 9 } else { m1 - 3 };
    let yy2 = if m2 <= 2 { y2 - 1 } else { y2 };
    let mm2 = if m2 <= 2 { m2 + 9 } else { m2 - 3 };
    lemma_civil_days_split(y1, m1, d1);
    lemma_civil_days_split(y2, m2, d2);
    lemma_doy_bounds(y1, m1, d1);
    lemma_doy_bounds(y2, m2, d2);
    let doy1 = (153 * mm1 + 2) / 5 + d1 - 1;
    let doy2 = (153 * mm2 + 2) / 5 + d2 - 1;
    if yy1 < yy2 {
        lemma_year_start_step(yy1);
        lemma_year_start_grows(yy1, yy2);
        assert(year_start(yy1) + doy1 < year_start(yy2) + doy2);
    } else {
        assert(yy1 == yy2);
        if mm1 < mm2 {
            lemma_month_start_grows(mm1, mm2);
            let sdim1: int = if mm1 == 11 { 29 } else if mm1 == 1 || mm1 == 3 || mm1 == 6 || mm1 == 8 { 30 } else { 31 };
            lemma_month_inverse(mm1, d1, sdim1);
        } else {
            assert(mm1 == mm2 && d1 < d2);
        }
    }
}

} // verus!
