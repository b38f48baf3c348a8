//! Decimal integer parsing with the grammar of `str::parse` for `u32` and
//! `i32`: an optional sign (only `+` for unsigned), then one or more ASCII
//! digits, and the value in range.

use vstd::prelude::*;

verus! {

pub open spec fn is_digit(b: u8) -> bool {
    0x30 <= b <= 0x39
}

pub open spec fn all_digits(s: Seq<u8>) -> bool {
    forall|i: int| 0 <= i < s.len() ==> is_digit(#[trigger] s[i])
}

/// The value of a digit string.
pub open spec fn dec_val(s: Seq<u8>) -> int
    decreases s.len(),
{
    if s.len() == 0 {
        0
    } else {
        dec_val(s.drop_last()) * 10 + (s.last() - 0x30)
    }
}

/// `u32::from_str`: an optional `+`, then digits, value at most `u32::MAX`.
pub open spec fn spec_parse_u32(s: Seq<u8>) -> Option<u32> {
    let t = if s.len() > 0 && s[0] == 0x2b { s.drop_first() } else { s };
    if t.len() > 0 && all_digits(t) && dec_val(t) <= u32::MAX {
        Some(dec_val(t) as u32)
    } else {
        None
    }
}

/// `i32::from_str`: an optional `+` or `-`, then digits, value in range.
pub open spec fn spec_parse_i32(s: Seq<u8>) -> Option<i32> {
    let neg = s.len() > 0 && s[0] == 0x2d;
    let t = if s.len() > 0 && (s[0] == 0x2b || s[0] == 0x2d) { s.drop_first() } else { s };
    if t.len() > 0 && all_digits(t) {
        if neg {
            if dec_val(t) <= 0x8000_0000 {
                Some((-dec_val(t)) as i32)
            } else {
                None
            }
        } else if dec_val(t) <= 0x7fff_ffff {
            Some(dec_val(t) as i32)
        } else {
            None
        }
    } else {
        None
    }
}

proof fn lemma_dec_val_nonneg(s: Seq<u8>)
    requires
        all_digits(s),
    ensures
        dec_val(s) >= 0,
    decreases s.len(),
{
    if s.len() > 0 {
        assert(all_digits(s.drop_last())) by {
            assert forall|i: int| 0 <= i < s.drop_last().len() implies is_digit(#[trigger] s.drop_last()[i]) by {
                assert(s.drop_last()[i] == s[i]);
            }
        }
        lemma_dec_val_nonneg(s.drop_last());
        assert(is_digit(s[s.len() - 1]));
    }
}

/// A longer digit string is worth at least as much as its prefix.
proof fn lemma_dec_val_prefix(s: Seq<u8>, k: int)
    requires
        all_digits(s),
        0 <= k <= s.len(),
    ensures
        dec_val(s.take(k)) <= dec_val(s),
    decreases s.len() - k,
{
    if k < s.len() {
        let t = s.take(k + 1);
        assert(t.drop_last() =~= s.take(k));
        assert(all_digits(s.take(k))) by {
            assert forall|i: int| 0 <= i < s.take(k).len() implies is_digit(#[trigger] s.take(k)[i]) by {
                assert(s.take(k)[i] == s[i]);
            }
        }
        lemma_dec_val_nonneg(s.take(k));
        assert(is_digit(s[k]));
        assert(t.last() == s[k]);
        lemma_dec_val_prefix(s, k + 1);
    } else {
        assert(s.take(k) =~= s);
    }
}

/// The value of the digits `s[from..]`, when they are digits and the value
/// is at most `limit`.
fn digits_value(s: &[u8], from: usize, limit: u64) -> (r: Option<u64>)
    requires
        from <= s@.len(),
        limit <= u32::MAX + 1,
    ensures
        r matches Some(v) ==> all_digits(s@.skip(from as int)) && v == dec_val(s@.skip(from as int))
            && v <= limit,
        r is None ==> !(all_digits(s@.skip(from as int)) && dec_val(s@.skip(from as int)) <= limit),
{
    let ghost t = s@.skip(from as int);
    let mut v: u64 = 0;
    let mut i: usize = from;
    while i < s.len()
        invariant
            from <= i <= s@.len(),
            t == s@.skip(from as int),
            limit <= u32::MAX + 1,
            all_digits(t.take(i - from)),
            v == dec_val(t.take(i - from)),
            v <= limit,
        decreases s@.len() - i,
    {
        let b = s[i];
        let ghost k = i - from;
        proof {
            assert(t[k] == b);
        }
        if !(b >= 0x30u8 && b <= 0x39u8) {
            proof {
                assert(!is_digit(t[k]));
            }
            return None;
        }
        let nv = v * 10 + (b - 0x30u8) as u64;
        proof {
            let t1 = t.take(k + 1);
            assert(t1.drop_last() =~= t.take(k));
            assert(t1.last() == b);
            assert forall|j: int| 0 <= j < t1.len() implies is_digit(#[trigger] t1[j]) by {
                if j < k {
                    assert(t1[j] == t.take(k)[j]);
                }
            }
        }
        if nv > limit {
            proof {
                if all_digits(t) {
                    lemma_dec_val_prefix(t, k + 1);
                }
            }
            return None;
        }
        v = nv;
        i = i + 1;
    }
    proof {
        assert(t.take(i - from) =~= t);
    }
    Some(v)
}

/// Parse a `u32` the way `str::parse::<u32>` does.
pub fn parse_u32(s: &[u8]) -> (r: Option<u32>)
    ensures
        r == spec_parse_u32(s@),
{
    let from: usize = if s.len() > 0 && s[0] == 0x2bu8 { 1 } else { 0 };
    proof {
        assert(s@.skip(from as int) =~= if s@.len() > 0 && s@[0] == 0x2b { s@.drop_first() } else { s@ });
    }
    if from == s.len() {
        return None;
    }
    match digits_value(s, from, 0xffff_ffffu64) {
        Some(v) => Some(v as u32),
        None => None,
    }
}

/// Parse an `i32` the way `str::parse::<i32>` does.
pub fn parse_i32(s: &[u8]) -> (r: Option<i32>)
    ensures
        r == spec_parse_i32(s@),
{
    let neg = s.len() > 0 && s[0] == 0x2du8;
    let from: usize = if s.len() > 0 && (s[0] == 0x2bu8 || s[0] == 0x2du8) { 1 } else { 0 };
    proof {
        assert(s@.skip(from as int) =~= if s@.len() > 0 && (s@[0] == 0x2b || s@[0] == 0x2d) {
            s@.drop_first()
        } else {
            s@
        });
    }
    if from == s.len() {
        return None;
    }
    let limit: u64 = if neg { 0x8000_0000 } else { 0x7fff_ffff };
    match digits_value(s, from, limit) {
        Some(v) => {
            if neg {
                Some((0i64 - v as i64) as i32)
            } else {
                Some(v as i32)
            }
        },
        None => None,
    }
}

} // verus!
