//! Signed fixed-point scalars: an `i64` holds a real number scaled by
//! `2^32`, so `FX_ONE` is the number one. All weight, input and intensity
//! values of the library are such scalars. Products are truncated toward
//! zero and every operation saturates at the `i64` range instead of
//! wrapping, so arithmetic is total and has no error path.

use vstd::arithmetic::div_mod::lemma_div_nonincreasing;
use vstd::prelude::*;

verus! {

/// The fixed-point representation of the number one: `2^32`.
pub const FX_ONE: i64 = 0x1_0000_0000;

/// The fixed-point representation of one half: `2^31`.
pub const FX_HALF: i64 = 0x8000_0000;

/// Clamps a mathematical integer into the `i64` range.
pub open spec fn sat64(x: int) -> int {
    if x > i64::MAX {
        i64::MAX as int
    } else if x < i64::MIN {
        i64::MIN as int
    } else {
        x
    }
}

/// Division truncated toward zero (the rounding of machine division),
/// for positive divisors.
pub open spec fn div_trunc(a: int, d: int) -> int
    recommends
        d > 0,
{
    if a >= 0 {
        a / d
    } else {
        -((-a) / d)
    }
}

/// The exact value of the fixed-point sum: the integer sum, clamped.
pub open spec fn fx_add_spec(a: int, b: int) -> int {
    sat64(a + b)
}

/// The exact value of the fixed-point product: the integer product
/// rescaled by `2^32` with truncation toward zero, then clamped.
pub open spec fn fx_mul_spec(a: int, b: int) -> int {
    sat64(div_trunc(a * b, FX_ONE as int))
}

/// The exact value of dividing a scalar by a positive integer count.
pub open spec fn fx_div_spec(a: int, d: int) -> int
    recommends
        d > 0,
{
    div_trunc(a, d)
}

/// Saturating fixed-point addition.
pub fn fx_add(a: i64, b: i64) -> (r: i64)
    ensures
        r == fx_add_spec(a as int, b as int),
{
    match a.checked_add(b) {
        Some(s) => s,
        None => {
            if a < 0 {
                i64::MIN
            } else {
                i64::MAX
            }
        },
    }
}

/// Saturating fixed-point multiplication: `(a * b) / 2^32`, truncated
/// toward zero.
pub fn fx_mul(a: i64, b: i64) -> (r: i64)
    ensures
        r == fx_mul_spec(a as int, b as int),
{
    proof {
        assert(-0x4000_0000_0000_0000_0000_0000_0000_0000
            <= (a as int) * (b as int)
            <= 0x4000_0000_0000_0000_0000_0000_0000_0000) by (nonlinear_arith)
            requires
                i64::MIN <= a <= i64::MAX,
                i64::MIN <= b <= i64::MAX,
        ;
    }
    let p: i128 = (a as i128) * (b as i128);
    let neg: bool = p < 0;
    let mag: u128 = if neg {
        (-p) as u128
    } else {
        p as u128
    };
    let q: u128 = mag / 0x1_0000_0000u128;
    proof {
        assert(p == a as int * b as int);
        if p >= 0 {
            assert(div_trunc(a as int * b as int, FX_ONE as int) == q);
        } else {
            assert(mag == -(a as int * b as int));
            assert(div_trunc(a as int * b as int, FX_ONE as int) == -(q as int));
        }
    }
    if neg {
        if q > 0x8000_0000_0000_0000u128 {
            i64::MIN
        } else {
            (-(q as i128)) as i64
        }
    } else {
        if q > 0x7fff_ffff_ffff_ffffu128 {
            i64::MAX
        } else {
            q as i64
        }
    }
}

/// Divides a scalar by a positive count, truncating toward zero. Used to
/// derive the effective mutation intensity from a parameter count.
pub fn fx_div(a: i64, d: i64) -> (r: i64)
    requires
        d >= 1,
    ensures
        r == fx_div_spec(a as int, d as int),
{
    if a >= 0 {
        let q: u128 = (a as u128) / (d as u128);
        proof {
            assert(q <= a as int) by {
                lemma_div_nonincreasing(a as int, d as int);
            }
        }
        q as i64
    } else {
        let m: u128 = (-(a as i128)) as u128;
        let q: u128 = m / (d as u128);
        proof {
            assert(q <= m) by {
                lemma_div_nonincreasing(m as int, d as int);
            }
        }
        (-(q as i128)) as i64
    }
}

/// The square root rounded down, as a specification value.
pub open spec fn sqrt_floor(n: int) -> int {
    choose|r: int| 0 <= r && #[trigger] (r * r) <= n < (r + 1) * (r + 1)
}

/// A square root rounded down exists for every nonnegative integer.
proof fn lemma_sqrt_exists(n: int)
    requires
        n >= 0,
    ensures
        exists|r: int| 0 <= r && #[trigger] (r * r) <= n < (r + 1) * (r + 1),
    decreases n,
{
    if n == 0 {
        assert(0 <= 0int && 0int * 0int <= n < (0int + 1) * (0int + 1)) by (nonlinear_arith)
            requires
                n == 0,
        ;
    } else {
        lemma_sqrt_exists(n - 1);
        let r = choose|r: int| 0 <= r && #[trigger] (r * r) <= n - 1 < (r + 1) * (r + 1);
        if (r + 1) * (r + 1) <= n {
            assert((r + 1) * (r + 1) == n) by (nonlinear_arith)
                requires
                    r * r <= n - 1 < (r + 1) * (r + 1),
                    (r + 1) * (r + 1) <= n,
            ;
            assert(0 <= r + 1 && (r + 1) * (r + 1) <= n < (r + 2) * (r + 2)) by (nonlinear_arith)
                requires
                    0 <= r,
                    (r + 1) * (r + 1) == n,
            ;
        } else {
            assert(0 <= r && r * r <= n < (r + 1) * (r + 1));
        }
    }
}

/// The characterization `r*r <= n < (r+1)*(r+1)` pins `sqrt_floor(n)`.
pub proof fn lemma_sqrt_floor(n: int)
    requires
        n >= 0,
    ensures
        0 <= sqrt_floor(n),
        sqrt_floor(n) * sqrt_floor(n) <= n,
        n < (sqrt_floor(n) + 1) * (sqrt_floor(n) + 1),
{
    lemma_sqrt_exists(n);
}

/// Any value with the floor-square-root characterization is `sqrt_floor`.
pub proof fn lemma_sqrt_unique(n: int, r: int)
    requires
        n >= 0,
        0 <= r,
        r * r <= n,
        n < (r + 1) * (r + 1),
    ensures
        r == sqrt_floor(n),
{
    lemma_sqrt_floor(n);
    let s = sqrt_floor(n);
    if r < s {
        assert(false) by (nonlinear_arith)
            requires
                0 <= r < s,
                s * s <= n,
                n < (r + 1) * (r + 1),
        ;
    }
    if s < r {
        assert(false) by (nonlinear_arith)
            requires
                0 <= s < r,
                r * r <= n,
                n < (s + 1) * (s + 1),
        ;
    }
}

/// Larger numbers have no smaller floor square root.
pub proof fn lemma_sqrt_floor_monotone(a: int, b: int)
    requires
        0 <= a <= b,
    ensures
        sqrt_floor(a) <= sqrt_floor(b),
{
    lemma_sqrt_floor(a);
    lemma_sqrt_floor(b);
    let sa = sqrt_floor(a);
    let sb = sqrt_floor(b);
    if sb < sa {
        assert(false) by (nonlinear_arith)
            requires
                0 <= sb < sa,
                sa * sa <= a,
                a <= b,
                b < (sb + 1) * (sb + 1),
        ;
    }
}

/// The square root rounded down, by binary search.
pub fn isqrt(n: u64) -> (r: u64)
    ensures
        r == sqrt_floor(n as int),
        r <= 0x1_0000_0000u64,
{
    let mut lo: u64 = 0;
    let mut hi: u64 = 0x1_0000_0001;
    proof {
        assert((hi as int) * (hi as int) > n as int) by (nonlinear_arith)
            requires
                hi == 0x1_0000_0001u64,
                n <= u64::MAX,
        ;
    }
    while lo + 1 < hi
        invariant
            lo < hi <= 0x1_0000_0001u64,
            (lo as int) * (lo as int) <= n as int,
            (hi as int) * (hi as int) > n as int,
        decreases hi - lo,
    {
        let mid: u64 = lo + (hi - lo) / 2;
        proof {
            assert((mid as int) * (mid as int) <= 0x1_0000_0002_0000_0001) by (nonlinear_arith)
                requires
                    0 <= mid <= 0x1_0000_0001u64,
            ;
        }
        let mm: u128 = (mid as u128) * (mid as u128);
        if mm <= n as u128 {
            lo = mid;
        } else {
            hi = mid;
        }
    }
    proof {
        lemma_sqrt_unique(n as int, lo as int);
    }
    lo
}

} // verus!
