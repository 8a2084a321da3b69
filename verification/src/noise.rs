//! The noise-shaping primitive: maps a uniform sample from `[0, 1)` to a
//! signed, long-tailed perturbation. All matrix perturbation routes
//! through it.

use crate::fixed::{isqrt, sqrt_floor, FX_HALF, FX_ONE};
use crate::fixed::{lemma_sqrt_floor, lemma_sqrt_floor_monotone, lemma_sqrt_unique};
use vstd::arithmetic::div_mod::{
    lemma_div_basics_3, lemma_div_basics_4, lemma_div_is_ordered,
    lemma_div_is_ordered_by_denominator, lemma_div_nonincreasing, lemma_div_of0,
    lemma_hoist_over_denominator,
};
use vstd::prelude::*;

verus! {

/// The value of [`infinite_map`]: for `u` in `(0, 1)` exclusive (fixed
/// point, so `0 < u < FX_ONE`), with `c = u - 1/2`, this is
/// `0.5 * c / sqrt(0.25 - c*c)` carried out in fixed point, rounded
/// toward zero; outside that domain it is `0`. The rounding is applied
/// to the magnitude, so the map is exactly antisymmetric around `1/2`.
pub open spec fn spec_infinite_map(u: int) -> int {
    if u <= 0 || u >= FX_ONE {
        0
    } else {
        let a = u - FX_HALF;
        let m = if a < 0 {
            -a
        } else {
            a
        };
        let d = 0x4000_0000_0000_0000 - a * a;
        let q = (m * FX_HALF) / sqrt_floor(d);
        if a < 0 {
            -q
        } else {
            q
        }
    }
}

/// Maps a uniform fixed-point sample in `[0, 1)` to a signed
/// perturbation: zero at one half, mostly small, unbounded at the domain
/// edges. Inputs at or beyond the edges give zero.
pub fn infinite_map(u: i64) -> (r: i64)
    ensures
        r == spec_infinite_map(u as int),
{
    if u <= 0 || u >= FX_ONE {
        return 0;
    }
    let a: i64 = u - FX_HALF;
    let m: u64 = if a < 0 {
        (-a) as u64
    } else {
        a as u64
    };
    proof {
        assert(m <= 0x7fff_ffffu64);
        assert((m as int) * (m as int) == (a as int) * (a as int)
            && (m as int) * (m as int) <= 0x3fff_ffff_0000_0001) by (nonlinear_arith)
            requires
                m == if a < 0 {
                    -(a as int)
                } else {
                    a as int
                },
                -0x7fff_ffff <= a as int <= 0x7fff_ffff,
        ;
    }
    let d: u64 = 0x4000_0000_0000_0000u64 - m * m;
    let s: u64 = isqrt(d);
    proof {
        lemma_sqrt_floor(d as int);
        if s == 0 {
            assert(false);
        }
        assert((m as int) * (FX_HALF as int) <= 0x3fff_ffff_8000_0000) by (nonlinear_arith)
            requires
                0 <= m <= 0x7fff_ffffu64,
        ;
    }
    let q: u64 = (m * 0x8000_0000u64) / s;
    proof {
        lemma_div_nonincreasing((m * 0x8000_0000u64) as int, s as int);
    }
    if a < 0 {
        -(q as i64)
    } else {
        q as i64
    }
}

/// The map vanishes at both domain edges and at the center: `f(0) == 0`,
/// `f(1) == 0`, and `f(1/2) == 0`.
pub proof fn lemma_infinite_map_edges()
    ensures
        spec_infinite_map(0) == 0,
        spec_infinite_map(FX_ONE as int) == 0,
        spec_infinite_map(FX_HALF as int) == 0,
{
    let d = 0x4000_0000_0000_0000int;
    assert(0x8000_0000int * 0x8000_0000int <= 0x4000_0000_0000_0000int
        < (0x8000_0000int + 1) * (0x8000_0000int + 1)) by (nonlinear_arith);
    lemma_sqrt_unique(d, 0x8000_0000int);
    lemma_div_of0(sqrt_floor(d));
    assert(spec_infinite_map(FX_HALF as int) == (0 * FX_HALF) / sqrt_floor(d));
}

/// Antisymmetry: `f(1 - u) == -f(u)` exactly, for `u` inside the domain.
pub proof fn lemma_infinite_map_antisymmetric(u: int)
    requires
        0 < u < FX_ONE,
    ensures
        spec_infinite_map(FX_ONE - u) == -spec_infinite_map(u),
{
    let v = FX_ONE - u;
    let a = u - FX_HALF;
    let b = v - FX_HALF;
    assert(b == -a);
    assert(b * b == a * a) by (nonlinear_arith)
        requires
            b == -a,
    ;
    let m = if a < 0 {
        -a
    } else {
        a
    };
    let mb = if b < 0 {
        -b
    } else {
        b
    };
    assert(mb == m);
    let d = 0x4000_0000_0000_0000 - a * a;
    assert(0x4000_0000_0000_0000 - b * b == d);
    let q = (m * FX_HALF) / sqrt_floor(d);
    if a < 0 {
        assert(spec_infinite_map(u) == -q);
        assert(spec_infinite_map(v) == q);
    } else if a > 0 {
        assert(spec_infinite_map(u) == q);
        assert(spec_infinite_map(v) == -q);
    } else {
        lemma_infinite_map_edges();
        assert(u == FX_HALF && v == FX_HALF);
    }
}

/// The floor square root of anything at most `2^62` is at most `2^31`.
proof fn lemma_sqrt_small(d: int)
    requires
        0 <= d <= 0x4000_0000_0000_0000,
    ensures
        sqrt_floor(d) <= 0x8000_0000,
{
    lemma_sqrt_floor(d);
    let s = sqrt_floor(d);
    if s > 0x8000_0000 {
        assert(false) by (nonlinear_arith)
            requires
                s > 0x8000_0000,
                s * s <= d,
                d <= 0x4000_0000_0000_0000,
        ;
    }
}

/// For a positive magnitude the quotient is at least one: the numerator
/// `m * 2^31` is no smaller than the denominator.
proof fn lemma_q_positive(m: int, s: int)
    requires
        1 <= m,
        1 <= s <= 0x8000_0000,
    ensures
        (m * FX_HALF) / s >= 1,
{
    assert(m * FX_HALF >= s) by (nonlinear_arith)
        requires
            1 <= m,
            s <= 0x8000_0000,
            FX_HALF == 0x8000_0000i64,
    ;
    lemma_div_is_ordered(s, m * FX_HALF, s);
    lemma_div_basics_3(s);
}

/// The strict core of monotonicity: a strictly larger magnitude over a no
/// larger square-root denominator yields a strictly larger quotient.
proof fn lemma_q_strict(ma: int, sa: int, mb: int, sb: int)
    requires
        0 <= ma < mb,
        1 <= sb <= sa <= 0x8000_0000,
    ensures
        (ma * FX_HALF) / sa < (mb * FX_HALF) / sb,
{
    let h = FX_HALF as int;
    lemma_div_is_ordered_by_denominator(mb * h, sb, sa);
    assert(mb * h >= ma * h + h) by (nonlinear_arith)
        requires
            ma < mb,
            h == 0x8000_0000,
    ;
    lemma_hoist_over_denominator(ma * h, 1, sa as nat);
    assert((ma * h) / sa + 1 == (ma * h + sa) / sa);
    assert(ma * h + sa <= mb * h) by {
        assert(sa <= h);
    }
    lemma_div_is_ordered(ma * h + sa, mb * h, sa);
    assert((ma * h) / sa + 1 <= (mb * h) / sa);
    assert((mb * h) / sa <= (mb * h) / sb);
}

/// Strict monotonicity: the map strictly increases across `(0, 1)`.
pub proof fn lemma_infinite_map_increasing(u1: int, u2: int)
    requires
        0 < u1 < u2 < FX_ONE,
    ensures
        spec_infinite_map(u1) < spec_infinite_map(u2),
{
    let a1 = u1 - FX_HALF;
    let a2 = u2 - FX_HALF;
    let m1 = if a1 < 0 {
        -a1
    } else {
        a1
    };
    let m2 = if a2 < 0 {
        -a2
    } else {
        a2
    };
    let d1 = 0x4000_0000_0000_0000 - a1 * a1;
    let d2 = 0x4000_0000_0000_0000 - a2 * a2;
    assert(d1 == 0x4000_0000_0000_0000 - m1 * m1 && d2 == 0x4000_0000_0000_0000 - m2 * m2
        && m1 * m1 <= 0x3fff_ffff_0000_0001 && m2 * m2 <= 0x3fff_ffff_0000_0001)
        by (nonlinear_arith)
        requires
            m1 == if a1 < 0 {
                -a1
            } else {
                a1
            },
            m2 == if a2 < 0 {
                -a2
            } else {
                a2
            },
            d1 == 0x4000_0000_0000_0000 - a1 * a1,
            d2 == 0x4000_0000_0000_0000 - a2 * a2,
            -0x7fff_ffff <= a1 <= 0x7fff_ffff,
            -0x7fff_ffff <= a2 <= 0x7fff_ffff,
    ;
    let s1 = sqrt_floor(d1);
    let s2 = sqrt_floor(d2);
    lemma_sqrt_floor(d1);
    lemma_sqrt_floor(d2);
    lemma_sqrt_small(d1);
    lemma_sqrt_small(d2);
    if s1 == 0 {
        assert(false);
    }
    if s2 == 0 {
        assert(false);
    }
    let q1 = (m1 * FX_HALF) / s1;
    let q2 = (m2 * FX_HALF) / s2;
    if 0 <= a1 {
        // both on the increasing side: m1 < m2 and d2 < d1
        assert(m1 * m1 < m2 * m2) by (nonlinear_arith)
            requires
                0 <= m1 < m2,
        ;
        lemma_sqrt_floor_monotone(d2, d1);
        lemma_q_strict(m1, s1, m2, s2);
    } else if a2 <= 0 {
        // both on the decreasing side: m2 < m1 and d1 < d2
        assert(m2 * m2 < m1 * m1) by (nonlinear_arith)
            requires
                0 <= m2 < m1,
        ;
        lemma_sqrt_floor_monotone(d1, d2);
        lemma_q_strict(m2, s2, m1, s1);
        assert(spec_infinite_map(u1) == -q1 && spec_infinite_map(u2) == -q2);
    } else {
        // the two samples straddle the center
        lemma_div_basics_4(m1 * FX_HALF, s1);
        lemma_div_basics_4(m2 * FX_HALF, s2);
        assert(m1 * FX_HALF >= 0 && m2 * FX_HALF >= 0) by (nonlinear_arith)
            requires
                m1 >= 0,
                m2 >= 0,
                FX_HALF == 0x8000_0000i64,
        ;
        if a1 < 0 {
            lemma_q_positive(m1, s1);
            assert(spec_infinite_map(u1) == -q1);
            assert(-q1 <= -1);
        }
        if a2 > 0 {
            lemma_q_positive(m2, s2);
        }
    }
}

} // verus!
