//! binary64: the share of a total, and one decimal of it.

use vstd::prelude::*;

use crate::float;
use crate::float::Num;

verus! {

/// An integer as a binary64.
pub open spec fn double_of(n: int) -> float::Flo {
    float::nearest(float::binary64(), n, 1, 0)
}

pub open spec fn double_mul(u: float::Flo, v: float::Flo) -> float::Flo {
    float::nearest(float::binary64(), u.m * v.m, 1, u.e + v.e)
}

pub open spec fn double_div(u: float::Flo, v: float::Flo) -> float::Flo {
    float::nearest(float::binary64(), u.m, v.m, u.e - v.e)
}

/// Ten times `u`, rounded to an integer, a tie to the even one: `u` with one
/// decimal.
pub open spec fn tenths(u: float::Flo) -> int {
    float::half_even(u.m * 10 * float::up(u.e), float::up(-u.e))
}

/// What is not 0 does not become 0.
pub proof fn lemma_positive(n: int)
    requires
        n > 0,
    ensures
        double_of(n).m > 0,
{
    let f = float::binary64();
    float::lemma_up_values();
    float::lemma_up_unit(1);
    float::lemma_up_unit(n);
    let one = float::Flo { m: 0x10_0000_0000_0000, e: -52 };
    float::lemma_nearest_exact(f, one);
    assert(float::ratio_le(one.m, 1, one.e, n, 1, 0)) by (nonlinear_arith)
        requires
            one.m == 0x10_0000_0000_0000,
            one.e == -52,
            n >= 1,
            float::up(-52) == 1,
            float::up(52) == 0x10_0000_0000_0000,
    ;
    float::lemma_nearest_mono(f, one.m, 1, one.e, n, 1, 0);
    float::lemma_nearest_canonical(f, n, 1, 0);
    let r = double_of(n);
    float::lemma_up_pos(one.e - r.e);
    assert(one.m * float::up(one.e - r.e) > 0) by (nonlinear_arith)
        requires
            one.m > 0,
            float::up(one.e - r.e) > 0,
    ;
}

pub fn double(n: u64) -> (r: Num)
    ensures
        r@ == double_of(n as int),
        float::canonical(float::binary64(), r@),
        r.e <= 12,
        n > 0 ==> r.e >= -52 && r.m >= 0x10_0000_0000_0000,
        n == 0 ==> r.m == 0,
        r.m < 0x20_0000_0000_0000,
{
    proof {
        float::lemma_up_values();
        float::lemma_up_pos(64);
        if n > 0 {
            float::lemma_up_unit(n as int);
            float::lemma_up_unit(1);
            assert(float::below(n as int, 1, 64)) by {
                assert(n * float::up(-64) == n);
            }
            assert(!float::below(n as int, 1, 0));
            float::lemma_mag_bounds(n as int, 1, 64);
            float::lemma_mag_bounds(n as int, 1, 0);
        }
    }
    let r = float::round_to(53, -1074, n as u128, 1, 0);
    r
}

/// The product of two numbers.
pub fn product(u: Num, v: Num) -> (r: Num)
    requires
        u.m < 0x20_0000_0000_0000,
        v.m < 0x20_0000_0000_0000,
        -1074 <= u.e <= 1000,
        -1074 <= v.e <= 1000,
    ensures
        r@ == double_mul(u@, v@),
        float::canonical(float::binary64(), r@),
        r.e <= u.e + v.e + 55 || r.e <= -1073,
        r.m < 0x20_0000_0000_0000,
{
    proof {
        assert(u.m * v.m <= 0x20_0000_0000_0000 * 0x20_0000_0000_0000) by (nonlinear_arith)
            requires
                0 <= u.m < 0x20_0000_0000_0000,
                0 <= v.m < 0x20_0000_0000_0000,
        ;
    }
    let a = (u.m as u128) * (v.m as u128);
    proof {
        float::lemma_up_values();
        if a > 0 {
            float::lemma_up_pos(106);
            float::lemma_up_unit(a as int);
            assert(float::below(a as int, 1, 107)) by {
                float::lemma_up_step(106);
                assert(a * float::up(-107) == a);
            }
            float::lemma_mag_bounds(a as int, 1, 107);
        }
    }
    float::round_to(53, -1074, a, 1, u.e + v.e)
}

/// The quotient of two numbers.
pub fn quotient(u: Num, v: Num) -> (r: Num)
    requires
        float::canonical(float::binary64(), u@),
        float::canonical(float::binary64(), v@),
        u.e <= 1000,
        v.m >= 0x10_0000_0000_0000,
        v.e <= 1000,
    ensures
        r@ == double_div(u@, v@),
        float::canonical(float::binary64(), r@),
        r.e <= u.e - v.e - 51 || r.e <= -1073,
        r.m < 0x20_0000_0000_0000,
{
    proof {
        float::lemma_up_values();
        if u.m > 0 {
            assert(float::below(u.m as int, v.m as int, 1)) by {
                float::lemma_up_unit(u.m as int);
                float::lemma_up_unit(v.m as int);
            }
            float::lemma_mag_bounds(u.m as int, v.m as int, 1);
        }
    }
    float::round_to(53, -1074, u.m as u128, v.m, u.e - v.e)
}

/// Whether `u < v`.
pub fn under(u: Num, v: Num) -> (r: bool)
    requires
        float::canonical(float::binary64(), u@),
        float::canonical(float::binary64(), v@),
    ensures
        r == float::less(u@, v@),
{
    proof {
        float::lemma_less_canonical(float::binary64(), u@, v@);
    }
    u.e < v.e || (u.e == v.e && u.m < v.m)
}

/// One decimal of a number, as a count of tenths.
pub fn in_tenths(u: Num) -> (r: u128)
    requires
        u.m < 0x20_0000_0000_0000,
        -1500 <= u.e <= 71,
    ensures
        r == tenths(u@),
{
    let n = u.m as u128 * 10;
    proof {
        float::lemma_up_values();
        float::lemma_up_pos(u.e as int);
        float::lemma_up_pos(-u.e as int);
        float::lemma_up_unit(n as int);
    }
    if u.e >= 0 {
        let s = float::two_to(u.e as u32);
        proof {
            float::lemma_up_mono(u.e as int, 71);
            assert(n * s <= 0x140_0000_0000_0000 * 0x80_0000_0000_0000_0000) by (nonlinear_arith)
                requires
                    0 <= n <= 0x140_0000_0000_0000,
                    0 <= s <= 0x80_0000_0000_0000_0000,
            ;
        }
        float::divide_half_even(n * s, 1)
    } else if u.e < -120 {
        proof {
            float::lemma_up_mono(120, -u.e as int);
            float::lemma_half_even_is(n as int, float::up(-u.e as int), 0);
        }
        0
    } else {
        let s = float::two_to((-u.e) as u32);
        float::divide_half_even(n, s)
    }
}

} // verus!
