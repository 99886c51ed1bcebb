//! What rounded arithmetic gives.

use vstd::arithmetic::div_mod::lemma_fundamental_div_mod;
use vstd::prelude::*;

use crate::double;
use crate::float;
use crate::float::Flo;
use crate::float::Format;
use crate::single;
use crate::single::Sgl;

verus! {

/// A quotient rounded to a whole number is off by a half at most, and even where
/// it is off by a half.
pub proof fn law_half_even(n: int, d: int)
    requires
        d > 0,
    ensures
        ({
            let q = float::half_even(n, d);
            &&& 2 * n - d <= 2 * (d * q) <= 2 * n + d
            &&& 2 * (d * q) == 2 * n - d || 2 * (d * q) == 2 * n + d ==> q % 2 == 0
        }),
{
    let q = n / d;
    let r = n % d;
    lemma_fundamental_div_mod(n, d);
    assert(0 <= r < d) by {
        vstd::arithmetic::div_mod::lemma_mod_bound(n, d);
    }
    assert(d * (q + 1) == d * q + d) by (nonlinear_arith);
}

/// Rounding gives a number of the format, off by a half of its last place at
/// most, and an even one where it is off by a half.
pub proof fn law_rounded(f: Format, a: int, b: int, x: int)
    requires
        a > 0,
        b > 0,
        f.p >= 2,
    ensures
        ({
            let r = float::nearest(f, a, b, x);
            let n = a * float::up(x - r.e);
            let d = b * float::up(r.e - x);
            &&& 0 <= r.m < float::up(f.p as int)
            &&& r.e >= f.emin
            &&& r.m >= float::up(f.p - 1) || r.e == f.emin
            &&& 2 * n - d <= 2 * (d * r.m) <= 2 * n + d
            &&& 2 * (d * r.m) == 2 * n - d || 2 * (d * r.m) == 2 * n + d ==> r.m % 2 == 0
        }),
{
    let e = float::quantum(f, a, b, x);
    let r = float::nearest(f, a, b, x);
    let n = a * float::up(x - e);
    let d = b * float::up(e - x);
    let m = float::half_even(n, d);
    float::lemma_nearest_canonical(f, a, b, x);
    float::lemma_up_pos(x - e);
    float::lemma_up_pos(e - x);
    assert(d > 0) by (nonlinear_arith)
        requires
            d == b * float::up(e - x),
            b > 0,
            float::up(e - x) >= 1,
    ;
    law_half_even(n, d);
    if m == float::up(f.p as int) {
        float::lemma_up_step(f.p - 1);
        float::lemma_up_step(f.p - 2);
        let n1 = a * float::up(x - r.e);
        let d1 = b * float::up(r.e - x);
        float::lemma_up_pos(0);
        if x - e >= 1 {
            float::lemma_up_step(x - e - 1);
            assert(n == 2 * n1) by (nonlinear_arith)
                requires
                    n == a * (2 * float::up(x - e - 1)),
                    n1 == a * float::up(x - e - 1),
            ;
            assert(d1 == d);
            assert(d * m == 2 * (d * r.m)) by (nonlinear_arith)
                requires
                    m == 2 * r.m,
            ;
        } else {
            float::lemma_up_step(e - x);
            assert(n1 == n);
            assert(d1 == 2 * d) by (nonlinear_arith)
                requires
                    d1 == b * (2 * float::up(e - x)),
                    d == b * float::up(e - x),
            ;
            assert(d * m == d1 * r.m) by (nonlinear_arith)
                requires
                    m == 2 * r.m,
                    d1 == 2 * d,
            ;
        }
    }
}

/// Nothing is rounded to nothing.
pub proof fn law_rounded_zero(f: Format, b: int, x: int)
    ensures
        float::nearest(f, 0, b, x) == (Flo { m: 0, e: f.emin }),
{
}

/// A sum is the exact one, rounded; so is a difference and a product.
pub proof fn law_exact_then_rounded(u: Sgl, v: Sgl)
    requires
        single::wf(u),
        single::wf(v),
        u is Num,
        v is Num,
    ensures
        single::sum(u, v) == single::round(single::units(u) + single::units(v), 1, -149),
        single::units(v) <= single::units(u) ==> single::difference(u, v) == single::round(
            single::units(u) - single::units(v),
            1,
            -149,
        ),
        single::product(u, v) == single::round(single::units(u) * single::units(v), 1, -298),
{
    let f = float::binary32();
    let (a, b) = (u->Num_0, v->Num_0);
    let x = single::least(a.e, b.e);
    let c = float::up(x + 149);
    float::lemma_up_pos(x + 149);
    float::lemma_up_pos(a.e - x);
    float::lemma_up_pos(b.e - x);
    float::lemma_up_add(a.e - x, x + 149);
    float::lemma_up_add(b.e - x, x + 149);
    let (s, t) = (float::up(a.e - x), float::up(b.e - x));
    let (p, q) = (a.m * s, b.m * t);
    assert(single::units(u) == p * c) by (nonlinear_arith)
        requires
            single::units(u) == a.m * (s * c),
            p == a.m * s,
    ;
    assert(single::units(v) == q * c) by (nonlinear_arith)
        requires
            single::units(v) == b.m * (t * c),
            q == b.m * t,
    ;
    assert(p >= 0 && q >= 0) by (nonlinear_arith)
        requires
            p == a.m * s,
            q == b.m * t,
            a.m >= 0,
            b.m >= 0,
            s >= 1,
            t >= 1,
    ;
    float::lemma_nearest_shift(f, p + q, 1, x, x + 149);
    assert((p + q) * c == p * c + q * c) by (nonlinear_arith);
    if single::units(v) <= single::units(u) {
        assert(p - q >= 0) by (nonlinear_arith)
            requires
                q * c <= p * c,
                c >= 1,
        ;
        float::lemma_nearest_shift(f, p - q, 1, x, x + 149);
        assert((p - q) * c == p * c - q * c) by (nonlinear_arith);
    }
    let n = a.m * b.m;
    assert(n >= 0) by (nonlinear_arith)
        requires
            n == a.m * b.m,
            a.m >= 0,
            b.m >= 0,
    ;
    float::lemma_up_add(a.e + 149, b.e + 149);
    let (y, z) = (float::up(a.e + 149), float::up(b.e + 149));
    assert((a.m * y) * (b.m * z) == n * (y * z)) by (nonlinear_arith)
        requires
            n == a.m * b.m,
    ;
    float::lemma_nearest_shift(f, n, 1, a.e + b.e, a.e + b.e + 298);
}

/// A quotient is the exact one, rounded.
pub proof fn law_quotient_rounded(u: Flo, v: Flo)
    requires
        v.m != 0,
    ensures
        single::quotient(Sgl::Num(u), Sgl::Num(v)) == single::round(u.m, v.m, u.e - v.e),
        double::double_div(u, v) == float::nearest(float::binary64(), u.m, v.m, u.e - v.e),
        double::double_mul(u, v) == float::nearest(float::binary64(), u.m * v.m, 1, u.e + v.e),
{
}

/// From `2^128` on a binary32 is infinite.
pub proof fn law_infinite(a: int, b: int, x: int)
    ensures
        ({
            let r = float::nearest(Format { p: 24, emin: -149 }, a, b, x);
            single::round(a, b, x) == if r.e > 104 {
                Sgl::Inf
            } else {
                Sgl::Num(r)
            }
        }),
{
}

/// Whole numbers, and binary64 numbers, are rounded to the nearest of the
/// format.
pub proof fn law_converted(n: int, u: Flo)
    ensures
        single::single_of(n) == single::round(n, 1, 0),
        single::narrowed(u) == single::round(u.m, 1, u.e),
        double::double_of(n) == float::nearest(Format { p: 53, emin: -1074 }, n, 1, 0),
{
}

/// Numbers compare as the exact values do.
pub proof fn law_compared(u: Sgl, v: Sgl)
    requires
        single::wf(u),
        single::wf(v),
        u is Num,
        v is Num,
    ensures
        single::less(u, v) <==> single::units(u) < single::units(v),
        single::at_most(u, v) <==> single::units(u) <= single::units(v),
        single::units(u) == u->Num_0.m * float::up(u->Num_0.e + 149),
{
    if single::units(u) < single::units(v) {
        single::lemma_less_units(u, v);
    } else {
        single::lemma_at_most_units(v, u);
    }
    if single::units(u) <= single::units(v) {
        single::lemma_at_most_units(u, v);
    } else {
        single::lemma_less_units(v, u);
    }
}

/// The greater and the lesser of two; of a number and what is none the number.
pub proof fn law_greater_lesser(u: Sgl, v: Sgl)
    ensures
        single::less(u, v) ==> single::greater(u, v) == v && single::lesser(u, v) == u,
        single::less(v, u) ==> single::greater(u, v) == u && single::lesser(u, v) == v,
        u is Nan ==> single::greater(u, v) == v && single::lesser(u, v) == v,
        v is Nan ==> single::greater(u, v) == u && single::lesser(u, v) == u,
        single::greater(u, u) == u && single::lesser(u, u) == u,
{
    if single::less(u, v) && single::less(v, u) {
        lemma_not_both(u->Num_0, v->Num_0);
    }
}

proof fn lemma_not_both(a: Flo, b: Flo)
    ensures
        !(float::less(a, b) && float::less(b, a)),
{
}

/// The bits of a number: 8 for the exponent, and 23 below its first digit.
pub proof fn law_bits(e: int, m: int)
    requires
        0 <= e <= 255,
        0 <= m < 0x80_0000,
    ensures
        ({
            let s = single::of_bits(e * 0x80_0000 + m);
            &&& e == 255 && m == 0 ==> s is Inf
            &&& e == 255 && m > 0 ==> s is Nan
            &&& e == 0 ==> s == Sgl::Num(Flo { m, e: -149 })
            &&& 0 < e < 255 ==> s == Sgl::Num(Flo { m: 0x80_0000 + m, e: e - 150 })
        }),
{
}

/// What is infinite, or no number, computes as such.
pub proof fn law_not_finite(u: Sgl, a: Flo)
    ensures
        single::sum(Sgl::Nan, u) is Nan && single::sum(u, Sgl::Nan) is Nan,
        single::product(Sgl::Nan, u) is Nan && single::product(u, Sgl::Nan) is Nan,
        single::quotient(Sgl::Nan, u) is Nan && single::quotient(u, Sgl::Nan) is Nan,
        single::difference(Sgl::Nan, u) is Nan && single::difference(u, Sgl::Nan) is Nan,
        u !is Nan ==> single::sum(Sgl::Inf, u) is Inf && single::sum(u, Sgl::Inf) is Inf,
        a.m != 0 ==> single::product(Sgl::Inf, Sgl::Num(a)) is Inf,
        a.m == 0 ==> single::product(Sgl::Inf, Sgl::Num(a)) is Nan,
        single::product(Sgl::Inf, Sgl::Inf) is Inf,
        single::quotient(Sgl::Inf, Sgl::Num(a)) is Inf,
        single::quotient(Sgl::Inf, Sgl::Inf) is Nan,
        single::quotient(Sgl::Num(a), Sgl::Inf) == Sgl::Num(Flo { m: 0, e: -149 }),
        a.m != 0 ==> single::quotient(Sgl::Num(a), Sgl::Num(Flo { m: 0, e: -149 })) is Inf,
        a.m == 0 ==> single::quotient(Sgl::Num(a), Sgl::Num(Flo { m: 0, e: -149 })) is Nan,
        single::difference(Sgl::Inf, Sgl::Num(a)) is Inf,
        !single::less(Sgl::Nan, u) && !single::less(u, Sgl::Nan),
        !single::less(Sgl::Inf, u),
        single::less(Sgl::Num(a), Sgl::Inf),
        !single::at_most(Sgl::Nan, u) && !single::at_most(u, Sgl::Nan),
        u !is Nan ==> single::at_most(u, Sgl::Inf),
{
}

} // verus!
