//! binary32, without the sign: the angles of the chart.

use vstd::arithmetic::mul::*;
use vstd::prelude::*;

use crate::float;
use crate::float::Num;

verus! {

/// A binary32 that is not negative.
#[derive(Clone, Copy)]
pub enum Single {
    Nan,
    Inf,
    Num(Num),
}

/// What a `Single` stands for.
pub ghost enum Sgl {
    Nan,
    Inf,
    Num(float::Flo),
}

impl View for Single {
    type V = Sgl;

    open spec fn view(&self) -> Sgl {
        match *self {
            Single::Nan => Sgl::Nan,
            Single::Inf => Sgl::Inf,
            Single::Num(n) => Sgl::Num(n@),
        }
    }
}

/// The finite values are those of the format, below `2^128`.
pub open spec fn wf(s: Sgl) -> bool {
    s matches Sgl::Num(u) ==> float::canonical(float::binary32(), u) && u.e <= 104
}

/// `(a / b) * 2^x` as a binary32: infinite from `2^128` on.
pub open spec fn round(a: int, b: int, x: int) -> Sgl {
    let r = float::nearest(float::binary32(), a, b, x);
    if r.e > 104 {
        Sgl::Inf
    } else {
        Sgl::Num(r)
    }
}

pub open spec fn single_of(n: int) -> Sgl {
    round(n, 1, 0)
}

/// A finite binary64 as a binary32.
pub open spec fn narrowed(u: float::Flo) -> Sgl {
    round(u.m, 1, u.e)
}

pub open spec fn is_zero(u: Sgl) -> bool {
    u matches Sgl::Num(n) && n.m == 0
}

pub open spec fn product(u: Sgl, v: Sgl) -> Sgl {
    match (u, v) {
        (Sgl::Num(a), Sgl::Num(b)) => round(a.m * b.m, 1, a.e + b.e),
        _ => if u is Nan || v is Nan || is_zero(u) || is_zero(v) {
            Sgl::Nan
        } else {
            Sgl::Inf
        },
    }
}

pub open spec fn quotient(u: Sgl, v: Sgl) -> Sgl {
    match (u, v) {
        (Sgl::Num(a), Sgl::Num(b)) => if b.m != 0 {
            round(a.m, b.m, a.e - b.e)
        } else if a.m != 0 {
            Sgl::Inf
        } else {
            Sgl::Nan
        },
        (Sgl::Inf, Sgl::Num(_)) => Sgl::Inf,
        (Sgl::Num(_), Sgl::Inf) => round(0, 1, 0),
        _ => Sgl::Nan,
    }
}

pub open spec fn least(i: int, j: int) -> int {
    if i < j {
        i
    } else {
        j
    }
}

pub open spec fn sum(u: Sgl, v: Sgl) -> Sgl {
    match (u, v) {
        (Sgl::Num(a), Sgl::Num(b)) => {
            let x = least(a.e, b.e);
            round(a.m * float::up(a.e - x) + b.m * float::up(b.e - x), 1, x)
        },
        _ => if u is Nan || v is Nan {
            Sgl::Nan
        } else {
            Sgl::Inf
        },
    }
}

/// `u - v`, for `v` not above `u`.
pub open spec fn difference(u: Sgl, v: Sgl) -> Sgl {
    match (u, v) {
        (Sgl::Num(a), Sgl::Num(b)) => {
            let x = least(a.e, b.e);
            round(a.m * float::up(a.e - x) - b.m * float::up(b.e - x), 1, x)
        },
        (Sgl::Inf, Sgl::Num(_)) => Sgl::Inf,
        _ => Sgl::Nan,
    }
}

/// `u < v`; never so where one of them is not a number.
pub open spec fn less(u: Sgl, v: Sgl) -> bool {
    match (u, v) {
        (Sgl::Num(a), Sgl::Num(b)) => float::less(a, b),
        (Sgl::Num(_), Sgl::Inf) => true,
        _ => false,
    }
}

/// The greater one; of a NaN and a number the number.
pub open spec fn greater(u: Sgl, v: Sgl) -> Sgl {
    if u is Nan || less(u, v) {
        v
    } else {
        u
    }
}

/// The lesser one; of a NaN and a number the number.
pub open spec fn lesser(u: Sgl, v: Sgl) -> Sgl {
    if u is Nan || less(v, u) {
        v
    } else {
        u
    }
}

// ------------------------------------------------------------ lemmas

pub proof fn lemma_round_wf(a: int, b: int, x: int)
    requires
        a >= 0,
        b > 0,
    ensures
        wf(round(a, b, x)),
{
    float::lemma_nearest_canonical(float::binary32(), a, b, x);
}

pub proof fn lemma_product_wf(u: Sgl, v: Sgl)
    requires
        wf(u),
        wf(v),
    ensures
        wf(product(u, v)),
{
    match (u, v) {
        (Sgl::Num(a), Sgl::Num(b)) => {
            lemma_mul_nonnegative(a.m, b.m);
            lemma_round_wf(a.m * b.m, 1, a.e + b.e);
        },
        _ => {},
    }
}

pub proof fn lemma_difference_wf(u: Sgl, v: Sgl)
    requires
        wf(u),
        wf(v),
        !less(u, v),
    ensures
        wf(difference(u, v)),
{
    match (u, v) {
        (Sgl::Num(a), Sgl::Num(b)) => {
            let x = least(a.e, b.e);
            float::lemma_up_values();
            float::lemma_up_unit(a.m);
            float::lemma_up_unit(b.m);
            assert(a.m * float::up(a.e - x) >= b.m * float::up(b.e - x)) by {
                if a.e < b.e {
                    assert(float::up(a.e - b.e) == 1);
                } else {
                    assert(float::up(b.e - a.e) == 1);
                }
            }
            lemma_round_wf(a.m * float::up(a.e - x) - b.m * float::up(b.e - x), 1, x);
        },
        _ => {},
    }
}

/// Neither is a NaN, and `u <= v`.
pub open spec fn at_most(u: Sgl, v: Sgl) -> bool {
    u !is Nan && v !is Nan && !less(v, u)
}

pub proof fn lemma_at_most_trans(u: Sgl, v: Sgl, w: Sgl)
    requires
        wf(u),
        wf(v),
        wf(w),
        at_most(u, v),
        at_most(v, w),
    ensures
        at_most(u, w),
{
    match (u, v, w) {
        (Sgl::Num(a), Sgl::Num(b), Sgl::Num(c)) => {
            let f = float::binary32();
            float::lemma_less_canonical(f, b, a);
            float::lemma_less_canonical(f, c, b);
            float::lemma_less_canonical(f, c, a);
        },
        _ => {},
    }
}

pub proof fn lemma_less_asym(u: Sgl, v: Sgl)
    requires
        wf(u),
        wf(v),
        less(u, v),
    ensures
        !less(v, u),
{
    match (u, v) {
        (Sgl::Num(a), Sgl::Num(b)) => {
            float::lemma_less_canonical(float::binary32(), a, b);
            float::lemma_less_canonical(float::binary32(), b, a);
        },
        _ => {},
    }
}

/// What is below a number is below all that it is at most.
pub proof fn lemma_less_trans(u: Sgl, v: Sgl, w: Sgl)
    requires
        wf(u),
        wf(v),
        wf(w),
        at_most(u, v),
        less(v, w),
    ensures
        less(u, w),
{
    match (u, v, w) {
        (Sgl::Num(a), Sgl::Num(b), Sgl::Num(c)) => {
            let f = float::binary32();
            float::lemma_less_canonical(f, b, a);
            float::lemma_less_canonical(f, b, c);
            float::lemma_less_canonical(f, a, c);
        },
        _ => {},
    }
}

/// Rounding keeps order.
pub proof fn lemma_round_mono(a1: int, b1: int, x1: int, a2: int, b2: int, x2: int)
    requires
        a1 >= 0,
        b1 > 0,
        a2 >= 0,
        b2 > 0,
        float::ratio_le(a1, b1, x1, a2, b2, x2),
    ensures
        at_most(round(a1, b1, x1), round(a2, b2, x2)),
{
    let f = float::binary32();
    float::lemma_nearest_mono(f, a1, b1, x1, a2, b2, x2);
    float::lemma_nearest_canonical(f, a1, b1, x1);
    float::lemma_nearest_canonical(f, a2, b2, x2);
    float::lemma_less_canonical(f, float::nearest(f, a2, b2, x2), float::nearest(f, a1, b1, x1));
}

/// A number of the format needs no rounding.
pub proof fn lemma_round_exact(u: float::Flo)
    requires
        wf(Sgl::Num(u)),
    ensures
        round(u.m, 1, u.e) == Sgl::Num(u),
{
    float::lemma_nearest_exact(float::binary32(), u);
}

/// A sum is not below its terms.
pub proof fn lemma_sum_above(u: Sgl, v: Sgl)
    requires
        wf(u),
        wf(v),
    ensures
        !less(sum(u, v), u),
        u !is Nan && v !is Nan ==> at_most(u, sum(u, v)),
{
    match (u, v) {
        (Sgl::Num(a), Sgl::Num(b)) => {
            let x = least(a.e, b.e);
            let n = a.m * float::up(a.e - x) + b.m * float::up(b.e - x);
            float::lemma_up_pos(a.e - x);
            float::lemma_up_pos(b.e - x);
            lemma_mul_nonnegative(a.m, float::up(a.e - x));
            lemma_mul_nonnegative(b.m, float::up(b.e - x));
            float::lemma_up_values();
            float::lemma_up_unit(n);
            assert(float::up(x - a.e) == 1);
            lemma_round_exact(a);
            lemma_round_mono(a.m, 1, a.e, n, 1, x);
        },
        _ => {},
    }
}

/// `n1 * 2^x1 <= n2 * 2^x2`, seen from below both.
proof fn lemma_ratio_at(n1: int, x1: int, n2: int, x2: int, x: int)
    requires
        x <= x1,
        x <= x2,
        n1 * float::up(x1 - x) <= n2 * float::up(x2 - x),
    ensures
        float::ratio_le(n1, 1, x1, n2, 1, x2),
{
    float::lemma_up_values();
    float::lemma_up_unit(n1);
    float::lemma_up_unit(n2);
    if x1 >= x2 {
        float::lemma_up_add(x1 - x2, x2 - x);
        float::lemma_up_pos(x2 - x);
        assert(float::up(x2 - x1) == 1);
        assert(n1 * float::up(x1 - x2) <= n2) by (nonlinear_arith)
            requires
                n1 * float::up(x1 - x) <= n2 * float::up(x2 - x),
                float::up(x1 - x) == float::up(x1 - x2) * float::up(x2 - x),
                float::up(x2 - x) > 0,
        ;
    } else {
        float::lemma_up_add(x2 - x1, x1 - x);
        float::lemma_up_pos(x1 - x);
        assert(float::up(x1 - x2) == 1);
        assert(n1 <= n2 * float::up(x2 - x1)) by (nonlinear_arith)
            requires
                n1 * float::up(x1 - x) <= n2 * float::up(x2 - x),
                float::up(x2 - x) == float::up(x2 - x1) * float::up(x1 - x),
                float::up(x1 - x) > 0,
        ;
    }
}

/// `(a * 2^j + b * 2^k) * 2^d`, term by term.
proof fn lemma_scaled_sum(a: int, j: int, b: int, k: int, d: int)
    requires
        j >= 0,
        k >= 0,
        d >= 0,
    ensures
        (a * float::up(j) + b * float::up(k)) * float::up(d) == a * float::up(j + d) + b
            * float::up(k + d),
{
    float::lemma_up_add(j, d);
    float::lemma_up_add(k, d);
    assert((a * float::up(j) + b * float::up(k)) * float::up(d) == a * (float::up(j) * float::up(
        d,
    )) + b * (float::up(k) * float::up(d))) by (nonlinear_arith);
}

pub proof fn lemma_sum_wf(u: Sgl, v: Sgl)
    requires
        wf(u),
        wf(v),
    ensures
        wf(sum(u, v)),
{
    match (u, v) {
        (Sgl::Num(a), Sgl::Num(b)) => {
            let x = least(a.e, b.e);
            float::lemma_up_pos(a.e - x);
            float::lemma_up_pos(b.e - x);
            lemma_mul_nonnegative(a.m, float::up(a.e - x));
            lemma_mul_nonnegative(b.m, float::up(b.e - x));
            lemma_round_wf(a.m * float::up(a.e - x) + b.m * float::up(b.e - x), 1, x);
        },
        _ => {},
    }
}

/// A sum is less than four times what bounds its terms.
pub proof fn lemma_sum_finite(a: float::Flo, b: float::Flo, e: int)
    requires
        wf(Sgl::Num(a)),
        wf(Sgl::Num(b)),
        a.e <= e,
        b.e <= e,
        e <= 102,
    ensures
        sum(Sgl::Num(a), Sgl::Num(b)) matches Sgl::Num(r) && r.e <= e + 2,
{
    let x = least(a.e, b.e);
    let n = a.m * float::up(a.e - x) + b.m * float::up(b.e - x);
    float::lemma_up_values();
    float::lemma_up_pos(a.e - x);
    float::lemma_up_pos(b.e - x);
    float::lemma_up_mono(a.e - x, e - x);
    float::lemma_up_mono(b.e - x, e - x);
    float::lemma_up_step(e - x);
    float::lemma_up_step(e + 1 - x);
    let s = float::up(e - x);
    assert(0 <= n <= 0x80_0000 * (2 * (2 * s))) by (nonlinear_arith)
        requires
            n == a.m * float::up(a.e - x) + b.m * float::up(b.e - x),
            0 <= a.m < 0x100_0000,
            0 <= b.m < 0x100_0000,
            1 <= float::up(a.e - x) <= s,
            1 <= float::up(b.e - x) <= s,
    ;
    float::lemma_up_unit(n);
    let top = float::Flo { m: 0x80_0000, e: e + 2 };
    lemma_ratio_at(n, x, top.m, top.e, x);
    lemma_round_exact(top);
    lemma_round_mono(n, 1, x, top.m, 1, top.e);
    lemma_round_wf(n, 1, x);
    let r = round(n, 1, x);
    assert(r is Num);
    float::lemma_less_canonical(float::binary32(), top, r->Num_0);
}

pub proof fn lemma_quotient_wf(u: Sgl, v: Sgl)
    requires
        wf(u),
        wf(v),
    ensures
        wf(quotient(u, v)),
{
    lemma_round_wf(0, 1, 0);
    match (u, v) {
        (Sgl::Num(a), Sgl::Num(b)) => {
            if b.m != 0 {
                lemma_round_wf(a.m, b.m, a.e - b.e);
            }
        },
        _ => {},
    }
}

/// A greater term gives no smaller sum.
pub proof fn lemma_sum_mono(u: Sgl, v: Sgl, w: Sgl)
    requires
        wf(u),
        wf(v),
        wf(w),
        u !is Nan,
        at_most(v, w),
    ensures
        at_most(sum(u, v), sum(u, w)),
{
    match (u, v, w) {
        (Sgl::Num(a), Sgl::Num(b), Sgl::Num(c)) => {
            let x1 = least(a.e, b.e);
            let x2 = least(a.e, c.e);
            let x = least(x1, x2);
            let n1 = a.m * float::up(a.e - x1) + b.m * float::up(b.e - x1);
            let n2 = a.m * float::up(a.e - x2) + c.m * float::up(c.e - x2);
            lemma_scaled_sum(a.m, a.e - x1, b.m, b.e - x1, x1 - x);
            lemma_scaled_sum(a.m, a.e - x2, c.m, c.e - x2, x2 - x);
            assert(b.m * float::up(b.e - x) <= c.m * float::up(c.e - x)) by {
                lemma_common(b, c, x);
            }
            lemma_ratio_at(n1, x1, n2, x2, x);
            float::lemma_up_pos(a.e - x1);
            float::lemma_up_pos(b.e - x1);
            float::lemma_up_pos(a.e - x2);
            float::lemma_up_pos(c.e - x2);
            lemma_mul_nonnegative(a.m, float::up(a.e - x1));
            lemma_mul_nonnegative(b.m, float::up(b.e - x1));
            lemma_mul_nonnegative(a.m, float::up(a.e - x2));
            lemma_mul_nonnegative(c.m, float::up(c.e - x2));
            lemma_round_mono(n1, 1, x1, n2, 1, x2);
        },
        _ => {},
    }
}

pub proof fn lemma_sum_comm(u: Sgl, v: Sgl)
    ensures
        sum(u, v) == sum(v, u),
{
}

/// Taking more leaves no more.
pub proof fn lemma_difference_mono(u: Sgl, v: Sgl, w: Sgl)
    requires
        wf(u),
        wf(v),
        wf(w),
        u is Num,
        at_most(v, w),
        at_most(w, u),
    ensures
        at_most(difference(u, w), difference(u, v)),
{
    let a = u->Num_0;
    let b = v->Num_0;
    let c = w->Num_0;
    let x1 = least(a.e, c.e);
    let x2 = least(a.e, b.e);
    let x = least(x1, x2);
    let n1 = a.m * float::up(a.e - x1) - c.m * float::up(c.e - x1);
    let n2 = a.m * float::up(a.e - x2) - b.m * float::up(b.e - x2);
    lemma_scaled_sum(a.m, a.e - x1, -c.m, c.e - x1, x1 - x);
    lemma_scaled_sum(a.m, a.e - x2, -b.m, b.e - x2, x2 - x);
    lemma_mul_unary_negation(c.m, float::up(c.e - x1));
    lemma_mul_unary_negation(b.m, float::up(b.e - x2));
    lemma_mul_unary_negation(c.m, float::up(c.e - x));
    lemma_mul_unary_negation(b.m, float::up(b.e - x));
    lemma_common(b, c, x);
    lemma_ratio_at(n1, x1, n2, x2, x);
    lemma_at_most_trans(v, w, u);
    lemma_common(c, a, x1);
    lemma_common(b, a, x2);
    lemma_round_mono(n1, 1, x1, n2, 1, x2);
}

pub proof fn lemma_single_of_mono(m: int, n: int)
    requires
        0 <= m <= n,
    ensures
        at_most(single_of(m), single_of(n)),
{
    float::lemma_up_values();
    float::lemma_up_unit(m);
    float::lemma_up_unit(n);
    lemma_round_mono(m, 1, 0, n, 1, 0);
}

pub proof fn lemma_lesser_mono(u: Sgl, v: Sgl, c: Sgl)
    requires
        wf(u),
        wf(v),
        wf(c),
        at_most(u, v),
        c is Num,
    ensures
        at_most(lesser(u, c), lesser(v, c)),
        at_most(lesser(v, c), c),
{
    if let Sgl::Num(n) = c {
        float::lemma_less_canonical(float::binary32(), n, n);
    }
    if less(c, u) {
        lemma_less_asym(c, u);
        lemma_at_most_trans(c, u, v);
    }
}

pub proof fn lemma_greater_mono(u: Sgl, v: Sgl, c: Sgl)
    requires
        wf(u),
        wf(v),
        wf(c),
        at_most(u, v),
        c is Num,
    ensures
        at_most(greater(u, c), greater(v, c)),
        at_most(c, greater(v, c)),
{
    if let Sgl::Num(n) = c {
        float::lemma_less_canonical(float::binary32(), n, n);
    }
    if less(v, c) {
        lemma_less_asym(v, c);
        lemma_at_most_trans(u, v, c);
    }
}

/// Order, seen from below both.
proof fn lemma_common(b: float::Flo, c: float::Flo, x: int)
    requires
        x <= b.e,
        x <= c.e,
        !float::less(c, b),
    ensures
        b.m * float::up(b.e - x) <= c.m * float::up(c.e - x),
{
    float::lemma_up_values();
    float::lemma_up_unit(b.m);
    float::lemma_up_unit(c.m);
    if b.e >= c.e {
        float::lemma_up_add(b.e - c.e, c.e - x);
        float::lemma_up_pos(c.e - x);
        assert(float::up(c.e - b.e) == 1);
        assert(b.m * float::up(b.e - x) <= c.m * float::up(c.e - x)) by (nonlinear_arith)
            requires
                b.m * float::up(b.e - c.e) <= c.m,
                float::up(b.e - x) == float::up(b.e - c.e) * float::up(c.e - x),
                float::up(c.e - x) > 0,
        ;
    } else {
        float::lemma_up_add(c.e - b.e, b.e - x);
        float::lemma_up_pos(b.e - x);
        assert(float::up(b.e - c.e) == 1);
        assert(b.m * float::up(b.e - x) <= c.m * float::up(c.e - x)) by (nonlinear_arith)
            requires
                b.m <= c.m * float::up(c.e - b.e),
                float::up(c.e - x) == float::up(c.e - b.e) * float::up(b.e - x),
                float::up(b.e - x) > 0,
        ;
    }
}

/// A difference is not above what it was taken from.
pub proof fn lemma_difference_below(u: Sgl, v: Sgl)
    requires
        wf(u),
        wf(v),
        u is Num,
        v is Num,
        !less(u, v),
    ensures
        at_most(difference(u, v), u),
{
    let a = u->Num_0;
    let b = v->Num_0;
    let x = least(a.e, b.e);
    lemma_common(b, a, x);
    let n = a.m * float::up(a.e - x) - b.m * float::up(b.e - x);
    float::lemma_up_values();
    float::lemma_up_unit(n);
    float::lemma_up_pos(b.e - x);
    lemma_mul_nonnegative(b.m, float::up(b.e - x));
    assert(float::up(x - x) == 1);
    lemma_ratio_at(n, x, a.m, a.e, x);
    lemma_round_exact(a);
    lemma_round_mono(n, 1, x, a.m, 1, a.e);
}

/// Times at most 1 is not more.
pub proof fn lemma_product_below(u: Sgl, k: float::Flo)
    requires
        wf(u),
        wf(Sgl::Num(k)),
        u is Num,
        k.e <= 0,
        k.m <= float::up(-k.e),
    ensures
        at_most(product(u, Sgl::Num(k)), u),
{
    let a = u->Num_0;
    float::lemma_up_values();
    assert(float::up(k.e) == 1);
    assert((a.m * k.m) * float::up(k.e) <= a.m * float::up(-k.e)) by (nonlinear_arith)
        requires
            float::up(k.e) == 1,
            k.m <= float::up(-k.e),
            a.m >= 0,
    ;
    lemma_round_exact(a);
    lemma_mul_nonnegative(a.m, k.m);
    lemma_round_mono(a.m * k.m, 1, a.e + k.e, a.m, 1, a.e);
}

/// Times 1 is the same.
pub proof fn lemma_product_one(u: Sgl)
    requires
        wf(u),
        u is Num,
    ensures
        product(u, Sgl::Num(float::Flo { m: 0x80_0000, e: -23 })) == u,
{
    let a = u->Num_0;
    float::lemma_up_values();
    float::lemma_nearest_exact(float::binary32(), a);
    float::lemma_nearest_shift(float::binary32(), a.m, 1, a.e, 23);
}

pub proof fn lemma_product_comm(u: Sgl, v: Sgl)
    ensures
        product(u, v) == product(v, u),
{
    match (u, v) {
        (Sgl::Num(a), Sgl::Num(b)) => {
            lemma_mul_is_commutative(a.m, b.m);
        },
        _ => {},
    }
}

/// A machine integer is finite, and but for 0 at least 1.
pub proof fn lemma_single_of(n: int)
    requires
        0 <= n <= u64::MAX,
    ensures
        wf(single_of(n)),
        single_of(n) matches Sgl::Num(a) && a.e <= 41 && (n > 0 ==> a.e >= -23 && a.m >= 0x80_0000),
{
    let f = float::binary32();
    float::lemma_up_values();
    float::lemma_up_unit(n);
    lemma_round_wf(n, 1, 0);
    let top = float::Flo { m: 0x80_0000, e: 41 };
    let bottom = float::Flo { m: 0x80_0000, e: -23 };
    float::lemma_up_add(23, 41);
    lemma_round_exact(top);
    lemma_round_exact(bottom);
    assert(n * float::up(-41) == n) by {
        lemma_mul_basics(n);
    }
    assert(0x80_0000 * float::up(41) == 0x1_0000_0000_0000_0000);
    lemma_round_mono(n, 1, 0, top.m, 1, top.e);
    let r = float::nearest(f, n, 1, 0);
    float::lemma_nearest_canonical(f, n, 1, 0);
    float::lemma_less_canonical(f, top, r);
    if n > 0 {
        assert(0x80_0000 * float::up(-23) == 0x80_0000);
        assert(n * float::up(23) >= 0x80_0000);
        lemma_round_mono(bottom.m, 1, bottom.e, n, 1, 0);
        float::lemma_less_canonical(f, r, bottom);
    }
}

/// By a normal number a number grows by less than twice the power of two
/// between them.
pub proof fn lemma_quotient_bound(a: float::Flo, b: float::Flo)
    requires
        wf(Sgl::Num(a)),
        wf(Sgl::Num(b)),
        b.m >= 0x80_0000,
        b.e >= -23,
        a.e <= 41,
    ensures
        quotient(Sgl::Num(a), Sgl::Num(b)) matches Sgl::Num(q) && q.e <= 48,
{
    let top = float::Flo { m: 0x80_0000, e: 48 };
    let d = a.e - b.e;
    float::lemma_up_values();
    float::lemma_up_pos(d - 48);
    float::lemma_up_pos(48 - d);
    float::lemma_up_mono(d - 48, 16);
    float::lemma_up_mono(16, 22);
    float::lemma_up_step(22);
    assert((a.m * float::up(d - 48)) * 1 <= (0x80_0000 * float::up(48 - d)) * b.m)
        by (nonlinear_arith)
        requires
            0 <= a.m < 0x100_0000,
            1 <= float::up(d - 48) <= 0x40_0000,
            float::up(48 - d) >= 1,
            b.m >= 0x80_0000,
    ;
    lemma_round_exact(top);
    lemma_round_mono(a.m, b.m, d, top.m, 1, top.e);
    lemma_round_wf(a.m, b.m, d);
    let r = round(a.m, b.m, d);
    float::lemma_less_canonical(float::binary32(), top, r->Num_0);
}

/// A greater dividend gives no smaller quotient.
pub proof fn lemma_quotient_mono(u: Sgl, v: Sgl, w: Sgl)
    requires
        wf(u),
        wf(v),
        wf(w),
        at_most(u, v),
        w is Num,
        w->Num_0.m > 0,
    ensures
        at_most(quotient(u, w), quotient(v, w)),
{
    match (u, v, w) {
        (Sgl::Num(a), Sgl::Num(b), Sgl::Num(c)) => {
            assert((a.m * float::up(a.e - b.e)) * c.m <= (b.m * float::up(b.e - a.e)) * c.m)
                by (nonlinear_arith)
                requires
                    a.m * float::up(a.e - b.e) <= b.m * float::up(b.e - a.e),
                    c.m > 0,
            ;
            lemma_round_mono(a.m, c.m, a.e - c.e, b.m, c.m, b.e - c.e);
        },
        (Sgl::Num(a), Sgl::Inf, Sgl::Num(c)) => {
            lemma_round_wf(a.m, c.m, a.e - c.e);
        },
        _ => {},
    }
}

/// A number by a greater one is finite.
pub proof fn lemma_quotient_finite(u: Sgl, v: Sgl)
    requires
        wf(u),
        wf(v),
        less(u, v),
    ensures
        quotient(u, v) is Num,
        at_most(quotient(u, v), Sgl::Num(float::Flo { m: 0x80_0000, e: -23 })),
{
    let f = float::binary32();
    let one = float::Flo { m: 0x80_0000, e: -23 };
    float::lemma_up_values();
    float::lemma_nearest_exact(f, one);
    float::lemma_nearest_shift(f, 1, 1, 0, 23);
    match (u, v) {
        (Sgl::Num(a), Sgl::Num(b)) => {
            float::lemma_up_pos(a.e - b.e);
            lemma_mul_nonnegative(a.m, float::up(a.e - b.e));
            assert(b.m > 0) by (nonlinear_arith)
                requires
                    0 < b.m * float::up(b.e - a.e),
                    b.m >= 0,
            ;
            assert(float::ratio_le(a.m, b.m, a.e - b.e, 1, 1, 0)) by (nonlinear_arith)
                requires
                    a.m * float::up(a.e - b.e) < b.m * float::up(b.e - a.e),
                    (a.e - b.e) - 0 == a.e - b.e,
                    0 - (a.e - b.e) == b.e - a.e,
            ;
            lemma_round_mono(a.m, b.m, a.e - b.e, 1, 1, 0);
        },
        _ => {
            float::lemma_nearest_exact(f, float::Flo { m: 0, e: -149 });
        },
    }
}

/// A finite number in multiples of the least one, `2^-149`.
pub open spec fn units(u: Sgl) -> int {
    match u {
        Sgl::Num(a) => a.m * float::up(a.e + 149),
        _ => 0,
    }
}

pub proof fn lemma_units(u: Sgl)
    requires
        wf(u),
    ensures
        units(u) >= 0,
{
    if let Sgl::Num(a) = u {
        float::lemma_up_pos(a.e + 149);
        lemma_mul_nonnegative(a.m, float::up(a.e + 149));
    }
}

/// The order of finite numbers is that of their multiples.
pub proof fn lemma_units_order(u: Sgl, v: Sgl)
    requires
        wf(u),
        wf(v),
        u is Num,
        v is Num,
        at_most(u, v),
    ensures
        units(u) <= units(v),
{
    lemma_common(u->Num_0, v->Num_0, -149);
}

/// What is at most a number, and at least, is that number.
pub proof fn lemma_at_most_same(u: Sgl, v: Sgl)
    requires
        wf(u),
        wf(v),
        at_most(u, v),
        at_most(v, u),
    ensures
        u == v,
{
    match (u, v) {
        (Sgl::Num(a), Sgl::Num(b)) => {
            float::lemma_less_canonical(float::binary32(), a, b);
            float::lemma_less_canonical(float::binary32(), b, a);
        },
        _ => {},
    }
}

/// What is exactly a number of the format is rounded to it.
proof fn lemma_round_to(n: int, x: int, w: Sgl)
    requires
        n >= 0,
        x >= -149,
        wf(w),
        w is Num,
        n * float::up(x + 149) == units(w),
    ensures
        round(n, 1, x) == w,
{
    let a = w->Num_0;
    lemma_ratio_at(n, x, a.m, a.e, -149);
    lemma_ratio_at(a.m, a.e, n, x, -149);
    lemma_round_exact(a);
    lemma_round_mono(n, 1, x, a.m, 1, a.e);
    lemma_round_mono(a.m, 1, a.e, n, 1, x);
    lemma_round_wf(n, 1, x);
    lemma_at_most_same(round(n, 1, x), w);
}

/// A sum that is a number of the format needs no rounding.
pub proof fn lemma_sum_exact(u: Sgl, v: Sgl, w: Sgl)
    requires
        wf(u),
        wf(v),
        wf(w),
        u is Num,
        v is Num,
        w is Num,
        units(u) + units(v) == units(w),
    ensures
        sum(u, v) == w,
{
    let a = u->Num_0;
    let b = v->Num_0;
    let x = least(a.e, b.e);
    float::lemma_up_pos(a.e - x);
    float::lemma_up_pos(b.e - x);
    lemma_mul_nonnegative(a.m, float::up(a.e - x));
    lemma_mul_nonnegative(b.m, float::up(b.e - x));
    lemma_scaled_sum(a.m, a.e - x, b.m, b.e - x, x + 149);
    lemma_round_to(a.m * float::up(a.e - x) + b.m * float::up(b.e - x), x, w);
}

/// So does such a difference.
pub proof fn lemma_difference_exact(u: Sgl, v: Sgl, w: Sgl)
    requires
        wf(u),
        wf(v),
        wf(w),
        u is Num,
        v is Num,
        w is Num,
        at_most(v, u),
        units(u) - units(v) == units(w),
    ensures
        difference(u, v) == w,
{
    let a = u->Num_0;
    let b = v->Num_0;
    let x = least(a.e, b.e);
    lemma_common(b, a, x);
    lemma_scaled_sum(a.m, a.e - x, -b.m, b.e - x, x + 149);
    lemma_mul_unary_negation(b.m, float::up(b.e - x));
    lemma_mul_unary_negation(b.m, float::up(b.e + 149));
    lemma_round_to(a.m * float::up(a.e - x) - b.m * float::up(b.e - x), x, w);
}

/// Less in multiples of the least number is less.
pub proof fn lemma_less_units(u: Sgl, v: Sgl)
    requires
        wf(u),
        wf(v),
        u is Num,
        v is Num,
        units(u) < units(v),
    ensures
        less(u, v),
{
    if !less(u, v) {
        lemma_units_order(v, u);
    }
}

pub proof fn lemma_at_most_units(u: Sgl, v: Sgl)
    requires
        wf(u),
        wf(v),
        u is Num,
        v is Num,
        units(u) <= units(v),
    ensures
        at_most(u, v),
{
    if less(v, u) {
        let a = u->Num_0;
        let b = v->Num_0;
        lemma_less_asym(v, u);
        lemma_units_order(v, u);
        assert(units(u) == units(v));
        lemma_round_exact(a);
        lemma_round_to(a.m, a.e, v);
        float::lemma_less_canonical(float::binary32(), b, a);
    }
}

/// Taking the same from more leaves no less.
pub proof fn lemma_difference_mono_first(u: Sgl, v: Sgl, w: Sgl)
    requires
        wf(u),
        wf(v),
        wf(w),
        v is Num,
        at_most(w, u),
        at_most(u, v),
    ensures
        at_most(difference(u, w), difference(v, w)),
{
    let a = u->Num_0;
    let b = v->Num_0;
    let c = w->Num_0;
    let x1 = least(a.e, c.e);
    let x2 = least(b.e, c.e);
    let x = least(x1, x2);
    let n1 = a.m * float::up(a.e - x1) - c.m * float::up(c.e - x1);
    let n2 = b.m * float::up(b.e - x2) - c.m * float::up(c.e - x2);
    lemma_scaled_sum(a.m, a.e - x1, -c.m, c.e - x1, x1 - x);
    lemma_scaled_sum(b.m, b.e - x2, -c.m, c.e - x2, x2 - x);
    lemma_mul_unary_negation(c.m, float::up(c.e - x1));
    lemma_mul_unary_negation(c.m, float::up(c.e - x2));
    lemma_mul_unary_negation(c.m, float::up(c.e - x));
    lemma_common(a, b, x);
    lemma_ratio_at(n1, x1, n2, x2, x);
    lemma_at_most_trans(w, u, v);
    lemma_common(c, a, x1);
    lemma_common(c, b, x2);
    lemma_round_mono(n1, 1, x1, n2, 1, x2);
}

/// A quotient that is exactly at least a number is so when rounded.
pub proof fn lemma_quotient_at_least(u: Sgl, v: Sgl, w: Sgl)
    requires
        wf(u),
        wf(v),
        wf(w),
        u is Num,
        v is Num,
        w is Num,
        v->Num_0.m > 0,
        units(w) * units(v) <= units(u) * float::up(149),
    ensures
        at_most(w, quotient(u, v)),
{
    let a = u->Num_0;
    let b = v->Num_0;
    let c = w->Num_0;
    let d = c.e - (a.e - b.e);
    let ua = float::up(a.e + 149);
    let ub = float::up(b.e + 149);
    let uc = float::up(c.e + 149);
    let u1 = float::up(149);
    float::lemma_up_values();
    float::lemma_up_add(c.e + 149, b.e + 149);
    float::lemma_up_add(a.e + 149, 149);
    let y = float::up(c.e + b.e + 298);
    let z = float::up(a.e + 298);
    float::lemma_up_pos(c.e + b.e + 298);
    float::lemma_up_pos(a.e + 298);
    assert((c.m * b.m) * y <= a.m * z) by (nonlinear_arith)
        requires
            (c.m * uc) * (b.m * ub) <= (a.m * ua) * u1,
            uc * ub == y,
            ua * u1 == z,
    ;
    if d >= 0 {
        float::lemma_up_add(d, a.e + 298);
        assert(float::up(-d) == 1);
        let p = float::up(d);
        assert((c.m * p) * b.m <= (a.m * 1) * 1) by (nonlinear_arith)
            requires
                (c.m * b.m) * y <= a.m * z,
                y == p * z,
                z >= 1,
        ;
    } else {
        float::lemma_up_add(-d, c.e + b.e + 298);
        assert(float::up(d) == 1);
        let p = float::up(-d);
        assert((c.m * 1) * b.m <= (a.m * p) * 1) by (nonlinear_arith)
            requires
                (c.m * b.m) * y <= a.m * z,
                z == p * y,
                y >= 1,
        ;
    }
    lemma_round_exact(c);
    lemma_round_mono(c.m, 1, c.e, a.m, b.m, a.e - b.e);
}

/// A small integer is a number of the format.
pub proof fn lemma_whole(n: int)
    requires
        0 <= n < 0x100_0000,
    ensures
        wf(single_of(n)),
        single_of(n) is Num,
        units(single_of(n)) == n * float::up(149),
{
    let f = float::binary32();
    float::lemma_up_values();
    lemma_single_of(n);
    if n > 0 {
        float::lemma_up_unit(n);
        float::lemma_up_unit(1);
        assert(float::below(n, 1, 24)) by {
            assert(n * float::up(-24) == n);
        }
        float::lemma_mag_bounds(n, 1, 24);
        float::lemma_nearest_whole(f, n, 0);
    } else {
        assert(0 * float::up(149) == 0);
    }
}

/// A sum is off by at most one part in `2^24`.
pub proof fn lemma_sum_close(u: Sgl, v: Sgl)
    requires
        wf(u),
        wf(v),
        u is Num,
        v is Num,
        sum(u, v) is Num,
    ensures
        ({
            let t = units(u) + units(v);
            0x100_0000 * t - t <= 0x100_0000 * units(sum(u, v)) <= 0x100_0000 * t + t
        }),
{
    let a = u->Num_0;
    let b = v->Num_0;
    let x = least(a.e, b.e);
    let n = a.m * float::up(a.e - x) + b.m * float::up(b.e - x);
    float::lemma_up_values();
    float::lemma_up_pos(a.e - x);
    float::lemma_up_pos(b.e - x);
    lemma_mul_nonnegative(a.m, float::up(a.e - x));
    lemma_mul_nonnegative(b.m, float::up(b.e - x));
    lemma_scaled_sum(a.m, a.e - x, b.m, b.e - x, x + 149);
    float::lemma_nearest_close(float::binary32(), n, 1, x);
}

/// So is a difference.
pub proof fn lemma_difference_close(u: Sgl, v: Sgl)
    requires
        wf(u),
        wf(v),
        u is Num,
        v is Num,
        at_most(v, u),
        difference(u, v) is Num,
    ensures
        ({
            let t = units(u) - units(v);
            0x100_0000 * t - t <= 0x100_0000 * units(difference(u, v)) <= 0x100_0000 * t + t
        }),
{
    let a = u->Num_0;
    let b = v->Num_0;
    let x = least(a.e, b.e);
    let n = a.m * float::up(a.e - x) - b.m * float::up(b.e - x);
    float::lemma_up_values();
    lemma_common(b, a, x);
    lemma_scaled_sum(a.m, a.e - x, -b.m, b.e - x, x + 149);
    lemma_mul_unary_negation(b.m, float::up(b.e - x));
    lemma_mul_unary_negation(b.m, float::up(b.e + 149));
    float::lemma_nearest_close(float::binary32(), n, 1, x);
}

/// So is a product of numbers that are not both tiny.
pub proof fn lemma_product_close(u: Sgl, v: Sgl)
    requires
        wf(u),
        wf(v),
        u is Num,
        v is Num,
        product(u, v) is Num,
        u->Num_0.e + v->Num_0.e >= -149,
    ensures
        0x100_0000 * (units(product(u, v)) * float::up(149)) <= 0x100_0001 * (units(u) * units(v)),
        0x100_0000 * (units(product(u, v)) * float::up(149)) >= 0xff_ffff * (units(u) * units(v)),
{
    let a = u->Num_0;
    let b = v->Num_0;
    let x = a.e + b.e;
    let n = a.m * b.m;
    let r = units(product(u, v));
    let c = float::up(149);
    float::lemma_up_values();
    float::lemma_up_pos(149);
    lemma_mul_nonnegative(a.m, b.m);
    float::lemma_nearest_close(float::binary32(), n, 1, x);
    float::lemma_up_add(a.e + 149, b.e + 149);
    float::lemma_up_add(x + 149, 149);
    let s = float::up(a.e + 149);
    let t = float::up(b.e + 149);
    let w = float::up(x + 149);
    assert((a.m * s) * (b.m * t) == (n * w) * c) by (nonlinear_arith)
        requires
            n == a.m * b.m,
            s * t == w * c,
    ;
    assert(0x100_0000 * (r * c) <= 0x100_0001 * ((n * w) * c)) by (nonlinear_arith)
        requires
            0x100_0000 * r <= 0x100_0000 * (n * w) + n * w,
            c >= 1,
    ;
    assert(0x100_0000 * (r * c) >= 0xff_ffff * ((n * w) * c)) by (nonlinear_arith)
        requires
            0x100_0000 * r >= 0x100_0000 * (n * w) - n * w,
            c >= 1,
    ;
}

/// So is a quotient whose significand is full.
pub proof fn lemma_quotient_close(u: Sgl, v: Sgl)
    requires
        wf(u),
        wf(v),
        u is Num,
        v is Num,
        u->Num_0.m >= 0x80_0000,
        v->Num_0.m > 0,
        u->Num_0.e - v->Num_0.e > -125,
        quotient(u, v) is Num,
    ensures
        0x100_0000 * (units(v) * units(quotient(u, v))) <= 0x100_0001 * (units(u) * float::up(
            149,
        )),
        0x100_0000 * (units(v) * units(quotient(u, v))) >= 0xff_ffff * (units(u) * float::up(149)),
        quotient(u, v)->Num_0.e >= u->Num_0.e - v->Num_0.e - 24,
{
    let f = float::binary32();
    let a = u->Num_0;
    let b = v->Num_0;
    let x = a.e - b.e;
    let r = units(quotient(u, v));
    let c = float::up(149);
    float::lemma_up_values();
    float::lemma_up_pos(149);
    float::lemma_up_unit(a.m);
    float::lemma_up_unit(b.m);
    assert(!float::below(a.m, b.m, -1));
    float::lemma_mag_bounds(a.m, b.m, -1);
    float::lemma_nearest_close(f, a.m, b.m, x);
    float::lemma_up_add(x + 149, b.e + 149);
    float::lemma_up_add(a.e + 149, 149);
    float::lemma_up_pos(b.e + 149);
    let t = float::up(b.e + 149);
    let w = float::up(x + 149);
    let s = float::up(a.e + 149);
    assert((a.m * w) * t == (a.m * s) * c) by (nonlinear_arith)
        requires
            w * t == s * c,
    ;
    assert(0x100_0000 * ((b.m * t) * r) <= 0x100_0001 * ((a.m * w) * t)) by (nonlinear_arith)
        requires
            0x100_0000 * (b.m * r) <= 0x100_0000 * (a.m * w) + a.m * w,
            t >= 1,
    ;
    assert(0x100_0000 * ((b.m * t) * r) >= 0xff_ffff * ((a.m * w) * t)) by (nonlinear_arith)
        requires
            0x100_0000 * (b.m * r) >= 0x100_0000 * (a.m * w) - a.m * w,
            t >= 1,
    ;
}

/// A greater factor gives no smaller product.
pub proof fn lemma_product_mono(u: Sgl, v: Sgl, w: Sgl)
    requires
        wf(u),
        wf(v),
        wf(w),
        u is Num,
        w is Num,
        at_most(v, w),
    ensures
        at_most(product(u, v), product(u, w)),
{
    let a = u->Num_0;
    let b = v->Num_0;
    let c = w->Num_0;
    let s = float::up(b.e - c.e);
    let t = float::up(c.e - b.e);
    assert((a.m * b.m) * s <= (a.m * c.m) * t) by (nonlinear_arith)
        requires
            a.m >= 0,
            b.m * s <= c.m * t,
    ;
    lemma_mul_nonnegative(a.m, b.m);
    lemma_mul_nonnegative(a.m, c.m);
    lemma_round_mono(a.m * b.m, 1, a.e + b.e, a.m * c.m, 1, a.e + c.e);
}

/// An addend far below the last bit does not show.
proof fn lemma_absorbed(u: float::Flo, m: int, d: int, x: int)
    requires
        float::canonical(float::binary32(), u),
        u.e == x + d,
        d > 80,
        x >= -149,
        0 <= m < 0x100_0000,
    ensures
        float::nearest(float::binary32(), u.m * float::up(d) + m, 1, x) == u,
        float::nearest(float::binary32(), u.m * float::up(d) - m, 1, x) == u,
        u.m * float::up(d) - m > 0,
{
    let f = float::binary32();
    let t = float::up(d);
    float::lemma_up_values();
    float::lemma_up_mono(80, d);
    float::lemma_up_mono(64, 80);
    float::lemma_up_unit(1);
    let n = u.m * t + m;
    float::lemma_up_add(23, d);
    float::lemma_up_add(24, d);
    assert(n >= float::up(23 + d) && n < float::up(24 + d)) by (nonlinear_arith)
        requires
            n == u.m * t + m,
            0 <= m < t,
            0x80_0000 <= u.m < 0x100_0000,
            0x80_0000 * t == float::up(23 + d),
            0x100_0000 * t == float::up(24 + d),
    ;
    float::lemma_up_unit(n);
    assert(n * float::up(-(24 + d)) == n && n * float::up(-(23 + d)) == n);
    assert(float::below(n, 1, 24 + d) && !float::below(n, 1, 23 + d));
    float::lemma_mag_bounds(n, 1, 24 + d);
    float::lemma_mag_bounds(n, 1, 23 + d);
    assert(float::quantum(f, n, 1, x) == u.e);
    assert(2 * n - t < 2 * t * u.m < 2 * n + t) by (nonlinear_arith)
        requires
            n == u.m * t + m,
            0 <= 2 * m < t,
    ;
    float::lemma_half_even_is(n, t, u.m);
    assert(float::up(x - u.e) == 1);

    let l = u.m * t - m;
    assert(l > 0) by (nonlinear_arith)
        requires
            l == u.m * t - m,
            0 <= m < t,
            u.m >= 1,
    ;
    if m == 0 {
    } else if u.m > 0x80_0000 {
        assert(l >= float::up(23 + d) && l < float::up(24 + d)) by (nonlinear_arith)
            requires
                l == u.m * t - m,
                0 <= m < t,
                0x80_0000 < u.m < 0x100_0000,
                0x80_0000 * t == float::up(23 + d),
                0x100_0000 * t == float::up(24 + d),
        ;
        assert(l * float::up(-(24 + d)) == l && l * float::up(-(23 + d)) == l);
        assert(float::below(l, 1, 24 + d) && !float::below(l, 1, 23 + d));
        float::lemma_mag_bounds(l, 1, 24 + d);
        float::lemma_mag_bounds(l, 1, 23 + d);
        assert(2 * l - t < 2 * t * u.m < 2 * l + t) by (nonlinear_arith)
            requires
                l == u.m * t - m,
                0 <= 2 * m < t,
        ;
        float::lemma_half_even_is(l, t, u.m);
    } else {
        // just below a power of two the quantum is half as large
        float::lemma_up_step(d - 1);
        let h = float::up(d - 1);
        float::lemma_up_step(22 + d);
        assert(l >= float::up(22 + d) && l < float::up(23 + d)) by (nonlinear_arith)
            requires
                l == u.m * t - m,
                0 < m < t,
                0x80_0000 == u.m,
                0x80_0000 * t == float::up(23 + d),
                float::up(23 + d) == 2 * float::up(22 + d),
        ;
        assert(l * float::up(-(22 + d)) == l && l * float::up(-(23 + d)) == l);
        assert(float::below(l, 1, 23 + d) && !float::below(l, 1, 22 + d));
        float::lemma_mag_bounds(l, 1, 23 + d);
        float::lemma_mag_bounds(l, 1, 22 + d);
        assert(float::quantum(f, l, 1, x) == u.e - 1);
        assert(2 * l - h < 2 * h * 0x100_0000 < 2 * l + h) by (nonlinear_arith)
            requires
                l == u.m * t - m,
                u.m == 0x80_0000,
                t == 2 * h,
                0 < 2 * m < h,
        ;
        float::lemma_half_even_is(l, h, 0x100_0000);
        assert(float::up(x - (u.e - 1)) == 1);
    }
}

// ------------------------------------------------------------ arithmetic

pub(crate) fn rounded(a: u128, b: u64, x: i32) -> (r: Single)
    requires
        a < float::up(110),
        0 < b,
        -4000 <= x <= 4000,
    ensures
        r@ == round(a as int, b as int, x as int),
        wf(r@),
{
    let n = float::round_to(24, -149, a, b, x);
    if n.e > 104 {
        Single::Inf
    } else {
        Single::Num(n)
    }
}

/// An integer as a binary32.
pub fn single(n: u64) -> (r: Single)
    ensures
        r@ == single_of(n as int),
        wf(r@),
{
    proof {
        float::lemma_up_values();
    }
    rounded(n as u128, 1, 0)
}

/// A finite binary64 as a binary32.
pub fn narrow(u: Num) -> (r: Single)
    requires
        u.m < 0x20_0000_0000_0000,
        -1074 <= u.e <= 1000,
    ensures
        r@ == narrowed(u@),
        wf(r@),
{
    proof {
        float::lemma_up_values();
    }
    rounded(u.m as u128, 1, u.e)
}

impl Single {
    pub fn times(self, other: Single) -> (r: Single)
        requires
            wf(self@),
            wf(other@),
        ensures
            r@ == product(self@, other@),
            wf(r@),
    {
        proof {
            float::lemma_up_values();
        }
        match (self, other) {
            (Single::Num(a), Single::Num(b)) => {
                proof {
                    assert(a.m * b.m < 0x100_0000 * 0x100_0000) by (nonlinear_arith)
                        requires
                            0 <= a.m < 0x100_0000,
                            0 <= b.m < 0x100_0000,
                    ;
                }
                rounded((a.m * b.m) as u128, 1, a.e + b.e)
            },
            (Single::Inf, Single::Inf) => Single::Inf,
            (Single::Inf, Single::Num(n)) => if n.m == 0 {
                Single::Nan
            } else {
                Single::Inf
            },
            (Single::Num(n), Single::Inf) => if n.m == 0 {
                Single::Nan
            } else {
                Single::Inf
            },
            _ => Single::Nan,
        }
    }

    pub fn over(self, other: Single) -> (r: Single)
        requires
            wf(self@),
            wf(other@),
        ensures
            r@ == quotient(self@, other@),
            wf(r@),
    {
        proof {
            float::lemma_up_values();
        }
        match (self, other) {
            (Single::Num(a), Single::Num(b)) => if b.m != 0 {
                rounded(a.m as u128, b.m, a.e - b.e)
            } else if a.m != 0 {
                Single::Inf
            } else {
                Single::Nan
            },
            (Single::Inf, Single::Num(_)) => Single::Inf,
            (Single::Num(_), Single::Inf) => rounded(0, 1, 0),
            _ => Single::Nan,
        }
    }

    pub fn plus(self, other: Single) -> (r: Single)
        requires
            wf(self@),
            wf(other@),
        ensures
            r@ == sum(self@, other@),
            wf(r@),
    {
        match (self, other) {
            (Single::Num(a), Single::Num(b)) => if a.e >= b.e {
                added(a, b)
            } else {
                added(b, a)
            },
            (Single::Nan, _) => Single::Nan,
            (_, Single::Nan) => Single::Nan,
            _ => Single::Inf,
        }
    }

    pub fn minus(self, other: Single) -> (r: Single)
        requires
            wf(self@),
            wf(other@),
            !less(self@, other@),
        ensures
            r@ == difference(self@, other@),
            wf(r@),
    {
        match (self, other) {
            (Single::Num(a), Single::Num(b)) => {
                proof {
                    float::lemma_less_canonical(float::binary32(), a@, b@);
                }
                subtracted(a, b)
            },
            (Single::Inf, Single::Num(_)) => Single::Inf,
            _ => Single::Nan,
        }
    }

    pub fn under(self, other: Single) -> (r: bool)
        requires
            wf(self@),
            wf(other@),
        ensures
            r == less(self@, other@),
    {
        match (self, other) {
            (Single::Num(a), Single::Num(b)) => {
                proof {
                    float::lemma_less_canonical(float::binary32(), a@, b@);
                }
                a.e < b.e || (a.e == b.e && a.m < b.m)
            },
            (Single::Num(_), Single::Inf) => true,
            _ => false,
        }
    }
}

impl Single {
    pub fn is_nan(self) -> (r: bool)
        ensures
            r == (self@ is Nan),
    {
        match self {
            Single::Nan => true,
            _ => false,
        }
    }

    pub fn max(self, other: Single) -> (r: Single)
        requires
            wf(self@),
            wf(other@),
        ensures
            r@ == greater(self@, other@),
            wf(r@),
    {
        if self.is_nan() || self.under(other) {
            other
        } else {
            self
        }
    }

    pub fn min(self, other: Single) -> (r: Single)
        requires
            wf(self@),
            wf(other@),
        ensures
            r@ == lesser(self@, other@),
            wf(r@),
    {
        if self.is_nan() || other.under(self) {
            other
        } else {
            self
        }
    }
}

/// What the 31 bits below the sign encode.
pub open spec fn of_bits(bits: int) -> Sgl {
    let e = bits / 0x80_0000;
    let m = bits % 0x80_0000;
    if e == 255 {
        if m == 0 {
            Sgl::Inf
        } else {
            Sgl::Nan
        }
    } else if e == 0 {
        Sgl::Num(float::Flo { m, e: -149 })
    } else {
        Sgl::Num(float::Flo { m: m + 0x80_0000, e: e - 150 })
    }
}

impl Single {
    /// What some bits encode; none of those below 0.
    pub fn from_bits(bits: u32) -> (r: Option<Single>)
        ensures
            match r {
                Some(s) => bits < 0x8000_0000 && s@ == of_bits(bits as int) && wf(s@),
                None => bits >= 0x8000_0000,
            },
    {
        proof {
            float::lemma_up_values();
        }
        if bits >= 0x8000_0000 {
            return None;
        }
        let e: u32 = bits / 0x80_0000;
        let m: u32 = bits % 0x80_0000;
        Some(
            if e == 255 {
                if m == 0 {
                    Single::Inf
                } else {
                    Single::Nan
                }
            } else if e == 0 {
                Single::Num(Num { m: m as u64, e: -149 })
            } else {
                Single::Num(Num { m: m as u64 + 0x80_0000, e: e as i32 - 150 })
            },
        )
    }

    /// The bits that encode it.
    pub fn to_bits(self) -> (r: u32)
        requires
            wf(self@),
        ensures
            r < 0x8000_0000,
            of_bits(r as int) == self@,
    {
        proof {
            float::lemma_up_values();
        }
        match self {
            Single::Nan => 0x7fc0_0000,
            Single::Inf => 0x7f80_0000,
            Single::Num(n) => if n.m < 0x80_0000 {
                n.m as u32
            } else {
                (n.e + 150) as u32 * 0x80_0000 + (n.m - 0x80_0000) as u32
            },
        }
    }

    /// Whether neither is a NaN and this one is not above the other.
    pub fn upto(self, other: Single) -> (r: bool)
        requires
            wf(self@),
            wf(other@),
        ensures
            r == at_most(self@, other@),
    {
        !self.is_nan() && !other.is_nan() && !other.under(self)
    }
}

fn added(a: Num, b: Num) -> (r: Single)
    requires
        wf(Sgl::Num(a@)),
        wf(Sgl::Num(b@)),
        a.e >= b.e,
    ensures
        r@ == sum(Sgl::Num(a@), Sgl::Num(b@)),
        r@ == sum(Sgl::Num(b@), Sgl::Num(a@)),
        wf(r@),
{
    let d = a.e - b.e;
    proof {
        float::lemma_up_values();
        float::lemma_up_unit(b.m as int);
        float::lemma_up_pos(d as int);
    }
    if d > 80 {
        proof {
            lemma_absorbed(a@, b.m as int, d as int, b.e as int);
        }
        Single::Num(a)
    } else {
        let s = float::two_to(d as u32);
        proof {
            lemma_shifted(a.m as int, d as int);
        }
        rounded(a.m as u128 * s + b.m as u128, 1, b.e)
    }
}

fn subtracted(a: Num, b: Num) -> (r: Single)
    requires
        wf(Sgl::Num(a@)),
        wf(Sgl::Num(b@)),
        a.e >= b.e,
        a.e == b.e ==> a.m >= b.m,
    ensures
        r@ == difference(Sgl::Num(a@), Sgl::Num(b@)),
        wf(r@),
{
    let d = a.e - b.e;
    proof {
        float::lemma_up_values();
        float::lemma_up_unit(b.m as int);
        float::lemma_up_pos(d as int);
    }
    if d > 80 {
        proof {
            lemma_absorbed(a@, b.m as int, d as int, b.e as int);
        }
        Single::Num(a)
    } else {
        let s = float::two_to(d as u32);
        proof {
            lemma_shifted(a.m as int, d as int);
            if d > 0 {
                float::lemma_up_step(d - 1);
                float::lemma_up_pos(d - 1);
                assert(a.m * s >= 0x100_0000) by (nonlinear_arith)
                    requires
                        a.m >= 0x80_0000,
                        s >= 2,
                ;
            } else {
                float::lemma_up_unit(a.m as int);
            }
        }
        rounded(a.m as u128 * s - b.m as u128, 1, b.e)
    }
}

proof fn lemma_shifted(m: int, d: int)
    requires
        0 <= m < 0x100_0000,
        0 <= d <= 80,
    ensures
        0 <= m * float::up(d) < float::up(106),
{
    float::lemma_up_values();
    float::lemma_up_mono(d, 80);
    float::lemma_up_add(24, 80);
    float::lemma_up_mono(104, 106);
    float::lemma_up_pos(d);
    assert(0 <= m * float::up(d) < 0x100_0000 * float::up(80)) by (nonlinear_arith)
        requires
            0 <= m < 0x100_0000,
            1 <= float::up(d) <= float::up(80),
    ;
}

} // verus!
