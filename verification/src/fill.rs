//! Where there is room for all rings they fill it: but for rounding none is
//! thinner than the least thickness, and the last one ends at the rim.

use vstd::prelude::*;

use crate::fit;
use crate::float;
use crate::layout::MAX_RINGS;
use crate::rings;
use crate::single;
use crate::single::Sgl;

verus! {

/// 60: what all rings take at the least thickness.
pub open spec fn sixty() -> Sgl {
    Sgl::Num(float::Flo { m: 15728640, e: -18 })
}

/// There is room for all rings.
pub open spec fn roomy(avail: Sgl) -> bool {
    rings::modest(avail) && single::at_most(sixty(), avail)
}

proof fn lemma_integers()
    ensures
        single::wf(sixty()),
        sixty() == single::single_of(60),
        rings::min_thickness() == single::single_of(3),
        rings::one() == single::single_of(1),
        rings::zero() == single::single_of(0),
        float::up(149) >= 1,
{
    float::lemma_up_values();
    float::lemma_up_pos(149);
    rings::lemma_constants();
    float::lemma_up_add(18, 131);
    float::lemma_up_add(22, 127);
    float::lemma_up_add(23, 126);
    float::lemma_up_step(22);
    float::lemma_up_step(21);
    float::lemma_up_step(20);
    float::lemma_up_step(19);
    float::lemma_up_step(18);
    assert(float::up(18) == 0x4_0000);
    lemma_is_whole(sixty(), 60);
    lemma_is_whole(rings::min_thickness(), 3);
    lemma_is_whole(rings::one(), 1);
    assert(0 * float::up(0) == 0);
    lemma_is_whole(rings::zero(), 0);
}

/// A number that stands for an integer is that integer.
proof fn lemma_is_whole(u: Sgl, n: int)
    requires
        single::wf(u),
        u is Num,
        0 <= n < 0x100_0000,
        single::units(u) == n * float::up(149),
    ensures
        u == single::single_of(n),
{
    let w = single::single_of(n);
    single::lemma_whole(n);
    single::lemma_at_most_units(u, w);
    single::lemma_at_most_units(w, u);
    single::lemma_at_most_same(u, w);
}

proof fn lemma_whole_sum(m: int, n: int)
    requires
        0 <= m,
        0 <= n,
        m + n < 0x100_0000,
    ensures
        single::sum(single::single_of(m), single::single_of(n)) == single::single_of(m + n),
{
    single::lemma_whole(m);
    single::lemma_whole(n);
    single::lemma_whole(m + n);
    let u = float::up(149);
    assert(m * u + n * u == (m + n) * u) by (nonlinear_arith);
    single::lemma_sum_exact(
        single::single_of(m),
        single::single_of(n),
        single::single_of(m + n),
    );
}

proof fn lemma_whole_order(m: int, n: int)
    requires
        0 <= m <= n < 0x100_0000,
    ensures
        single::at_most(single::single_of(m), single::single_of(n)),
{
    single::lemma_single_of_mono(m, n);
}

// ------------------------------------------------------------ who is held

/// Held rings take three each, exactly.
proof fn lemma_held_whole(c: Seq<bool>, n: int)
    requires
        0 <= n <= MAX_RINGS,
        n <= c.len(),
    ensures
        0 <= rings::count(c, n) <= n,
        rings::held(c, n) == single::single_of(3 * rings::count(c, n)),
    decreases n,
{
    lemma_integers();
    if n > 0 {
        lemma_held_whole(c, n - 1);
        lemma_whole_sum(3 * rings::count(c, n - 1), 3);
    }
}

/// Free rings weigh at most one each.
proof fn lemma_free_most(c: Seq<bool>, n: int)
    requires
        0 <= n <= MAX_RINGS,
        n <= c.len(),
    ensures
        0 <= rings::count(c, n) <= n,
        single::at_most(rings::free(c, n), single::single_of(n - rings::count(c, n))),
    decreases n,
{
    lemma_integers();
    if n == 0 {
        lemma_whole_order(0, 0);
    } else {
        lemma_free_most(c, n - 1);
        if !c[n - 1] {
            let f = rings::free(c, n - 1);
            let w = rings::weight(n - 1);
            let k = n - 1 - rings::count(c, n - 1);
            let one = rings::one();
            let v = single::single_of(k);
            rings::lemma_constants();
            rings::lemma_free_wf(c, n - 1);
            rings::lemma_weight(n - 1);
            rings::lemma_weight_mono(0, n - 1);
            single::lemma_whole(k);
            single::lemma_whole(k + 1);
            lemma_whole_sum(1, k);
            single::lemma_sum_mono(f, w, one);
            single::lemma_sum_mono(one, f, v);
            single::lemma_sum_comm(one, f);
            single::lemma_sum_wf(f, w);
            single::lemma_sum_wf(f, one);
            single::lemma_at_most_trans(
                single::sum(f, w),
                single::sum(f, one),
                single::single_of(k + 1),
            );
        }
    }
}

/// Where the innermost ring is free, the free ones weigh at least one.
proof fn lemma_free_least(c: Seq<bool>, n: int)
    requires
        1 <= n <= MAX_RINGS,
        n <= c.len(),
        !c[0],
    ensures
        rings::count(c, n) <= n - 1,
        single::at_most(rings::one(), rings::free(c, n)),
    decreases n,
{
    rings::lemma_constants();
    lemma_integers();
    rings::lemma_count_grows(c, c, n - 1);
    rings::lemma_free_wf(c, n - 1);
    rings::lemma_weight(n - 1);
    if n == 1 {
        assert(rings::count(c, 0) == 0);
        assert(rings::free(c, 0) == rings::zero());
        single::lemma_sum_above(rings::weight(0), rings::zero());
        single::lemma_sum_comm(rings::weight(0), rings::zero());
    } else {
        lemma_free_least(c, n - 1);
        if !c[n - 1] {
            let f = rings::free(c, n - 1);
            single::lemma_sum_above(f, rings::weight(n - 1));
            single::lemma_sum_wf(f, rings::weight(n - 1));
            single::lemma_at_most_trans(
                rings::one(),
                f,
                single::sum(f, rings::weight(n - 1)),
            );
        }
    }
}

/// What the free rings share is at least three each.
proof fn lemma_left_least(avail: Sgl, c: Seq<bool>)
    requires
        roomy(avail),
        c.len() == MAX_RINGS,
    ensures
        ({
            let h = single::single_of(3 * rings::count(c, MAX_RINGS as int));
            let l = rings::left(avail, c);
            &&& 0 <= rings::count(c, MAX_RINGS as int) <= MAX_RINGS
            &&& single::wf(l)
            &&& l is Num
            &&& l == single::difference(avail, h)
            &&& single::at_most(h, avail)
            &&& single::at_most(l, avail)
            &&& single::units(l) >= (60 - 3 * rings::count(c, MAX_RINGS as int)) * float::up(149)
        }),
{
    let m = rings::count(c, MAX_RINGS as int);
    let h = single::single_of(3 * m);
    lemma_integers();
    rings::lemma_constants();
    lemma_held_whole(c, MAX_RINGS as int);
    rings::lemma_left(avail, c);
    single::lemma_whole(3 * m);
    single::lemma_whole(60 - 3 * m);
    lemma_whole_order(3 * m, 60);
    single::lemma_at_most_trans(h, sixty(), avail);
    let least = single::single_of(60 - 3 * m);
    let u = float::up(149);
    single::lemma_whole(60);
    assert(60 * u - (3 * m) * u == (60 - 3 * m) * u) by (nonlinear_arith);
    single::lemma_difference_exact(sixty(), h, least);
    single::lemma_difference_mono_first(sixty(), avail, h);
    let d = single::difference(avail, h);
    single::lemma_difference_wf(avail, h);
    single::lemma_difference_below(avail, h);
    single::lemma_units_order(least, d);
    single::lemma_units(d);
    assert(single::units(rings::zero()) == 0);
    single::lemma_at_most_units(rings::zero(), d);
}

/// The share of the innermost ring is at least the least thickness.
proof fn lemma_inner_share(avail: Sgl, c: Seq<bool>)
    requires
        roomy(avail),
        c.len() == MAX_RINGS,
        !c[0],
    ensures
        single::at_most(rings::min_thickness(), rings::share(avail, c, 0)),
{
    let n = MAX_RINGS as int;
    let m = rings::count(c, n);
    let l = rings::left(avail, c);
    let f = rings::free(c, n);
    let u = float::up(149);
    rings::lemma_constants();
    lemma_integers();
    lemma_left_least(avail, c);
    lemma_free_most(c, n);
    lemma_free_least(c, n);
    rings::lemma_free_wf(c, n);
    rings::lemma_free_finite(c, n);
    lemma_free_is(c);
    single::lemma_product_one(l);
    assert(rings::weight(0) == rings::one());
    single::lemma_whole(n - m);
    single::lemma_whole(3);
    single::lemma_units_order(f, single::single_of(n - m));
    let x = single::units(f);
    let y = single::units(l);
    assert((3 * u) * x <= y * u) by (nonlinear_arith)
        requires
            x <= (n - m) * u,
            y >= (60 - 3 * m) * u,
            n == 20,
            u >= 1,
    ;
    single::lemma_quotient_at_least(l, f, rings::min_thickness());
}

/// The weight of the free rings needs no correction.
proof fn lemma_free_is(c: Seq<bool>)
    requires
        c.len() == MAX_RINGS,
        !c[0],
    ensures
        single::greater(rings::free(c, MAX_RINGS as int), rings::tiny()) == rings::free(
            c,
            MAX_RINGS as int,
        ),
        rings::free(c, MAX_RINGS as int) matches Sgl::Num(f) && f.m >= 0x80_0000 && -23 <= f.e
            <= 17,
{
    let format = float::binary32();
    let f = rings::free(c, MAX_RINGS as int);
    rings::lemma_constants();
    float::lemma_up_values();
    lemma_free_least(c, MAX_RINGS as int);
    rings::lemma_free_wf(c, MAX_RINGS as int);
    rings::lemma_free_finite(c, MAX_RINGS as int);
    float::lemma_less_canonical(format, f->Num_0, rings::one()->Num_0);
    float::lemma_less_canonical(format, f->Num_0, rings::tiny()->Num_0);
}

/// So it is never held.
proof fn lemma_inner_free(avail: Sgl, n: int)
    requires
        roomy(avail),
        0 <= n,
    ensures
        rings::rounds(avail, n).len() == MAX_RINGS,
        !rings::rounds(avail, n)[0],
    decreases n,
{
    if n > 0 {
        lemma_inner_free(avail, n - 1);
        lemma_inner_share(avail, rings::rounds(avail, n - 1));
    }
}

// ------------------------------------------------------------ what is shared

/// A weight is not tiny.
proof fn lemma_weight_low(i: int)
    requires
        0 <= i <= MAX_RINGS,
    ensures
        rings::weight(i) matches Sgl::Num(w) && w.m >= 0x80_0000 && -23 - i <= w.e <= -23,
    decreases i,
{
    let format = float::binary32();
    rings::lemma_constants();
    float::lemma_up_values();
    rings::lemma_weight(i);
    rings::lemma_weight_mono(0, i);
    float::lemma_less_canonical(format, rings::one()->Num_0, rings::weight(i)->Num_0);
    if i > 0 {
        lemma_weight_low(i - 1);
        rings::lemma_weight(i - 1);
        let w = rings::weight(i - 1)->Num_0;
        let half = float::Flo { m: w.m, e: w.e - 1 };
        let n = w.m * 11408507;
        float::lemma_up_unit(n);
        assert(float::up(-23) == 1);
        assert((w.m * float::up(23)) * 1 <= (n * float::up(-23)) * 1) by (nonlinear_arith)
            requires
                n == w.m * 11408507,
                float::up(23) == 0x80_0000,
                float::up(-23) == 1,
                w.m >= 0,
        ;
        single::lemma_round_exact(half);
        single::lemma_round_mono(half.m, 1, half.e, n, 1, w.e - 24);
        float::lemma_less_canonical(format, rings::weight(i)->Num_0, half);
    }
}

/// The weights, with nothing for those held.
spec fn free_weights(c: Seq<bool>) -> Seq<Sgl> {
    Seq::new(
        MAX_RINGS as nat,
        |i: int|
            if c[i] {
                rings::zero()
            } else {
                rings::weight(i)
            },
    )
}

proof fn lemma_free_radius(c: Seq<bool>, n: int)
    requires
        0 <= n <= MAX_RINGS,
        c.len() == MAX_RINGS,
    ensures
        rings::free(c, n) == rings::radius(rings::zero(), free_weights(c), n),
    decreases n,
{
    if n > 0 {
        lemma_free_radius(c, n - 1);
        if c[n - 1] {
            let f = rings::free(c, n - 1);
            rings::lemma_constants();
            rings::lemma_free_wf(c, n - 1);
            rings::lemma_free_finite(c, n - 1);
            assert(single::units(rings::zero()) == 0);
            single::lemma_sum_exact(f, rings::zero(), f);
        }
    }
}

/// The weight of the free rings against the exact one.
proof fn lemma_free_close(c: Seq<bool>)
    requires
        c.len() == MAX_RINGS,
        !c[0],
    ensures
        ({
            let z = free_weights(c);
            let w = fit::exact(z, MAX_RINGS as int);
            let f = single::units(rings::free(c, MAX_RINGS as int));
            &&& w > 0
            &&& (0x100_0000 - 40) * w <= 0x100_0000 * f <= (0x100_0000 + 40) * w
        }),
{
    let z = free_weights(c);
    let n = MAX_RINGS as int;
    rings::lemma_constants();
    assert forall|i: int| 0 <= i < n implies single::wf(#[trigger] z[i]) && z[i] is Num
        && z[i]->Num_0.e <= -23 by {
        rings::lemma_weight(i);
        lemma_weight_low(i);
    }
    fit::lemma_radius_close(rings::zero(), z, n, -23);
    lemma_free_radius(c, n);
    assert(single::units(rings::zero()) == 0);
    fit::lemma_exact(z, n);
    lemma_free_is(c);
    let f = rings::free(c, n)->Num_0;
    float::lemma_up_pos(f.e + 149);
    assert(f.m * float::up(f.e + 149) > 0) by (nonlinear_arith)
        requires
            f.m >= 1,
            float::up(f.e + 149) >= 1,
    ;
    let w = fit::exact(z, n);
    let x = single::units(rings::free(c, n));
    assert(w > 0 && (0x100_0000 - 40) * w <= 0x100_0000 * x <= (0x100_0000 + 40) * w)
        by (nonlinear_arith)
        requires
            n == 20,
            x > 0,
            0x100_0000 * x <= (0x100_0000 + 2 * n) * w,
            0x100_0000 * x >= (0x100_0000 - 2 * n) * w,
    ;
}

/// `d a <= (d + 1) b` and `d b <= (d + 1) c`, and from below.
proof fn lemma_twice(d: int, a: int, b: int, c: int)
    requires
        d == 0x100_0000,
        (d - 1) * b <= d * a <= (d + 1) * b,
        (d - 1) * c <= d * b <= (d + 1) * c,
    ensures
        ((d - 1) * (d - 1)) * c <= (d * d) * a <= ((d + 1) * (d + 1)) * c,
{
    assert(((d - 1) * (d - 1)) * c <= (d * d) * a <= ((d + 1) * (d + 1)) * c) by (nonlinear_arith)
        requires
            d == 0x100_0000,
            (d - 1) * b <= d * a <= (d + 1) * b,
            (d - 1) * c <= d * b <= (d + 1) * c,
    ;
}

/// The share of a ring: a product by a weight, divided by all weights.
proof fn lemma_share_close(l: Sgl, w: Sgl, f: Sgl)
    requires
        single::wf(l),
        l matches Sgl::Num(a) && a.m >= 0x80_0000 && -22 <= a.e <= 40,
        single::wf(w),
        w matches Sgl::Num(b) && b.m >= 0x80_0000 && -43 <= b.e <= -23,
        single::at_most(w, rings::one()),
        single::wf(f),
        f matches Sgl::Num(c) && c.m >= 0x80_0000 && -23 <= c.e <= 17,
    ensures
        ({
            let d = 0x100_0000int;
            let s = single::units(single::quotient(single::product(l, w), f));
            let x = single::units(f) * s;
            let y = single::units(l) * single::units(w);
            ((d - 1) * (d - 1)) * y <= (d * d) * x <= ((d + 1) * (d + 1)) * y
        }),
{
    let format = float::binary32();
    let a = l->Num_0;
    let b = w->Num_0;
    let p = single::product(l, w);
    rings::lemma_constants();
    float::lemma_up_values();
    float::lemma_less_canonical(format, rings::one()->Num_0, b);
    float::lemma_up_mono(23, -b.e);
    if b.e < -23 {
        float::lemma_up_mono(24, -b.e);
    }
    single::lemma_product_below(l, b);
    single::lemma_product_wf(l, w);
    float::lemma_less_canonical(format, a, p->Num_0);
    // the product is not tiny
    let low = float::Flo { m: 0x80_0000, e: a.e + b.e + 23 };
    let n = a.m * b.m;
    assert((0x80_0000 * float::up(23)) * 1 <= (n * float::up(-23)) * 1) by (nonlinear_arith)
        requires
            n == a.m * b.m,
            a.m >= 0x80_0000,
            b.m >= 0x80_0000,
            float::up(23) == 0x80_0000,
            float::up(-23) == 1,
    ;
    single::lemma_round_exact(low);
    single::lemma_round_mono(low.m, 1, low.e, n, 1, a.e + b.e);
    float::lemma_less_canonical(format, p->Num_0, low);
    single::lemma_product_close(l, w);
    single::lemma_quotient_bound(p->Num_0, f->Num_0);
    single::lemma_quotient_close(p, f);
    lemma_twice(
        0x100_0000,
        single::units(f) * single::units(single::quotient(p, f)),
        single::units(p) * float::up(149),
        single::units(l) * single::units(w),
    );
}

/// The free rings' part of what the first `n` want, against what they share.
proof fn lemma_shares_close(avail: Sgl, n: int)
    requires
        roomy(avail),
        0 <= n <= MAX_RINGS,
    ensures
        ({
            let d = 0x100_0000int;
            let c = rings::rounds(avail, MAX_RINGS as int);
            let s = fit::exact(rings::wanted(avail), n) - 3 * rings::count(c, n) * float::up(149);
            let x = single::units(rings::free(c, MAX_RINGS as int)) * s;
            let y = single::units(rings::left(avail, c)) * fit::exact(free_weights(c), n);
            ((d - 1) * (d - 1)) * y <= (d * d) * x <= ((d + 1) * (d + 1)) * y
        }),
    decreases n,
{
    let c = rings::rounds(avail, MAX_RINGS as int);
    let t = rings::wanted(avail);
    let z = free_weights(c);
    let l = rings::left(avail, c);
    let f = rings::free(c, MAX_RINGS as int);
    let u = float::up(149);
    lemma_inner_free(avail, MAX_RINGS as int);
    if n == 0 {
        let s = fit::exact(t, 0) - 3 * rings::count(c, 0) * u;
        assert(rings::count(c, 0) == 0);
        assert(s == 0) by (nonlinear_arith)
            requires
                s == -3 * 0 * u,
        ;
        assert(single::units(f) * s == 0) by (nonlinear_arith)
            requires
                s == 0,
        ;
        assert(single::units(l) * fit::exact(z, 0) == 0) by (nonlinear_arith)
            requires
                fit::exact(z, 0) == 0,
        ;
    } else {
        lemma_shares_close(avail, n - 1);
        let i = n - 1;
        let k = rings::count(c, i);
        let s0 = fit::exact(t, i) - 3 * k * u;
        let y0 = fit::exact(z, i);
        lemma_integers();
        rings::lemma_constants();
        if c[i] {
            single::lemma_whole(3);
            assert(single::units(rings::zero()) == 0);
            assert(3 * (k + 1) * u == 3 * k * u + 3 * u) by (nonlinear_arith);
            assert(rings::count(c, n) == k + 1);
            assert(fit::exact(t, n) == fit::exact(t, i) + single::units(t[i]));
            assert(t[i] == rings::min_thickness());
            assert(fit::exact(z, n) == y0);
        } else {
            let si = single::units(t[i]);
            let wi = single::units(z[i]);
            lemma_shared(avail);
            lemma_free_is(c);
            rings::lemma_free_wf(c, MAX_RINGS as int);
            rings::lemma_weight(i);
            rings::lemma_weight_mono(0, i);
            lemma_weight_low(i);
            lemma_share_close(l, rings::weight(i), f);
            assert(rings::count(c, n) == k);
            assert(t[i] == rings::share(avail, c, i));
            lemma_add_close(single::units(f), single::units(l), s0, y0, si, wi);
            assert(fit::exact(t, n) - 3 * k * u == s0 + si);
            assert(fit::exact(z, n) == y0 + wi);
        }
    }
}

/// One more share.
proof fn lemma_add_close(f: int, l: int, s: int, y: int, t: int, w: int)
    requires
        ({
            let d = 0x100_0000int;
            &&& ((d - 1) * (d - 1)) * (l * y) <= (d * d) * (f * s) <= ((d + 1) * (d + 1)) * (l * y)
            &&& ((d - 1) * (d - 1)) * (l * w) <= (d * d) * (f * t) <= ((d + 1) * (d + 1)) * (l * w)
        }),
    ensures
        ({
            let d = 0x100_0000int;
            ((d - 1) * (d - 1)) * (l * (y + w)) <= (d * d) * (f * (s + t)) <= ((d + 1) * (d + 1)) * (
            l * (y + w))
        }),
{
    let d = 0x100_0000int;
    let (p, q, r) = ((d - 1) * (d - 1), d * d, (d + 1) * (d + 1));
    assert(l * (y + w) == l * y + l * w) by (nonlinear_arith);
    assert(f * (s + t) == f * s + f * t) by (nonlinear_arith);
    assert(p * (l * y + l * w) == p * (l * y) + p * (l * w)) by (nonlinear_arith);
    assert(q * (f * s + f * t) == q * (f * s) + q * (f * t)) by (nonlinear_arith);
    assert(r * (l * y + l * w) == r * (l * y) + r * (l * w)) by (nonlinear_arith);
}

/// What the free rings share is at least 3, since the innermost one is free.
proof fn lemma_shared(avail: Sgl)
    requires
        roomy(avail),
    ensures
        ({
            let c = rings::rounds(avail, MAX_RINGS as int);
            let l = rings::left(avail, c);
            &&& single::wf(l)
            &&& l matches Sgl::Num(a) && a.m >= 0x80_0000 && -22 <= a.e <= 40
        }),
{
    let format = float::binary32();
    let c = rings::rounds(avail, MAX_RINGS as int);
    let l = rings::left(avail, c);
    let m = rings::count(c, MAX_RINGS as int);
    let u = float::up(149);
    lemma_integers();
    rings::lemma_constants();
    float::lemma_up_values();
    lemma_inner_free(avail, MAX_RINGS as int);
    lemma_left_least(avail, c);
    lemma_free_least(c, MAX_RINGS as int);
    single::lemma_whole(3);
    assert((60 - 3 * m) * u >= 3 * u) by (nonlinear_arith)
        requires
            m <= 19,
            u >= 1,
    ;
    single::lemma_at_most_units(rings::min_thickness(), l);
    float::lemma_less_canonical(format, l->Num_0, rings::min_thickness()->Num_0);
    float::lemma_less_canonical(format, avail->Num_0, l->Num_0);
}

/// The shares together, where each is close: the free rings weigh `w`, `f` as
/// rounded, `l` is shared, and the shares come to `s`.
proof fn lemma_together(d: int, w: int, f: int, l: int, s: int)
    requires
        d == 0x100_0000,
        w > 0,
        l >= 0,
        (d - 40) * w <= d * f <= (d + 40) * w,
        ((d - 1) * (d - 1)) * (l * w) <= (d * d) * (f * s) <= ((d + 1) * (d + 1)) * (l * w),
    ensures
        (d - 43) * l <= d * s <= (d + 43) * l,
{
    let x = l * w;
    let y = s * w;
    assert(x >= 0) by (nonlinear_arith)
        requires
            x == l * w,
            l >= 0,
            w > 0,
    ;
    assert(f > 0 && f * s >= 0);
    assert(s >= 0) by (nonlinear_arith)
        requires
            f > 0,
            f * s >= 0,
    ;
    assert((d - 40) * y <= d * (f * s) <= (d + 40) * y) by (nonlinear_arith)
        requires
            (d - 40) * w <= d * f <= (d + 40) * w,
            y == s * w,
            s >= 0,
    ;
    let q = f * s;
    assert((d - 43) * x <= d * y <= (d + 43) * x) by (nonlinear_arith)
        requires
            d == 0x100_0000,
            x >= 0,
            (d - 40) * y <= d * q <= (d + 40) * y,
            ((d - 1) * (d - 1)) * x <= (d * d) * q <= ((d + 1) * (d + 1)) * x,
    ;
    assert((d - 43) * l <= d * s <= (d + 43) * l) by (nonlinear_arith)
        requires
            (d - 43) * x <= d * y <= (d + 43) * x,
            x == l * w,
            y == s * w,
            w > 0,
    ;
}

/// Together the rings want all there is.
proof fn lemma_wanted_close(avail: Sgl)
    requires
        roomy(avail),
    ensures
        ({
            let x = fit::exact(rings::wanted(avail), MAX_RINGS as int);
            let a = single::units(avail);
            (0x100_0000 - 45) * a <= 0x100_0000 * x <= (0x100_0000 + 45) * a
        }),
{
    let n = MAX_RINGS as int;
    let c = rings::rounds(avail, n);
    let m = rings::count(c, n);
    let h = single::single_of(3 * m);
    let l = rings::left(avail, c);
    let u = float::up(149);
    let x = fit::exact(rings::wanted(avail), n);
    lemma_inner_free(avail, n);
    lemma_shares_close(avail, n);
    lemma_free_close(c);
    lemma_left_least(avail, c);
    single::lemma_units(l);
    lemma_together(
        0x100_0000,
        fit::exact(free_weights(c), n),
        single::units(rings::free(c, n)),
        single::units(l),
        x - 3 * m * u,
    );
    single::lemma_whole(3 * m);
    single::lemma_difference_close(avail, h);
    single::lemma_units_order(h, avail);
    let a = single::units(avail);
    let b = 3 * m * u;
    let y = single::units(l);
    assert((0x100_0000 - 45) * a <= 0x100_0000 * x <= (0x100_0000 + 45) * a) by (nonlinear_arith)
        requires
            (0x100_0000 - 43) * y <= 0x100_0000 * (x - b) <= (0x100_0000 + 43) * y,
            0x100_0000 * (a - b) - (a - b) <= 0x100_0000 * y <= 0x100_0000 * (a - b) + (a - b),
            0 <= b <= a,
    ;
}

/// `x` is what all rings come to, `a` what there is, `t` the rounded sum and
/// `k` what all are multiplied by, which leaves `y` of them.
proof fn lemma_shrunk_least(d: int, x: int, a: int, t: int, k: int, u: int, y: int)
    requires
        d == 0x100_0000,
        a > 0,
        u > 0,
        k >= 0,
        d * x <= (d + 45) * a,
        d * t <= (d + 40) * x,
        d * (t * k) >= (d - 1) * (a * u),
        d * (y * u) >= (d - 1) * (x * k),
    ensures
        d * k >= (d - 87) * u,
        d * y >= (d - 43) * a,
{
    assert(d * t <= (d + 86) * a);
    assert(d * (t * k) <= (d + 86) * (a * k)) by (nonlinear_arith)
        requires
            d * t <= (d + 86) * a,
            k >= 0,
    ;
    assert((d + 86) * k >= (d - 1) * u) by (nonlinear_arith)
        requires
            (d + 86) * (a * k) >= (d - 1) * (a * u),
            a > 0,
    ;
    assert(d * (t * k) <= (d + 40) * (x * k)) by (nonlinear_arith)
        requires
            d * t <= (d + 40) * x,
            k >= 0,
    ;
    let v = a * u;
    let w = y * u;
    assert(v > 0) by (nonlinear_arith)
        requires
            v == a * u,
            a > 0,
            u > 0,
    ;
    let p = x * k;
    let q = t * k;
    assert(d * w >= (d - 43) * v) by (nonlinear_arith)
        requires
            d == 0x100_0000,
            v > 0,
            d * w >= (d - 1) * p,
            d * q <= (d + 40) * p,
            d * q >= (d - 1) * v,
    ;
    assert(d * y >= (d - 43) * a) by (nonlinear_arith)
        requires
            d * w >= (d - 43) * v,
            v == a * u,
            w == y * u,
            u > 0,
    ;
}

/// The same of one ring, which wants `t` and gets `y`.
proof fn lemma_shrunk_one(d: int, t: int, k: int, u: int, y: int)
    requires
        d == 0x100_0000,
        t >= 0,
        u > 0,
        d * k >= (d - 87) * u,
        d * (y * u) >= (d - 1) * (t * k),
    ensures
        d * y >= (d - 88) * t,
{
    assert(d * (t * k) >= (d - 87) * (t * u)) by (nonlinear_arith)
        requires
            d * k >= (d - 87) * u,
            t >= 0,
    ;
    let v = t * u;
    let w = y * u;
    assert(v >= 0) by (nonlinear_arith)
        requires
            v == t * u,
            t >= 0,
            u > 0,
    ;
    assert(d * w >= (d - 88) * v);
    assert(d * y >= (d - 88) * t) by (nonlinear_arith)
        requires
            d * w >= (d - 88) * v,
            v == t * u,
            w == y * u,
            u > 0,
    ;
}

// ------------------------------------------------------------ how it is filled

/// 60 and more, in multiples of the least number.
proof fn lemma_roomy(avail: Sgl)
    requires
        roomy(avail),
    ensures
        single::at_most(rings::one(), avail),
        single::units(avail) >= 60 * float::up(149),
        single::units(avail) > 0,
        float::up(149) > 0,
{
    rings::lemma_constants();
    lemma_integers();
    lemma_whole_order(1, 60);
    single::lemma_whole(60);
    single::lemma_at_most_trans(rings::one(), sixty(), avail);
    single::lemma_units_order(sixty(), avail);
}

/// The thicknesses come to no less than there is, but for rounding.
proof fn lemma_thickness_sum_least(avail: Sgl)
    requires
        roomy(avail),
    ensures
        0x100_0000 * fit::exact(rings::thickness(avail), MAX_RINGS as int) >= (0x100_0000 - 45)
            * single::units(avail),
{
    let n = MAX_RINGS as int;
    let t = rings::wanted(avail);
    let taken = rings::radius(rings::zero(), t, n);
    lemma_roomy(avail);
    lemma_wanted_close(avail);
    fit::lemma_wanted_sum(avail);
    if single::less(avail, taken) {
        fit::lemma_shrunk(avail);
        lemma_shrunk_least(
            0x100_0000,
            fit::exact(t, n),
            single::units(avail),
            single::units(taken),
            single::units(single::quotient(avail, taken)),
            float::up(149),
            fit::exact(rings::thickness(avail), n),
        );
    }
}

/// Where there is room for all rings, none is thinner than the least
/// thickness, but for some parts in `2^24`.
pub proof fn law_thickness_least(avail: Sgl, i: int)
    requires
        rings::modest(avail),
        single::at_most(sixty(), avail),
        0 <= i < MAX_RINGS,
    ensures
        rings::thickness(avail)[i] is Num,
        0x100_0000 * single::units(rings::thickness(avail)[i]) >= (0x100_0000 - 88)
            * single::units(rings::min_thickness()),
{
    let n = MAX_RINGS as int;
    let t = rings::wanted(avail);
    let s = rings::thickness(avail);
    let taken = rings::radius(rings::zero(), t, n);
    lemma_roomy(avail);
    rings::lemma_constants();
    rings::law_wanted(avail, i, i);
    fit::lemma_wanted_sum(avail);
    single::lemma_units_order(rings::min_thickness(), t[i]);
    single::lemma_units(rings::min_thickness());
    single::lemma_units(t[i]);
    if single::less(avail, taken) {
        lemma_wanted_close(avail);
        fit::lemma_shrunk(avail);
        let k = single::units(single::quotient(avail, taken));
        lemma_shrunk_least(
            0x100_0000,
            fit::exact(t, n),
            single::units(avail),
            single::units(taken),
            k,
            float::up(149),
            fit::exact(s, n),
        );
        assert(s[i] is Num);
        lemma_shrunk_one(
            0x100_0000,
            single::units(t[i]),
            k,
            float::up(149),
            single::units(s[i]),
        );
    }
}

/// What there is to share is the distance from hub to rim.
pub proof fn lemma_available_roomy(hub: Sgl, rim: Sgl)
    requires
        rings::modest(hub),
        rings::modest(rim),
        single::at_most(sixty(), rings::available(hub, rim)),
    ensures
        roomy(rings::available(hub, rim)),
        single::at_most(hub, rim),
        rings::available(hub, rim) == single::difference(rim, hub),
        single::at_most(rings::one(), single::difference(rim, hub)),
{
    let format = float::binary32();
    rings::lemma_constants();
    lemma_integers();
    rings::lemma_available(hub, rim);
    lemma_roomy(rings::available(hub, rim));
    float::lemma_up_values();
    float::lemma_less_canonical(format, rings::one()->Num_0, sixty()->Num_0);
}

/// The rings fill what there is: where there is room for all of them, the last
/// one ends no nearer than the rim, but for some parts in `2^24`.
pub proof fn law_rings_fill(hub: Sgl, rim: Sgl)
    requires
        rings::modest(hub),
        rings::modest(rim),
        single::at_most(sixty(), rings::available(hub, rim)),
    ensures
        ({
            let end = rings::bounds(hub, rim)[MAX_RINGS - 1].1;
            &&& end is Num
            &&& 0x100_0000 * single::units(end) >= (0x100_0000 - 86) * single::units(rim)
        }),
{
    let n = MAX_RINGS as int;
    let avail = rings::available(hub, rim);
    let t = rings::thickness(avail);
    lemma_available_roomy(hub, rim);
    lemma_thickness_sum_least(avail);
    fit::lemma_thickness_sum(avail);
    fit::lemma_radius_close(hub, t, n, 61);
    assert(rings::bounds(hub, rim)[n - 1].1 == rings::radius(hub, t, n));
    single::lemma_difference_close(rim, hub);
    single::lemma_units(hub);
    single::lemma_units_order(hub, rim);
    let h = single::units(hub);
    let m = single::units(rim);
    let a = single::units(avail);
    let x = fit::exact(t, n);
    let r = single::units(rings::radius(hub, t, n));
    assert(0x100_0000 * r >= (0x100_0000 - 86) * m) by (nonlinear_arith)
        requires
            0x100_0000 * r >= (0x100_0000 - 40) * (h + x),
            0x100_0000 * x >= (0x100_0000 - 45) * a,
            0x100_0000 * a >= 0x100_0000 * (m - h) - (m - h),
            0 <= h <= m,
    ;
}

} // verus!
