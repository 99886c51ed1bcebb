//! All rings fit: but for rounding the last one ends no further out than the
//! rim.

use vstd::prelude::*;

use crate::float;
use crate::layout::MAX_RINGS;
use crate::rings;
use crate::single;
use crate::single::Sgl;

verus! {

/// The first `n` thicknesses together, exactly, in multiples of the least
/// number.
pub open spec fn exact(t: Seq<Sgl>, n: int) -> int
    decreases n,
{
    if n <= 0 {
        0
    } else {
        exact(t, n - 1) + single::units(t[n - 1])
    }
}

/// All are finite numbers of the format.
pub open spec fn finite(t: Seq<Sgl>, n: int) -> bool {
    forall|i: int| 0 <= i < n ==> single::wf(#[trigger] t[i]) && t[i] is Num
}

pub proof fn lemma_exact(t: Seq<Sgl>, n: int)
    requires
        0 <= n <= t.len(),
        finite(t, n),
    ensures
        exact(t, n) >= 0,
    decreases n,
{
    if n > 0 {
        lemma_exact(t, n - 1);
        single::lemma_units(t[n - 1]);
    }
}

/// One more rounded sum costs two more parts of `d` at most.
proof fn lemma_one_more_up(d: int, k: int, x: int, t: int, r: int, s: int)
    requires
        d > 0,
        0 <= k <= d,
        x >= 0,
        t >= 0,
        d * r <= (d + k) * x,
        d * s <= d * (r + t) + (r + t),
    ensures
        d * s <= (d + k + 2) * (x + t),
{
    assert(d * (r + t) <= (d + k) * (x + t)) by (nonlinear_arith)
        requires
            d * r <= (d + k) * x,
            t >= 0,
            k >= 0,
    ;
    assert(d * (d * s) <= (d + 1) * ((d + k) * (x + t))) by (nonlinear_arith)
        requires
            d * s <= d * (r + t) + (r + t),
            d * (r + t) <= (d + k) * (x + t),
            d > 0,
    ;
    assert((d + 1) * (d + k) <= d * (d + k + 2)) by (nonlinear_arith)
        requires
            0 <= k <= d,
    ;
    let y = x + t;
    assert((d + 1) * ((d + k) * y) <= d * ((d + k + 2) * y)) by (nonlinear_arith)
        requires
            (d + 1) * (d + k) <= d * (d + k + 2),
            y >= 0,
    ;
    assert(d * s <= (d + k + 2) * y) by (nonlinear_arith)
        requires
            d * (d * s) <= d * ((d + k + 2) * y),
            d > 0,
    ;
}

proof fn lemma_one_more_down(d: int, k: int, x: int, t: int, r: int, s: int)
    requires
        d > 2,
        0 <= k <= d - 2,
        x >= 0,
        t >= 0,
        d * r >= (d - k) * x,
        d * s >= d * (r + t) - (r + t),
    ensures
        d * s >= (d - k - 2) * (x + t),
{
    let y = x + t;
    assert(d * (r + t) >= (d - k) * y) by (nonlinear_arith)
        requires
            d * r >= (d - k) * x,
            t >= 0,
            k >= 0,
            y == x + t,
    ;
    assert(d * (d * s) >= (d - 1) * ((d - k) * y)) by (nonlinear_arith)
        requires
            d * s >= d * (r + t) - (r + t),
            d * (r + t) >= (d - k) * y,
            d > 2,
    ;
    assert((d - 1) * (d - k) >= d * (d - k - 2)) by (nonlinear_arith)
        requires
            0 <= k <= d,
    ;
    assert((d - 1) * ((d - k) * y) >= d * ((d - k - 2) * y)) by (nonlinear_arith)
        requires
            (d - 1) * (d - k) >= d * (d - k - 2),
            y >= 0,
    ;
    assert(d * s >= (d - k - 2) * y) by (nonlinear_arith)
        requires
            d * (d * s) >= d * ((d - k - 2) * y),
            d > 0,
    ;
}

/// The radius after `n` rings, against the exact one.
pub proof fn lemma_radius_close(hub: Sgl, t: Seq<Sgl>, n: int, e: int)
    requires
        0 <= n <= MAX_RINGS <= t.len(),
        finite(t, n),
        single::wf(hub),
        hub is Num,
        hub->Num_0.e <= e <= 61,
        forall|i: int| 0 <= i < n ==> (#[trigger] t[i])->Num_0.e <= e,
    ensures
        single::wf(rings::radius(hub, t, n)),
        rings::radius(hub, t, n) matches Sgl::Num(r) && r.e <= e + 2 * n,
        ({
            let x = single::units(hub) + exact(t, n);
            let r = single::units(rings::radius(hub, t, n));
            &&& x >= 0
            &&& 0x100_0000 * r <= (0x100_0000 + 2 * n) * x
            &&& 0x100_0000 * r >= (0x100_0000 - 2 * n) * x
        }),
    decreases n,
{
    single::lemma_units(hub);
    if n > 0 {
        lemma_radius_close(hub, t, n - 1, e);
        let u = rings::radius(hub, t, n - 1);
        let v = t[n - 1];
        single::lemma_sum_finite(u->Num_0, v->Num_0, e + 2 * (n - 1));
        single::lemma_sum_wf(u, v);
        single::lemma_sum_close(u, v);
        single::lemma_units(u);
        single::lemma_units(v);
        let x = single::units(hub) + exact(t, n - 1);
        let s = single::units(single::sum(u, v));
        lemma_one_more_up(
            0x100_0000,
            2 * (n - 1),
            x,
            single::units(v),
            single::units(u),
            s,
        );
        lemma_one_more_down(
            0x100_0000,
            2 * (n - 1),
            x,
            single::units(v),
            single::units(u),
            s,
        );
    }
}

/// Thicknesses times a factor, against the exact products.
proof fn lemma_scaled_close(t: Seq<Sgl>, s: Seq<Sgl>, k: Sgl, n: int)
    requires
        0 <= n <= t.len(),
        n <= s.len(),
        finite(t, n),
        finite(s, n),
        single::wf(k),
        k is Num,
        forall|i: int|
            0 <= i < n ==> #[trigger] s[i] == single::product(t[i], k) && t[i]->Num_0.e
                + k->Num_0.e >= -149,
    ensures
        0x100_0000 * (exact(s, n) * float::up(149)) <= 0x100_0001 * (exact(t, n) * single::units(
            k,
        )),
        0x100_0000 * (exact(s, n) * float::up(149)) >= 0xff_ffff * (exact(t, n) * single::units(
            k,
        )),
    decreases n,
{
    let c = float::up(149);
    let f = single::units(k);
    if n > 0 {
        lemma_scaled_close(t, s, k, n - 1);
        assert(s[n - 1] == single::product(t[n - 1], k));
        single::lemma_product_close(t[n - 1], k);
        let a = exact(s, n - 1);
        let b = single::units(s[n - 1]);
        let p = exact(t, n - 1);
        let q = single::units(t[n - 1]);
        assert((a + b) * c == a * c + b * c) by (nonlinear_arith);
        assert((p + q) * f == p * f + q * f) by (nonlinear_arith);
    } else {
        assert(0 * c == 0 && 0 * f == 0);
    }
}

/// What the wanted thicknesses come to together, against their rounded sum.
pub proof fn lemma_wanted_sum(avail: Sgl)
    requires
        rings::modest(avail),
        single::at_most(rings::one(), avail),
    ensures
        ({
            let t = rings::wanted(avail);
            let taken = rings::radius(rings::zero(), t, MAX_RINGS as int);
            &&& finite(t, MAX_RINGS as int)
            &&& forall|i: int| 0 <= i < MAX_RINGS ==> -22 <= (#[trigger] t[i])->Num_0.e <= 61
            &&& taken is Num
            &&& single::wf(taken)
            &&& taken->Num_0.e <= avail->Num_0.e + 61
            &&& (0x100_0000 - 40) * exact(t, MAX_RINGS as int) <= 0x100_0000 * single::units(taken)
            &&& 0x100_0000 * single::units(taken) <= (0x100_0000 + 40) * exact(t, MAX_RINGS as int)
        }),
{
    let t = rings::wanted(avail);
    let format = float::binary32();
    rings::lemma_constants();
    float::lemma_up_values();
    assert forall|i: int| 0 <= i < MAX_RINGS implies single::wf(#[trigger] t[i]) && t[i] is Num
        && -22 <= t[i]->Num_0.e <= 61 by {
        rings::lemma_wanted_finite(avail, i);
        rings::law_wanted(avail, i, i);
        float::lemma_less_canonical(format, t[i]->Num_0, rings::min_thickness()->Num_0);
    }
    rings::lemma_taken_finite(avail, MAX_RINGS as int);
    lemma_radius_close(rings::zero(), t, MAX_RINGS as int, 61);
    assert(single::units(rings::zero()) == 0);
}

/// `(d - 40) s <= d t`, `d t k <= (d + 1) a u` and `d u r <= (d + 1) s k` bound
/// `r` by `a`.
proof fn lemma_chain(d: int, s: int, t: int, k: int, a: int, u: int, r: int)
    requires
        d == 0x100_0000,
        s >= 0,
        k >= 0,
        a >= 0,
        u > 0,
        (d - 40) * s <= d * t,
        d * (t * k) <= (d + 1) * (a * u),
        d * (r * u) <= (d + 1) * (s * k),
    ensures
        d * r <= (d + 43) * a,
{
    assert((d - 40) * (s * k) <= d * (t * k)) by (nonlinear_arith)
        requires
            (d - 40) * s <= d * t,
            k >= 0,
    ;
    let x = r * u;
    let y = s * k;
    let z = a * u;
    assert(d * ((d - 40) * x) <= ((d + 1) * (d + 1)) * z) by (nonlinear_arith)
        requires
            d == 0x100_0000,
            d * x <= (d + 1) * y,
            (d - 40) * y <= (d + 1) * z,
    ;
    assert(z >= 0) by (nonlinear_arith)
        requires
            z == a * u,
            a >= 0,
            u > 0,
    ;
    assert((d + 1) * (d + 1) <= (d - 40) * (d + 43)) by (nonlinear_arith)
        requires
            d == 0x100_0000,
    ;
    assert(d * x <= (d + 43) * z);
    assert(d * r <= (d + 43) * a) by (nonlinear_arith)
        requires
            d * x <= (d + 43) * z,
            x == r * u,
            z == a * u,
            u > 0,
    ;
}

/// The factor by which all rings shrink, and what they then come to.
pub proof fn lemma_shrunk(avail: Sgl)
    requires
        rings::modest(avail),
        single::at_most(rings::one(), avail),
        single::less(avail, rings::radius(rings::zero(), rings::wanted(avail), MAX_RINGS as int)),
    ensures
        ({
            let s = rings::thickness(avail);
            let t = rings::wanted(avail);
            let taken = rings::radius(rings::zero(), t, MAX_RINGS as int);
            let k = single::units(single::quotient(avail, taken));
            let u = float::up(149);
            &&& finite(s, MAX_RINGS as int)
            &&& forall|i: int| 0 <= i < MAX_RINGS ==> (#[trigger] s[i])->Num_0.e <= 61
            &&& 0x100_0000 * exact(s, MAX_RINGS as int) <= (0x100_0000 + 43) * single::units(avail)
            &&& k >= 0
            &&& 0x100_0000 * (single::units(taken) * k) >= 0xff_ffff * (single::units(avail) * u)
            &&& 0x100_0000 * (exact(s, MAX_RINGS as int) * u) >= 0xff_ffff * (exact(
                t,
                MAX_RINGS as int,
            ) * k)
            &&& forall|i: int|
                0 <= i < MAX_RINGS ==> 0x100_0000 * (single::units(#[trigger] s[i]) * u) >= 0xff_ffff
                    * (single::units(t[i]) * k)
        }),
{
    let n = MAX_RINGS as int;
    let t = rings::wanted(avail);
    let s = rings::thickness(avail);
    let taken = rings::radius(rings::zero(), t, n);
    let k = single::quotient(avail, taken);
    let format = float::binary32();
    rings::lemma_constants();
    float::lemma_up_values();
    lemma_wanted_sum(avail);
    single::lemma_quotient_finite(avail, taken);
    single::lemma_quotient_wf(avail, taken);
    float::lemma_less_canonical(format, avail->Num_0, rings::one()->Num_0);
    float::lemma_less_canonical(format, avail->Num_0, taken->Num_0);
    assert(avail->Num_0.m >= 0x80_0000 && taken->Num_0.m > 0);
    single::lemma_quotient_close(avail, taken);
    float::lemma_less_canonical(format, rings::one()->Num_0, k->Num_0);
    float::lemma_up_mono(23, -k->Num_0.e);
    if k->Num_0.e < -23 {
        float::lemma_up_mono(24, -k->Num_0.e);
    }
    assert forall|i: int| 0 <= i < n implies single::wf(#[trigger] s[i]) && s[i] is Num
        && s[i]->Num_0.e <= 61 && s[i] == single::product(t[i], k) && t[i]->Num_0.e + k->Num_0.e
        >= -149 && 0x100_0000 * (single::units(s[i]) * float::up(149)) >= 0xff_ffff * (
    single::units(t[i]) * single::units(k)) by {
        assert(s[i] == single::product(t[i], k));
        single::lemma_product_below(t[i], k->Num_0);
        single::lemma_product_wf(t[i], k);
        float::lemma_less_canonical(format, t[i]->Num_0, s[i]->Num_0);
        single::lemma_product_close(t[i], k);
    }
    lemma_scaled_close(t, s, k, n);
    lemma_exact(t, n);
    single::lemma_units(k);
    single::lemma_units(avail);
    float::lemma_up_pos(149);
    lemma_chain(
        0x100_0000,
        exact(t, n),
        single::units(taken),
        single::units(k),
        single::units(avail),
        float::up(149),
        exact(s, n),
    );
}

/// The thicknesses come to no more than there is, but for rounding.
pub proof fn lemma_thickness_sum(avail: Sgl)
    requires
        rings::modest(avail),
        single::at_most(rings::one(), avail),
    ensures
        ({
            let s = rings::thickness(avail);
            &&& finite(s, MAX_RINGS as int)
            &&& forall|i: int| 0 <= i < MAX_RINGS ==> (#[trigger] s[i])->Num_0.e <= 61
            &&& 0x100_0000 * exact(s, MAX_RINGS as int) <= (0x100_0000 + 43) * single::units(avail)
        }),
{
    let t = rings::wanted(avail);
    let taken = rings::radius(rings::zero(), t, MAX_RINGS as int);
    lemma_wanted_sum(avail);
    if single::less(avail, taken) {
        lemma_shrunk(avail);
    } else {
        let x = exact(t, MAX_RINGS as int);
        let a = single::units(avail);
        single::lemma_units_order(taken, avail);
        single::lemma_units(avail);
        lemma_exact(t, MAX_RINGS as int);
        assert(0x100_0000 * x <= (0x100_0000 + 43) * a) by (nonlinear_arith)
            requires
                (0x100_0000 - 40) * x <= 0x100_0000 * a,
                a >= 0,
                x >= 0,
        ;
    }
}

/// The last ring ends no further out than the hub and what the rings have to
/// share, but for some parts in `2^24`.
pub proof fn law_rings_within(hub: Sgl, rim: Sgl)
    requires
        rings::modest(hub),
        rings::modest(rim),
    ensures
        ({
            let end = rings::bounds(hub, rim)[MAX_RINGS - 1].1;
            &&& end is Num
            &&& 0x100_0000 * single::units(end) <= (0x100_0000 + 84) * (single::units(hub)
                + single::units(rings::available(hub, rim)))
        }),
{
    let avail = rings::available(hub, rim);
    let t = rings::thickness(avail);
    let n = MAX_RINGS as int;
    rings::lemma_available(hub, rim);
    lemma_thickness_sum(avail);
    lemma_radius_close(hub, t, n, 61);
    assert(rings::bounds(hub, rim)[n - 1].1 == rings::radius(hub, t, n));
    let h = single::units(hub);
    let a = single::units(avail);
    let x = exact(t, n);
    let r = single::units(rings::radius(hub, t, n));
    single::lemma_units(hub);
    single::lemma_units(avail);
    assert(0x100_0000 * r <= (0x100_0000 + 84) * (h + a)) by (nonlinear_arith)
        requires
            0x100_0000 * r <= (0x100_0000 + 40) * (h + x),
            0x100_0000 * x <= (0x100_0000 + 43) * a,
            h >= 0,
            a >= 0,
    ;
}

/// All rings fit: where there is room for them, the last one ends no further
/// out than the rim, but for some parts in `2^24`.
pub proof fn law_rings_fit(hub: Sgl, rim: Sgl)
    requires
        rings::modest(hub),
        rings::modest(rim),
        single::at_most(hub, rim),
        single::at_most(rings::one(), single::difference(rim, hub)),
    ensures
        ({
            let end = rings::bounds(hub, rim)[MAX_RINGS - 1].1;
            &&& end is Num
            &&& 0x100_0000 * single::units(end) <= (0x100_0000 + 86) * single::units(rim)
        }),
{
    law_rings_within(hub, rim);
    rings::lemma_constants();
    let d = single::difference(rim, hub);
    single::lemma_difference_below(rim, hub);
    single::lemma_difference_close(rim, hub);
    single::lemma_units(hub);
    single::lemma_units_order(hub, rim);
    assert(rings::available(hub, rim) == d);
    let h = single::units(hub);
    let m = single::units(rim);
    let a = single::units(d);
    let r = single::units(rings::bounds(hub, rim)[MAX_RINGS - 1].1);
    assert(0x100_0000 * a <= 0x100_0000 * (m - h) + (m - h));
    assert(0x100_0000 * r <= (0x100_0000 + 86) * m) by (nonlinear_arith)
        requires
            0x100_0000 * a <= 0x100_0000 * (m - h) + (m - h),
            0x100_0000 * r <= (0x100_0000 + 84) * (h + a),
            0 <= h <= m,
    ;
}

} // verus!
