//! Rings lie strictly apart: each has room of its own, and so has the gap
//! before it.

use vstd::prelude::*;

use crate::fill;
use crate::fit;
use crate::float;
use crate::layout::MAX_RINGS;
use crate::rings;
use crate::single;
use crate::single::Sgl;

verus! {

/// The gap before a ring no thinner than 2: a half at least, and about a
/// quarter of the ring at most.
proof fn lemma_gap(t: Sgl)
    requires
        single::wf(t),
        t is Num,
        single::at_most(rings::max_gap(), t),
    ensures
        ({
            let g = rings::gap(t);
            &&& single::wf(g)
            &&& g is Num
            &&& g->Num_0.e <= -22
            &&& 2 * single::units(g) >= float::up(149)
            &&& 0x400_0000 * single::units(g) <= 0x100_0001 * single::units(t)
        }),
{
    let format = float::binary32();
    let q = rings::quarter();
    let c = rings::max_gap();
    let p = single::product(t, q);
    let least = Sgl::Num(float::Flo { m: 0x80_0000, e: -24 });
    rings::lemma_constants();
    float::lemma_up_values();
    float::lemma_up_pos(149);
    // a quarter of 2
    float::lemma_nearest_shift(format, 0x80_0000, 1, -24, 23);
    float::lemma_nearest_exact(format, least->Num_0);
    assert(0x80_0000int * 0x80_0000 == 0x80_0000 * float::up(23));
    assert(single::product(q, c) == least);
    single::lemma_product_mono(q, c, t);
    single::lemma_product_comm(q, t);
    single::lemma_product_wf(t, q);
    float::lemma_up_step(24);
    single::lemma_product_below(t, q->Num_0);
    // the gap is at most that, and 2
    let g = rings::gap(t);
    let two = rings::max_gap();
    float::lemma_less_canonical(format, p->Num_0, p->Num_0);
    single::lemma_lesser_mono(p, p, two);
    float::lemma_less_canonical(format, two->Num_0, g->Num_0);
    assert(single::at_most(g, p)) by {
        if g != p {
            single::lemma_less_asym(two, p);
        }
    }
    assert(single::at_most(least, g)) by {
        float::lemma_less_canonical(format, two->Num_0, least->Num_0);
    }
    single::lemma_units_order(least, g);
    single::lemma_units_order(g, p);
    lemma_powers();
    assert(2 * single::units(least) == float::up(149)) by (nonlinear_arith)
        requires
            single::units(least) == 0x80_0000 * float::up(125),
            float::up(149) == 0x100_0000 * float::up(125),
    ;
    float::lemma_less_canonical(format, t->Num_0, c->Num_0);
    single::lemma_product_close(t, q);
    let u = float::up(147);
    let x = single::units(p);
    let y = single::units(t);
    assert(0x400_0000 * x <= 0x100_0001 * y) by (nonlinear_arith)
        requires
            0x100_0000 * (x * (4 * u)) <= 0x100_0001 * (y * u),
            u >= 1,
    ;
}

/// Some numbers in multiples of the least one.
proof fn lemma_powers()
    ensures
        float::up(147) >= 1,
        float::up(149) == 4 * float::up(147),
        float::up(149) == 0x100_0000 * float::up(125),
        single::units(rings::quarter()) == float::up(147),
        single::units(rings::max_gap()) == 2 * float::up(149),
{
    float::lemma_up_values();
    float::lemma_up_pos(147);
    float::lemma_up_step(147);
    float::lemma_up_step(148);
    float::lemma_up_add(24, 125);
    float::lemma_up_add(23, 124);
    float::lemma_up_add(22, 127);
    float::lemma_up_step(22);
    let w = float::up(127);
    assert(0x80_0000 * w == 2 * (0x40_0000 * w)) by (nonlinear_arith);
}

/// Two sums that are off by one part in `2^24` each keep what is far apart in
/// order.
proof fn lemma_strict(u: int, r: int, g: int, t: int, b: int, e: int)
    requires
        u >= 1,
        0 <= r <= 0x40_0100 * u,
        2 * g >= u,
        t >= 2 * u,
        0x400_0000 * g <= 0x100_0001 * t,
        0x100_0000 * (r + g) - (r + g) <= 0x100_0000 * b <= 0x100_0000 * (r + g) + (r + g),
        0x100_0000 * (r + t) - (r + t) <= 0x100_0000 * e,
    ensures
        r < b < e,
{
}

/// From one ring to the next, and beyond, the radius does not shrink.
proof fn lemma_radius_grows(hub: Sgl, t: Seq<Sgl>, i: int, n: int, e: int)
    requires
        0 <= i <= n <= MAX_RINGS <= t.len(),
        fit::finite(t, n),
        single::wf(hub),
        hub is Num,
        hub->Num_0.e <= e <= 61,
        forall|k: int| 0 <= k < n ==> (#[trigger] t[k])->Num_0.e <= e,
    ensures
        single::units(rings::radius(hub, t, i)) <= single::units(rings::radius(hub, t, n)),
    decreases n - i,
{
    if i < n {
        lemma_radius_grows(hub, t, i, n - 1, e);
        fit::lemma_radius_close(hub, t, n - 1, e);
        fit::lemma_radius_close(hub, t, n, e);
        let u = rings::radius(hub, t, n - 1);
        single::lemma_sum_above(u, t[n - 1]);
        single::lemma_units_order(u, rings::radius(hub, t, n));
    }
}

/// A ring that begins at a radius below `2^22` or little more.
proof fn lemma_strictly_apart_at(r: Sgl, t: Sgl)
    requires
        single::wf(r),
        r is Num,
        r->Num_0.e <= 101,
        single::wf(t),
        t is Num,
        t->Num_0.e <= 61,
        single::at_most(rings::max_gap(), t),
        single::units(r) <= 0x40_0100 * float::up(149),
        single::sum(r, t) is Num,
    ensures
        single::less(r, single::sum(r, rings::gap(t))),
        single::less(single::sum(r, rings::gap(t)), single::sum(r, t)),
{
    let g = rings::gap(t);
    let b = single::sum(r, g);
    let e = single::sum(r, t);
    lemma_gap(t);
    lemma_powers();
    rings::lemma_constants();
    single::lemma_units(r);
    single::lemma_sum_finite(r->Num_0, g->Num_0, 101);
    single::lemma_sum_wf(r, g);
    single::lemma_sum_wf(r, t);
    single::lemma_sum_close(r, g);
    single::lemma_sum_close(r, t);
    single::lemma_units_order(rings::max_gap(), t);
    lemma_strict(
        float::up(149),
        single::units(r),
        single::units(g),
        single::units(t),
        single::units(b),
        single::units(e),
    );
    single::lemma_less_units(r, b);
    single::lemma_less_units(b, e);
}

/// A rim below `2^22` in multiples of the least number.
proof fn lemma_low_rim(rim: Sgl, end: int)
    requires
        single::wf(rim),
        rim is Num,
        rim->Num_0.e <= -2,
        0x100_0000 * end <= (0x100_0000 + 86) * single::units(rim),
    ensures
        end <= 0x40_0100 * float::up(149),
{
    let m = single::units(rim);
    let u = float::up(149);
    let s = float::up(rim->Num_0.e + 149);
    float::lemma_up_values();
    float::lemma_up_mono(rim->Num_0.e + 149, 147);
    float::lemma_up_pos(rim->Num_0.e + 149);
    lemma_powers();
    assert(4 * m <= 0x100_0000 * u) by (nonlinear_arith)
        requires
            m == rim->Num_0.m * s,
            0 <= rim->Num_0.m < 0x100_0000,
            0 <= s <= float::up(147),
            u == 4 * float::up(147),
    ;
    assert(end <= 0x40_0100 * u) by (nonlinear_arith)
        requires
            0x100_0000 * end <= (0x100_0000 + 86) * m,
            4 * m <= 0x100_0000 * u,
            u >= 1,
    ;
}

/// Where there is room for all rings, and the rim is below `2^22`, each ring
/// ends further out than it begins, and begins further out than the last one
/// ends, the first further out than the hub.
pub proof fn law_rings_strictly_apart(hub: Sgl, rim: Sgl, i: int)
    requires
        rings::modest(hub),
        rings::modest(rim),
        rim->Num_0.e <= -2,
        single::at_most(fill::sixty(), rings::available(hub, rim)),
        0 <= i < MAX_RINGS,
    ensures
        ({
            let b = rings::bounds(hub, rim);
            &&& single::less(b[i].0, b[i].1)
            &&& i == 0 ==> single::less(hub, b[0].0)
            &&& i > 0 ==> single::less(b[i - 1].1, b[i].0)
        }),
{
    let avail = rings::available(hub, rim);
    let t = rings::thickness(avail);
    let n = MAX_RINGS as int;
    rings::lemma_available(hub, rim);
    fill::lemma_available_roomy(hub, rim);
    fit::law_rings_fit(hub, rim);
    fit::lemma_thickness_sum(avail);
    fit::lemma_radius_close(hub, t, i, 61);
    fit::lemma_radius_close(hub, t, i + 1, 61);
    lemma_radius_grows(hub, t, i, n, 61);
    fill::law_thickness_least(avail, i);
    rings::lemma_constants();
    lemma_powers();
    single::lemma_at_most_units(rings::max_gap(), t[i]);
    assert(rings::bounds(hub, rim)[n - 1].1 == rings::radius(hub, t, n));
    lemma_low_rim(rim, single::units(rings::radius(hub, t, n)));
    assert(single::sum(rings::radius(hub, t, i), t[i]) == rings::radius(hub, t, i + 1));
    lemma_strictly_apart_at(rings::radius(hub, t, i), t[i]);
}

} // verus!
