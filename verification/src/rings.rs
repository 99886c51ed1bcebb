//! The radii of the rings: thinner toward the rim, but none too thin to see.

use vstd::prelude::*;

use crate::float;
use crate::float::Num;
use crate::layout::MAX_RINGS;
use crate::single;
use crate::single::Sgl;
use crate::single::Single;

verus! {

pub open spec fn zero() -> Sgl {
    Sgl::Num(float::Flo { m: 0, e: -149 })
}

pub open spec fn one() -> Sgl {
    Sgl::Num(float::Flo { m: 0x80_0000, e: -23 })
}

/// 0.68: how much thinner than the last a ring wants to be.
pub open spec fn shrink() -> Sgl {
    Sgl::Num(float::Flo { m: 11408507, e: -24 })
}

/// 3: the thinnest a ring gets.
pub open spec fn min_thickness() -> Sgl {
    Sgl::Num(float::Flo { m: 12582912, e: -22 })
}

/// 2: the widest gap between rings.
pub open spec fn max_gap() -> Sgl {
    Sgl::Num(float::Flo { m: 0x80_0000, e: -22 })
}

pub open spec fn quarter() -> Sgl {
    Sgl::Num(float::Flo { m: 0x80_0000, e: -25 })
}

/// A millionth.
pub open spec fn tiny() -> Sgl {
    Sgl::Num(float::Flo { m: 8796093, e: -43 })
}

/// What the rings have to share.
pub open spec fn available(hub: Sgl, rim: Sgl) -> Sgl {
    if single::less(rim, hub) {
        one()
    } else {
        single::greater(single::difference(rim, hub), one())
    }
}

/// How thick ring `i` wants to be, against the innermost.
pub open spec fn weight(i: int) -> Sgl
    decreases i,
{
    if i <= 0 {
        one()
    } else {
        single::product(weight(i - 1), shrink())
    }
}

/// What the first `n` rings take that are held at the least thickness.
pub open spec fn held(c: Seq<bool>, n: int) -> Sgl
    decreases n,
{
    if n <= 0 {
        zero()
    } else if c[n - 1] {
        single::sum(held(c, n - 1), min_thickness())
    } else {
        held(c, n - 1)
    }
}

/// The weights of those of the first `n` rings that are not held.
pub open spec fn free(c: Seq<bool>, n: int) -> Sgl
    decreases n,
{
    if n <= 0 {
        zero()
    } else if c[n - 1] {
        free(c, n - 1)
    } else {
        single::sum(free(c, n - 1), weight(n - 1))
    }
}

/// What those that are not held share.
pub open spec fn left(avail: Sgl, c: Seq<bool>) -> Sgl {
    let h = held(c, MAX_RINGS as int);
    if single::less(avail, h) {
        zero()
    } else {
        single::greater(single::difference(avail, h), zero())
    }
}

/// The share of ring `i`.
pub open spec fn share(avail: Sgl, c: Seq<bool>, i: int) -> Sgl {
    single::quotient(
        single::product(left(avail, c), weight(i)),
        single::greater(free(c, MAX_RINGS as int), tiny()),
    )
}

/// Which rings are held after one more round: those too whose share is less
/// than the least thickness.
pub open spec fn tightened(avail: Sgl, c: Seq<bool>) -> Seq<bool> {
    Seq::new(
        MAX_RINGS as nat,
        |i: int| c[i] || single::less(share(avail, c, i), min_thickness()),
    )
}

/// Which rings are held after `n` rounds.
pub open spec fn rounds(avail: Sgl, n: int) -> Seq<bool>
    decreases n,
{
    if n <= 0 {
        Seq::new(MAX_RINGS as nat, |i: int| false)
    } else {
        tightened(avail, rounds(avail, n - 1))
    }
}

/// How thick each ring is, before all have to fit.
pub open spec fn wanted(avail: Sgl) -> Seq<Sgl> {
    let c = rounds(avail, MAX_RINGS as int);
    Seq::new(
        MAX_RINGS as nat,
        |i: int|
            if c[i] {
                min_thickness()
            } else {
                share(avail, c, i)
            },
    )
}

/// The radius at which ring `i` begins.
pub open spec fn radius(hub: Sgl, t: Seq<Sgl>, i: int) -> Sgl
    decreases i,
{
    if i <= 0 {
        hub
    } else {
        single::sum(radius(hub, t, i - 1), t[i - 1])
    }
}

/// How thick each ring is: where there is too little for all, all shrink.
pub open spec fn thickness(avail: Sgl) -> Seq<Sgl> {
    let t = wanted(avail);
    let taken = radius(zero(), t, MAX_RINGS as int);
    if single::less(avail, taken) {
        Seq::new(
            MAX_RINGS as nat,
            |i: int| single::product(t[i], single::quotient(avail, taken)),
        )
    } else {
        t
    }
}

/// The gap before a ring.
pub open spec fn gap(t: Sgl) -> Sgl {
    single::lesser(single::product(t, quarter()), max_gap())
}

/// Where each ring begins and ends.
pub open spec fn bounds(hub: Sgl, rim: Sgl) -> Seq<(Sgl, Sgl)> {
    let t = thickness(available(hub, rim));
    Seq::new(
        MAX_RINGS as nat,
        |i: int|
            (single::sum(radius(hub, t, i), gap(t[i])), single::sum(radius(hub, t, i), t[i])),
    )
}

pub open spec fn bound_views(s: Seq<(Single, Single)>) -> Seq<(Sgl, Sgl)> {
    Seq::new(s.len(), |i: int| (s[i].0@, s[i].1@))
}

pub open spec fn single_views(s: Seq<Single>) -> Seq<Sgl> {
    Seq::new(s.len(), |i: int| s[i]@)
}

pub proof fn lemma_constants()
    ensures
        single::wf(zero()),
        single::wf(one()),
        single::wf(shrink()),
        single::wf(min_thickness()),
        single::wf(max_gap()),
        single::wf(quarter()),
        single::wf(tiny()),
{
    float::lemma_up_values();
}

// ------------------------------------------------------------ computing

fn available_of(hub_r: Single, max_r: Single) -> (r: Single)
    requires
        single::wf(hub_r@),
        single::wf(max_r@),
    ensures
        r@ == available(hub_r@, max_r@),
        single::wf(r@),
{
    proof {
        lemma_constants();
    }
    let one = Single::Num(Num { m: 0x80_0000, e: -23 });
    if max_r.under(hub_r) {
        one
    } else {
        max_r.minus(hub_r).max(one)
    }
}

fn weights() -> (r: Vec<Single>)
    ensures
        r@.len() == MAX_RINGS,
        forall|i: int| 0 <= i < MAX_RINGS ==> (#[trigger] r@[i])@ == weight(i) && single::wf(
            r@[i]@,
        ),
{
    proof {
        lemma_constants();
    }
    let mut out: Vec<Single> = Vec::new();
    let mut w = Single::Num(Num { m: 0x80_0000, e: -23 });
    for i in 0..MAX_RINGS
        invariant
            out@.len() == i,
            w@ == weight(i as int),
            single::wf(w@),
            single::wf(shrink()),
            forall|j: int| 0 <= j < i ==> (#[trigger] out@[j])@ == weight(j) && single::wf(
                out@[j]@,
            ),
    {
        out.push(w);
        w = w.times(Single::Num(Num { m: 11408507, e: -24 }));
    }
    out
}

fn left_of(avail: Single, c: &Vec<bool>) -> (r: Single)
    requires
        single::wf(avail@),
        c@.len() == MAX_RINGS,
    ensures
        r@ == left(avail@, c@),
        single::wf(r@),
{
    proof {
        lemma_constants();
    }
    let zero = Single::Num(Num { m: 0, e: -149 });
    let mut h = zero;
    for i in 0..MAX_RINGS
        invariant
            c@.len() == MAX_RINGS,
            h@ == held(c@, i as int),
            single::wf(h@),
            single::wf(min_thickness()),
    {
        if c[i] {
            h = h.plus(Single::Num(Num { m: 12582912, e: -22 }));
        }
    }
    if avail.under(h) {
        zero
    } else {
        avail.minus(h).max(zero)
    }
}

fn free_of(c: &Vec<bool>, w: &Vec<Single>) -> (r: Single)
    requires
        c@.len() == MAX_RINGS,
        w@.len() == MAX_RINGS,
        forall|i: int| 0 <= i < MAX_RINGS ==> (#[trigger] w@[i])@ == weight(i) && single::wf(
            w@[i]@,
        ),
    ensures
        r@ == single::greater(free(c@, MAX_RINGS as int), tiny()),
        single::wf(r@),
{
    proof {
        lemma_constants();
    }
    let mut f = Single::Num(Num { m: 0, e: -149 });
    for i in 0..MAX_RINGS
        invariant
            c@.len() == MAX_RINGS,
            w@.len() == MAX_RINGS,
            forall|j: int| 0 <= j < MAX_RINGS ==> (#[trigger] w@[j])@ == weight(j) && single::wf(
                w@[j]@,
            ),
            f@ == free(c@, i as int),
            single::wf(f@),
    {
        if !c[i] {
            f = f.plus(w[i]);
        }
    }
    f.max(Single::Num(Num { m: 8796093, e: -43 }))
}

/// How many of the first `n` are held.
pub open spec fn count(c: Seq<bool>, n: int) -> int
    decreases n,
{
    if n <= 0 {
        0
    } else {
        count(c, n - 1) + if c[n - 1] {
            1int
        } else {
            0
        }
    }
}

pub proof fn lemma_count_grows(c: Seq<bool>, d: Seq<bool>, n: int)
    requires
        0 <= n <= c.len(),
        c.len() == d.len(),
        forall|i: int| 0 <= i < n && #[trigger] c[i] ==> d[i],
    ensures
        0 <= count(c, n) <= count(d, n) <= n,
        (exists|i: int| 0 <= i < n && c[i] != d[i]) ==> count(c, n) < count(d, n),
    decreases n,
{
    if n > 0 {
        lemma_count_grows(c, d, n - 1);
    }
}

/// Once a round changes nothing no later one does.
proof fn lemma_settled(avail: Sgl, n: int, m: int)
    requires
        0 <= n <= m,
        tightened(avail, rounds(avail, n)) == rounds(avail, n),
    ensures
        rounds(avail, m) == rounds(avail, n),
    decreases m - n,
{
    if n < m {
        lemma_settled(avail, n, m - 1);
    }
}

/// The thickness that each ring wants.
fn wanted_of(avail: Single) -> (r: Vec<Single>)
    requires
        single::wf(avail@),
    ensures
        r@.len() == MAX_RINGS,
        single_views(r@) == wanted(avail@),
        forall|i: int| 0 <= i < MAX_RINGS ==> single::wf((#[trigger] r@[i])@),
{
    proof {
        lemma_constants();
    }
    let w = weights();
    let least = Single::Num(Num { m: 12582912, e: -22 });
    let mut t: Vec<Single> = Vec::new();
    let mut c: Vec<bool> = Vec::new();
    for i in 0..MAX_RINGS
        invariant
            t@.len() == i,
            c@.len() == i,
            forall|j: int| 0 <= j < i ==> !(#[trigger] c@[j]),
    {
        t.push(least);
        c.push(false);
    }
    let ghost mut n: int = 0;
    proof {
        assert(c@ == rounds(avail@, 0));
        lemma_count_grows(c@, c@, MAX_RINGS as int);
    }
    loop
        invariant
            single::wf(avail@),
            single::wf(least@),
            least@ == min_thickness(),
            w@.len() == MAX_RINGS,
            forall|i: int| 0 <= i < MAX_RINGS ==> (#[trigger] w@[i])@ == weight(i) && single::wf(
                w@[i]@,
            ),
            c@.len() == MAX_RINGS,
            t@.len() == MAX_RINGS,
            0 <= n <= count(c@, MAX_RINGS as int) <= MAX_RINGS,
            c@ == rounds(avail@, n),
            forall|i: int| 0 <= i < MAX_RINGS && c@[i] ==> (#[trigger] t@[i])@ == min_thickness(),
        decreases MAX_RINGS - count(c@, MAX_RINGS as int),
    {
        let rest = left_of(avail, &c);
        let f = free_of(&c, &w);
        let mut changed = false;
        let ghost start = c@;
        for i in 0..MAX_RINGS
            invariant
                single::wf(avail@),
                single::wf(least@),
                least@ == min_thickness(),
                w@.len() == MAX_RINGS,
                forall|j: int|
                    0 <= j < MAX_RINGS ==> (#[trigger] w@[j])@ == weight(j) && single::wf(w@[j]@),
                c@.len() == MAX_RINGS,
                t@.len() == MAX_RINGS,
                start.len() == MAX_RINGS,
                rest@ == left(avail@, start),
                single::wf(rest@),
                f@ == single::greater(free(start, MAX_RINGS as int), tiny()),
                single::wf(f@),
                forall|j: int| 0 <= j < i ==> #[trigger] c@[j] == tightened(avail@, start)[j],
                forall|j: int| i <= j < MAX_RINGS ==> #[trigger] c@[j] == start[j],
                changed <==> exists|j: int| 0 <= j < i && #[trigger] start[j] != c@[j],
                forall|j: int|
                    0 <= j < MAX_RINGS && c@[j] ==> (#[trigger] t@[j])@ == min_thickness(),
                forall|j: int|
                    0 <= j < i && !c@[j] ==> (#[trigger] t@[j])@ == share(avail@, start, j)
                        && single::wf(t@[j]@),
        {
            let ghost prev = c@;
            if !c[i] {
                let ti = rest.times(w[i]).over(f);
                proof {
                    assert(ti@ == share(avail@, start, i as int));
                }
                if ti.under(least) {
                    t.set(i, least);
                    c.set(i, true);
                    changed = true;
                    proof {
                        assert(start[i as int] != c@[i as int]);
                    }
                } else {
                    t.set(i, ti);
                }
            }
            proof {
                assert(forall|j: int| 0 <= j < i ==> #[trigger] c@[j] == prev[j]);
                if exists|j: int| 0 <= j < i + 1 && #[trigger] start[j] != c@[j] {
                    let j = choose|j: int| 0 <= j < i + 1 && #[trigger] start[j] != c@[j];
                    if j < i {
                        assert(start[j] != prev[j]);
                    }
                }
                if exists|j: int| 0 <= j < i && #[trigger] start[j] != prev[j] {
                    let j = choose|j: int| 0 <= j < i && #[trigger] start[j] != prev[j];
                    assert(start[j] != c@[j]);
                }
            }
        }
        proof {
            assert(c@ == tightened(avail@, start));
            assert(rounds(avail@, n + 1) == tightened(avail@, rounds(avail@, n)));
            lemma_count_grows(start, c@, MAX_RINGS as int);
            if !changed {
                assert(c@ == start);
                lemma_settled(avail@, n, MAX_RINGS as int);
                assert(single_views(t@) == wanted(avail@));
            }
            n = n + 1;
        }
        if !changed {
            return t;
        }
    }
}

fn thickness_of(avail: Single) -> (r: Vec<Single>)
    requires
        single::wf(avail@),
    ensures
        r@.len() == MAX_RINGS,
        single_views(r@) == thickness(avail@),
        forall|i: int| 0 <= i < MAX_RINGS ==> single::wf((#[trigger] r@[i])@),
{
    proof {
        lemma_constants();
    }
    let t = wanted_of(avail);
    let ghost want = single_views(t@);
    let mut taken = Single::Num(Num { m: 0, e: -149 });
    for i in 0..MAX_RINGS
        invariant
            t@.len() == MAX_RINGS,
            want == single_views(t@),
            forall|j: int| 0 <= j < MAX_RINGS ==> single::wf((#[trigger] t@[j])@),
            taken@ == radius(zero(), want, i as int),
            single::wf(taken@),
    {
        taken = taken.plus(t[i]);
    }
    if !avail.under(taken) {
        return t;
    }
    let k = avail.over(taken);
    let mut out: Vec<Single> = Vec::new();
    for i in 0..MAX_RINGS
        invariant
            t@.len() == MAX_RINGS,
            out@.len() == i,
            want == single_views(t@),
            forall|j: int| 0 <= j < MAX_RINGS ==> single::wf((#[trigger] t@[j])@),
            single::wf(k@),
            forall|j: int|
                0 <= j < i ==> (#[trigger] out@[j])@ == single::product(want[j], k@) && single::wf(
                    out@[j]@,
                ),
    {
        out.push(t[i].times(k));
    }
    proof {
        assert(single_views(out@) == thickness(avail@));
    }
    out
}

/// Where each ring begins and ends, between the hub and the rim.
pub fn ring_bounds(hub_r: Single, max_r: Single) -> (r: Vec<(Single, Single)>)
    requires
        single::wf(hub_r@),
        single::wf(max_r@),
    ensures
        bound_views(r@) == bounds(hub_r@, max_r@),
        forall|i: int|
            0 <= i < MAX_RINGS ==> single::wf((#[trigger] r@[i]).0@) && single::wf(r@[i].1@),
{
    proof {
        lemma_constants();
    }
    let t = thickness_of(available_of(hub_r, max_r));
    let ghost thick = single_views(t@);
    let mut out: Vec<(Single, Single)> = Vec::new();
    let mut r = hub_r;
    for i in 0..MAX_RINGS
        invariant
            t@.len() == MAX_RINGS,
            thick == single_views(t@),
            forall|j: int| 0 <= j < MAX_RINGS ==> single::wf((#[trigger] t@[j])@),
            single::wf(quarter()),
            single::wf(max_gap()),
            out@.len() == i,
            r@ == radius(hub_r@, thick, i as int),
            single::wf(r@),
            forall|j: int|
                0 <= j < i ==> {
                    &&& (#[trigger] out@[j]).0@ == single::sum(
                        radius(hub_r@, thick, j),
                        gap(thick[j]),
                    )
                    &&& out@[j].1@ == single::sum(radius(hub_r@, thick, j), thick[j])
                    &&& single::wf(out@[j].0@)
                    &&& single::wf(out@[j].1@)
                },
    {
        let ti = t[i];
        let g = ti.times(Single::Num(Num { m: 0x80_0000, e: -25 })).min(
            Single::Num(Num { m: 0x80_0000, e: -22 }),
        );
        let end = r.plus(ti);
        out.push((r.plus(g), end));
        r = end;
    }
    proof {
        assert(bound_views(out@) == bounds(hub_r@, max_r@));
    }
    out
}

// ------------------------------------------------------------ laws

pub proof fn lemma_weight(i: int)
    ensures
        weight(i) is Num,
        single::wf(weight(i)),
        i > 0 ==> single::at_most(weight(i), weight(i - 1)),
    decreases i,
{
    lemma_constants();
    if i > 0 {
        lemma_weight(i - 1);
        float::lemma_up_values();
        single::lemma_product_below(weight(i - 1), shrink()->Num_0);
        single::lemma_product_wf(weight(i - 1), shrink());
    }
}

pub proof fn lemma_weight_mono(i: int, j: int)
    requires
        0 <= i <= j,
    ensures
        single::at_most(weight(j), weight(i)),
    decreases j - i,
{
    lemma_weight(i);
    lemma_weight(j);
    if i < j {
        lemma_weight_mono(i, j - 1);
        lemma_weight(j - 1);
        single::lemma_at_most_trans(weight(j), weight(j - 1), weight(i));
    } else {
        float::lemma_less_canonical(float::binary32(), weight(i)->Num_0, weight(i)->Num_0);
    }
}

proof fn lemma_held_wf(c: Seq<bool>, n: int)
    ensures
        single::wf(held(c, n)),
        held(c, n) !is Nan,
    decreases n,
{
    lemma_constants();
    if n > 0 {
        lemma_held_wf(c, n - 1);
        single::lemma_sum_wf(held(c, n - 1), min_thickness());
    }
}

pub proof fn lemma_free_wf(c: Seq<bool>, n: int)
    ensures
        single::wf(free(c, n)),
        free(c, n) !is Nan,
    decreases n,
{
    lemma_constants();
    if n > 0 {
        lemma_free_wf(c, n - 1);
        lemma_weight(n - 1);
        single::lemma_sum_wf(free(c, n - 1), weight(n - 1));
    }
}

pub proof fn lemma_free_finite(c: Seq<bool>, n: int)
    requires
        0 <= n <= MAX_RINGS,
    ensures
        free(c, n) matches Sgl::Num(f) && f.e <= -23 + 2 * n,
    decreases n,
{
    if n > 0 {
        lemma_free_finite(c, n - 1);
        lemma_free_wf(c, n - 1);
        lemma_weight(n - 1);
        lemma_weight_mono(0, n - 1);
        let w = weight(n - 1)->Num_0;
        float::lemma_up_values();
        float::lemma_less_canonical(float::binary32(), one()->Num_0, w);
        assert(w.e <= -23);
        single::lemma_sum_finite(free(c, n - 1)->Num_0, w, -23 + 2 * (n - 1));
    }
}

/// The radius is never a NaN where no thickness is.
proof fn lemma_radius_wf(hub: Sgl, t: Seq<Sgl>, n: int)
    requires
        single::wf(hub),
        hub !is Nan,
        0 <= n <= t.len(),
        forall|i: int| 0 <= i < n ==> single::wf(#[trigger] t[i]) && t[i] !is Nan,
    ensures
        single::wf(radius(hub, t, n)),
        radius(hub, t, n) !is Nan,
    decreases n,
{
    if n > 0 {
        lemma_radius_wf(hub, t, n - 1);
        single::lemma_sum_wf(radius(hub, t, n - 1), t[n - 1]);
    }
}

pub proof fn lemma_left(avail: Sgl, c: Seq<bool>)
    requires
        single::wf(avail),
        avail is Num,
    ensures
        left(avail, c) is Num,
        single::wf(left(avail, c)),
{
    lemma_constants();
    let h = held(c, MAX_RINGS as int);
    lemma_held_wf(c, MAX_RINGS as int);
    if !single::less(avail, h) {
        assert(h is Num);
        single::lemma_difference_below(avail, h);
        single::lemma_difference_wf(avail, h);
    }
}

/// The share of a ring further out is not greater.
proof fn lemma_share(avail: Sgl, c: Seq<bool>, i: int, j: int)
    requires
        single::wf(avail),
        avail is Num,
        0 <= i <= j,
    ensures
        single::at_most(share(avail, c, j), share(avail, c, i)),
        single::wf(share(avail, c, i)),
        single::wf(share(avail, c, j)),
{
    lemma_constants();
    let l = left(avail, c);
    let f = single::greater(free(c, MAX_RINGS as int), tiny());
    lemma_left(avail, c);
    lemma_free_wf(c, MAX_RINGS as int);
    lemma_free_finite(c, MAX_RINGS as int);
    lemma_weight(i);
    lemma_weight(j);
    lemma_weight_mono(i, j);
    single::lemma_product_mono(l, weight(j), weight(i));
    single::lemma_product_wf(l, weight(j));
    single::lemma_product_wf(l, weight(i));
    assert(f->Num_0.m > 0) by {
        float::lemma_up_values();
        let u = free(c, MAX_RINGS as int)->Num_0;
        float::lemma_less_canonical(float::binary32(), u, tiny()->Num_0);
        if f != tiny() {
            assert(!(u.e < -43));
            assert(u.m >= float::up(23));
        }
    }
    single::lemma_quotient_mono(single::product(l, weight(j)), single::product(l, weight(i)), f);
    single::lemma_quotient_wf(single::product(l, weight(j)), f);
    single::lemma_quotient_wf(single::product(l, weight(i)), f);
}

/// From a held ring on all are held.
pub proof fn lemma_held_outside(avail: Sgl, n: int, i: int, j: int)
    requires
        single::wf(avail),
        avail is Num,
        0 <= i <= j < MAX_RINGS,
        rounds(avail, n)[i],
    ensures
        rounds(avail, n)[j],
    decreases n,
{
    if n > 0 {
        let c = rounds(avail, n - 1);
        if c[i] {
            lemma_held_outside(avail, n - 1, i, j);
        } else {
            lemma_constants();
            lemma_share(avail, c, i, j);
            single::lemma_less_trans(share(avail, c, j), share(avail, c, i), min_thickness());
        }
    }
}

pub proof fn lemma_rounds_count(avail: Sgl, n: int)
    requires
        0 <= n,
    ensures
        rounds(avail, n).len() == MAX_RINGS,
        tightened(avail, rounds(avail, n)) == rounds(avail, n) || count(
            rounds(avail, n),
            MAX_RINGS as int,
        ) >= n,
    decreases n,
{
    let c = rounds(avail, n);
    lemma_count_grows(c, c, MAX_RINGS as int);
    if n > 0 {
        lemma_rounds_count(avail, n - 1);
        let b = rounds(avail, n - 1);
        if b != c {
            lemma_count_grows(b, c, MAX_RINGS as int);
            assert(exists|i: int| 0 <= i < MAX_RINGS && b[i] != c[i]) by {
                if forall|i: int| 0 <= i < MAX_RINGS ==> b[i] == c[i] {
                    assert(b =~= c);
                }
            }
        }
    }
}

proof fn lemma_count_all(c: Seq<bool>, n: int)
    requires
        0 <= n <= c.len(),
        count(c, n) >= n,
    ensures
        forall|i: int| 0 <= i < n ==> #[trigger] c[i],
    decreases n,
{
    if n > 0 {
        lemma_count_grows(c, c, n - 1);
        lemma_count_all(c, n - 1);
    }
}

/// After as many rounds as there are rings one more changes nothing.
proof fn lemma_last_round(avail: Sgl)
    ensures
        tightened(avail, rounds(avail, MAX_RINGS as int)) == rounds(avail, MAX_RINGS as int),
{
    let c = rounds(avail, MAX_RINGS as int);
    lemma_rounds_count(avail, MAX_RINGS as int);
    if tightened(avail, c) != c {
        lemma_count_all(c, MAX_RINGS as int);
        assert(tightened(avail, c) =~= c);
    }
}

/// A number below `2^64`.
pub open spec fn modest(u: Sgl) -> bool {
    &&& single::wf(u)
    &&& u matches Sgl::Num(a) && a.e <= 40
}

/// The rings want to be thinner toward the rim, but none less than the least
/// thickness.
pub proof fn law_wanted(avail: Sgl, i: int, j: int)
    requires
        single::wf(avail),
        avail is Num,
        0 <= i <= j < MAX_RINGS,
    ensures
        single::at_most(wanted(avail)[j], wanted(avail)[i]),
        single::at_most(min_thickness(), wanted(avail)[j]),
        single::wf(wanted(avail)[j]),
{
    lemma_constants();
    let c = rounds(avail, MAX_RINGS as int);
    lemma_last_round(avail);
    lemma_share(avail, c, i, j);
    float::lemma_less_canonical(
        float::binary32(),
        min_thickness()->Num_0,
        min_thickness()->Num_0,
    );
    assert(tightened(avail, c)[i] == c[i]);
    assert(tightened(avail, c)[j] == c[j]);
    if c[i] {
        lemma_held_outside(avail, MAX_RINGS as int, i, j);
    }
}

proof fn lemma_thickness_wf(avail: Sgl)
    requires
        modest(avail),
    ensures
        forall|i: int|
            0 <= i < MAX_RINGS ==> single::wf(#[trigger] thickness(avail)[i]) && thickness(
                avail,
            )[i] !is Nan,
{
    lemma_constants();
    let t = wanted(avail);
    let taken = radius(zero(), t, MAX_RINGS as int);
    lemma_taken_finite(avail, MAX_RINGS as int);
    assert forall|i: int| 0 <= i < MAX_RINGS implies single::wf(#[trigger] t[i]) && t[i]
        !is Nan by {
        law_wanted(avail, i, i);
    }
    lemma_radius_wf(zero(), t, MAX_RINGS as int);
    if single::less(avail, taken) {
        let k = single::quotient(avail, taken);
        single::lemma_quotient_finite(avail, taken);
        single::lemma_quotient_wf(avail, taken);
        assert forall|i: int| 0 <= i < MAX_RINGS implies single::wf(
            #[trigger] thickness(avail)[i],
        ) && thickness(avail)[i] !is Nan by {
            lemma_term_finite(t, i, MAX_RINGS as int);
            single::lemma_product_wf(t[i], k);
        }
    }
}

/// By a normal number not below a millionth a number grows by less than
/// `2^22`.
proof fn lemma_quotient_by(a: float::Flo, b: float::Flo)
    requires
        single::wf(Sgl::Num(a)),
        single::wf(Sgl::Num(b)),
        b.m >= 0x80_0000,
        b.e >= -43,
        a.e <= 40,
    ensures
        single::quotient(Sgl::Num(a), Sgl::Num(b)) matches Sgl::Num(q) && q.e <= a.e + 21,
{
    let top = float::Flo { m: 0x80_0000, e: a.e + 21 };
    let p = float::up(-b.e - 21);
    let q = float::up(b.e + 21);
    float::lemma_up_values();
    float::lemma_up_pos(-b.e - 21);
    float::lemma_up_pos(b.e + 21);
    float::lemma_up_mono(-b.e - 21, 22);
    float::lemma_up_step(22);
    assert((a.m * p) * 1 <= (0x80_0000 * q) * b.m) by (nonlinear_arith)
        requires
            0 <= a.m < 0x100_0000,
            1 <= p <= 0x40_0000,
            q >= 1,
            b.m >= 0x80_0000,
    ;
    single::lemma_round_exact(top);
    single::lemma_round_mono(a.m, b.m, a.e - b.e, top.m, 1, top.e);
    single::lemma_round_wf(a.m, b.m, a.e - b.e);
    let r = single::round(a.m, b.m, a.e - b.e);
    float::lemma_less_canonical(float::binary32(), top, r->Num_0);
}

pub proof fn lemma_wanted_finite(avail: Sgl, i: int)
    requires
        modest(avail),
        0 <= i < MAX_RINGS,
    ensures
        wanted(avail)[i] matches Sgl::Num(t) && t.e <= 61,
        single::at_most(one(), avail) ==> wanted(avail)[i]->Num_0.e <= avail->Num_0.e + 21,
{
    lemma_constants();
    float::lemma_up_values();
    let format = float::binary32();
    let c = rounds(avail, MAX_RINGS as int);
    let l = left(avail, c);
    let w = weight(i);
    let f = single::greater(free(c, MAX_RINGS as int), tiny());
    lemma_left(avail, c);
    lemma_free_wf(c, MAX_RINGS as int);
    lemma_free_finite(c, MAX_RINGS as int);
    lemma_weight(i);
    lemma_weight_mono(0, i);
    float::lemma_less_canonical(format, one()->Num_0, w->Num_0);
    float::lemma_less_canonical(format, avail->Num_0, one()->Num_0);
    assert(l->Num_0.e <= avail->Num_0.e || l->Num_0.e == -149) by {
        let h = held(c, MAX_RINGS as int);
        lemma_held_wf(c, MAX_RINGS as int);
        if !single::less(avail, h) {
            single::lemma_difference_below(avail, h);
            single::lemma_difference_wf(avail, h);
            float::lemma_less_canonical(
                format,
                avail->Num_0,
                single::difference(avail, h)->Num_0,
            );
        }
    }
    float::lemma_up_mono(23, -w->Num_0.e);
    if w->Num_0.e < -23 {
        float::lemma_up_mono(24, -w->Num_0.e);
    }
    single::lemma_product_below(l, w->Num_0);
    single::lemma_product_wf(l, w);
    let p = single::product(l, w);
    float::lemma_less_canonical(format, l->Num_0, p->Num_0);
    float::lemma_less_canonical(format, free(c, MAX_RINGS as int)->Num_0, tiny()->Num_0);
    lemma_quotient_by(p->Num_0, f->Num_0);
}

pub proof fn lemma_taken_finite(avail: Sgl, n: int)
    requires
        modest(avail),
        0 <= n <= MAX_RINGS,
    ensures
        radius(zero(), wanted(avail), n) matches Sgl::Num(r) && r.e <= 61 + 2 * n,
        single::at_most(one(), avail) ==> radius(zero(), wanted(avail), n)->Num_0.e
            <= avail->Num_0.e + 21 + 2 * n,
        single::wf(radius(zero(), wanted(avail), n)),
    decreases n,
{
    lemma_constants();
    if n > 0 {
        lemma_taken_finite(avail, n - 1);
        lemma_wanted_finite(avail, n - 1);
        law_wanted(avail, n - 1, n - 1);
        let t = wanted(avail);
        single::lemma_sum_finite(
            radius(zero(), t, n - 1)->Num_0,
            t[n - 1]->Num_0,
            61 + 2 * (n - 1),
        );
        if single::at_most(one(), avail) {
            single::lemma_sum_finite(
                radius(zero(), t, n - 1)->Num_0,
                t[n - 1]->Num_0,
                avail->Num_0.e + 21 + 2 * (n - 1),
            );
        }
        single::lemma_sum_wf(radius(zero(), t, n - 1), t[n - 1]);
    } else {
        float::lemma_up_values();
        float::lemma_less_canonical(float::binary32(), avail->Num_0, one()->Num_0);
    }
}

/// Where a sum is finite its terms are.
proof fn lemma_term_finite(t: Seq<Sgl>, i: int, n: int)
    requires
        0 <= i < n <= t.len(),
        radius(zero(), t, n) is Num,
    ensures
        t[i] is Num,
    decreases n,
{
    if i < n - 1 {
        lemma_term_finite(t, i, n - 1);
    }
}

/// Where the rings want more than there is, each is as thick as it wants times
/// the share of that which there is; else it is as thick as it wants.
pub proof fn law_thickness_scaled(avail: Sgl, i: int)
    requires
        0 <= i < MAX_RINGS,
    ensures
        ({
            let t = wanted(avail);
            let taken = radius(zero(), t, MAX_RINGS as int);
            thickness(avail)[i] == if single::less(avail, taken) {
                single::product(t[i], single::quotient(avail, taken))
            } else {
                t[i]
            }
        }),
{
}

/// The rings are thinner toward the rim, and where they are not shrunk none is
/// thinner than the least thickness.
pub proof fn law_thickness(avail: Sgl, i: int, j: int)
    requires
        modest(avail),
        0 <= i <= j < MAX_RINGS,
    ensures
        single::at_most(thickness(avail)[j], thickness(avail)[i]),
        !single::less(avail, radius(zero(), wanted(avail), MAX_RINGS as int)) ==> single::at_most(
            min_thickness(),
            thickness(avail)[j],
        ),
{
    lemma_constants();
    law_wanted(avail, i, j);
    law_wanted(avail, i, i);
    let t = wanted(avail);
    let taken = radius(zero(), t, MAX_RINGS as int);
    lemma_taken_finite(avail, MAX_RINGS as int);
    assert forall|i: int| 0 <= i < MAX_RINGS implies single::wf(#[trigger] t[i]) && t[i]
        !is Nan by {
        law_wanted(avail, i, i);
    }
    lemma_radius_wf(zero(), t, MAX_RINGS as int);
    if single::less(avail, taken) {
        let k = single::quotient(avail, taken);
        single::lemma_quotient_finite(avail, taken);
        single::lemma_quotient_wf(avail, taken);
        lemma_term_finite(t, i, MAX_RINGS as int);
        lemma_term_finite(t, j, MAX_RINGS as int);
        single::lemma_product_mono(k, t[j], t[i]);
        single::lemma_product_comm(k, t[j]);
        single::lemma_product_comm(k, t[i]);
    }
}

/// There is at least 1 to share, and not more than reaches to the rim.
pub proof fn lemma_available(hub: Sgl, rim: Sgl)
    requires
        modest(hub),
        modest(rim),
    ensures
        modest(available(hub, rim)),
        single::at_most(one(), available(hub, rim)),
{
    let format = float::binary32();
    lemma_constants();
    float::lemma_less_canonical(format, one()->Num_0, one()->Num_0);
    if !single::less(rim, hub) {
        let d = single::difference(rim, hub);
        single::lemma_difference_below(rim, hub);
        single::lemma_difference_wf(rim, hub);
        float::lemma_less_canonical(format, rim->Num_0, d->Num_0);
        float::lemma_less_canonical(format, d->Num_0, d->Num_0);
        single::lemma_greater_mono(d, d, one());
    }
}

/// Each ring ends no nearer than it begins, and begins no nearer than the last
/// one ends, the first no nearer than the hub.
pub proof fn law_rings_apart(hub: Sgl, rim: Sgl, i: int)
    requires
        modest(hub),
        modest(rim),
        0 <= i < MAX_RINGS,
    ensures
        single::at_most(bounds(hub, rim)[i].0, bounds(hub, rim)[i].1),
        i == 0 ==> single::at_most(hub, bounds(hub, rim)[0].0),
        i > 0 ==> single::at_most(bounds(hub, rim)[i - 1].1, bounds(hub, rim)[i].0),
{
    lemma_constants();
    let avail = available(hub, rim);
    lemma_available(hub, rim);
    let t = thickness(avail);
    lemma_thickness_wf(avail);
    lemma_radius_wf(hub, t, i);
    let r = radius(hub, t, i);
    let g = gap(t[i]);
    single::lemma_product_wf(t[i], quarter());
    single::lemma_sum_above(r, g);
    assert(single::at_most(g, t[i])) by {
        let q = single::product(t[i], quarter());
        if t[i] is Num {
            float::lemma_up_values();
            float::lemma_up_mono(24, 25);
            single::lemma_product_below(t[i], quarter()->Num_0);
            if g == max_gap() && g != q {
                single::lemma_less_asym(max_gap(), q);
                single::lemma_at_most_trans(max_gap(), q, t[i]);
            }
        }
    }
    single::lemma_sum_mono(r, g, t[i]);
}

} // verus!
