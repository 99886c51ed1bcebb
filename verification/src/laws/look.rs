//! What is shown of a directory, and how large a child has to be for it.

use vstd::prelude::*;

use crate::double;
use crate::float;
use crate::float::Flo;
use crate::laws::chart;
use crate::layout;
use crate::layout::SectorV;
use crate::look;
use crate::nav;
use crate::paths;
use crate::side;
use crate::side::Scope;
use crate::single;
use crate::single::Sgl;
use crate::tree;
use crate::tree::Tree;

verus! {

// ------------------------------------------------------------ binary64

/// In multiples of the least binary64 number.
pub open spec fn grains(u: Flo) -> int {
    u.m * float::up(u.e + 1074)
}

proof fn lemma_less_grains(u: Flo, v: Flo)
    requires
        u.e >= -1074,
        v.e >= -1074,
    ensures
        float::less(u, v) <==> grains(u) < grains(v),
{
    let x = float::up(u.e - v.e);
    let y = float::up(v.e - u.e);
    if u.e >= v.e {
        let c = float::up(v.e + 1074);
        float::lemma_up_pos(v.e + 1074);
        float::lemma_up_add(u.e - v.e, v.e + 1074);
        float::lemma_up_pos(0);
        assert(y == 1);
        assert(u.m * (x * c) == (u.m * x) * c) by (nonlinear_arith);
        assert((u.m * x < v.m * y) <==> ((u.m * x) * c < (v.m * y) * c)) by (nonlinear_arith)
            requires
                c >= 1,
        ;
    } else {
        let c = float::up(u.e + 1074);
        float::lemma_up_pos(u.e + 1074);
        float::lemma_up_add(v.e - u.e, u.e + 1074);
        float::lemma_up_pos(0);
        assert(x == 1);
        assert(v.m * (y * c) == (v.m * y) * c) by (nonlinear_arith);
        assert((u.m * x < v.m * y) <==> ((u.m * x) * c < (v.m * y) * c)) by (nonlinear_arith)
            requires
                c >= 1,
        ;
    }
}

/// A whole number in binary64 is off by one part in `2^53` at most.
pub proof fn lemma_double(n: int)
    requires
        n >= 0,
    ensures
        ({
            let d = double::double_of(n);
            let t = n * float::up(1074);
            let p = 0x20_0000_0000_0000int;
            &&& p * t - t <= p * grains(d) <= p * t + t
            &&& float::canonical(float::binary64(), d)
            &&& d.m >= 0
            &&& n > 0 ==> d.m > 0
            &&& float::up(1074) >= 1
        }),
{
    float::lemma_up_values();
    float::lemma_up_pos(1074);
    float::lemma_nearest_close(float::binary64(), n, 1, 0);
    float::lemma_nearest_canonical(float::binary64(), n, 1, 0);
    if n > 0 {
        double::lemma_positive(n);
    }
}

// ------------------------------------------------------------ smaller items

/// A child is one of the smaller items where it has less than about a 50th
/// of the directory.
pub proof fn law_small(size: int, of: int)
    requires
        size >= 0,
        of >= 1,
    ensures
        51 * size <= of ==> nav::small(size, of),
        49 * size >= of ==> !nav::small(size, of),
{
    let d = double::double_of(size);
    let v = double::double_of(of);
    let c = nav::small_frac();
    let m = double::double_mul(v, c);
    let f = float::binary64();
    let u = float::up(1074);
    let p = 0x20_0000_0000_0000int;
    lemma_double(size);
    lemma_double(of);
    float::lemma_up_values();
    let n = v.m * c.m;
    assert(n >= 0) by (nonlinear_arith)
        requires
            n == v.m * c.m,
            v.m >= 0,
            c.m >= 0,
    ;
    lemma_double_least(of);
    float::lemma_nearest_close(f, n, 1, v.e + c.e);
    float::lemma_nearest_canonical(f, n, 1, v.e + c.e);
    lemma_less_grains(d, m);
    // the product, in grains: (v in grains) * c.m / 2^58
    let x = v.e - 58 + 1074;
    let t = n * float::up(x);
    float::lemma_up_add(58, x);
    float::lemma_up_pos(x);
    float::lemma_up_step(53);
    float::lemma_up_step(54);
    float::lemma_up_step(55);
    float::lemma_up_step(56);
    float::lemma_up_step(57);
    let s = 0x400_0000_0000_0000int;
    assert(float::up(58) == s);
    let y = float::up(x);
    assert(s * t == c.m * grains(v)) by (nonlinear_arith)
        requires
            t == (v.m * c.m) * y,
            grains(v) == v.m * (s * y),
    ;
    let gd = grains(d);
    let gm = grains(m);
    let gv = grains(v);
    let a = size * u;
    let b = of * u;
    assert(p * t - t <= p * gm <= p * t + t);
    assert(b >= 1) by (nonlinear_arith)
        requires
            b == of * u,
            of >= 1,
            u >= 1,
    ;
    assert(a >= 0) by (nonlinear_arith)
        requires
            a == size * u,
            size >= 0,
            u >= 1,
    ;
    if 51 * size <= of {
        assert(51 * a <= b) by (nonlinear_arith)
            requires
                51 * size <= of,
                a == size * u,
                b == of * u,
                u >= 1,
        ;
        lemma_less_far(a, b, gd, gv, t, gm);
    }
    if 49 * size >= of {
        assert(49 * a >= b) by (nonlinear_arith)
            requires
                49 * size >= of,
                a == size * u,
                b == of * u,
                u >= 1,
        ;
        lemma_more_far(a, b, gd, gv, t, gm);
    }
}

proof fn lemma_less_far(a: int, b: int, d: int, v: int, t: int, m: int)
    requires
        a >= 0,
        b >= 1,
        51 * a <= b,
        0x20_0000_0000_0000 * d <= 0x20_0000_0000_0000 * a + a,
        0x20_0000_0000_0000 * v >= 0x20_0000_0000_0000 * b - b,
        0x400_0000_0000_0000 * t == 5764607523034235 * v,
        0x20_0000_0000_0000 * m >= 0x20_0000_0000_0000 * t - t,
    ensures
        d < m,
{
}

proof fn lemma_more_far(a: int, b: int, d: int, v: int, t: int, m: int)
    requires
        a >= 0,
        b >= 1,
        49 * a >= b,
        0x20_0000_0000_0000 * d >= 0x20_0000_0000_0000 * a - a,
        0x20_0000_0000_0000 * v <= 0x20_0000_0000_0000 * b + b,
        0x400_0000_0000_0000 * t == 5764607523034235 * v,
        0x20_0000_0000_0000 * m <= 0x20_0000_0000_0000 * t + t,
    ensures
        d >= m,
{
}

/// A whole number of at least one is no less than one in binary64.
pub proof fn lemma_double_least(n: int)
    requires
        n >= 1,
    ensures
        double::double_of(n).m >= 0x10_0000_0000_0000,
        double::double_of(n).e >= -52,
{
    let f = float::binary64();
    let one = Flo { m: 0x10_0000_0000_0000, e: -52 };
    float::lemma_up_values();
    float::lemma_up_unit(1);
    float::lemma_up_unit(n);
    float::lemma_nearest_exact(f, one);
    float::lemma_up_pos(0);
    assert(float::ratio_le(one.m, 1, one.e, n, 1, 0)) by {
        assert((one.m * float::up(-52)) * 1 <= (n * float::up(52)) * 1) by (nonlinear_arith)
            requires
                one.m == 0x10_0000_0000_0000,
                float::up(-52) == 1,
                float::up(52) == 0x10_0000_0000_0000,
                n >= 1,
        ;
    }
    float::lemma_nearest_mono(f, one.m, 1, one.e, n, 1, 0);
    float::lemma_nearest_canonical(f, n, 1, 0);
    float::lemma_less_canonical(f, double::double_of(n), one);
}

// ------------------------------------------------------------ slices

/// A ratio of two binary64 numbers that stand for whole ones.
proof fn lemma_ratio(size: int, of: int)
    requires
        size >= 0,
        of >= 1,
    ensures
        ({
            let d = double::double_of(size);
            let v = double::double_of(of);
            &&& 300 * size >= of ==> float::ratio_le(209, 1, -16, d.m, v.m, d.e - v.e)
            &&& 330 * size <= of ==> float::ratio_le(d.m, v.m, d.e - v.e, 205, 1, -16)
            &&& v.m > 0
            &&& d.m >= 0
        }),
{
    let d = double::double_of(size);
    let v = double::double_of(of);
    let u = float::up(1074);
    lemma_double(size);
    lemma_double(of);
    let (a, b) = (size * u, of * u);
    let (gd, gv) = (grains(d), grains(v));
    assert(b >= 1) by (nonlinear_arith)
        requires
            b == of * u,
            of >= 1,
            u >= 1,
    ;
    assert(a >= 0) by (nonlinear_arith)
        requires
            a == size * u,
            size >= 0,
            u >= 1,
    ;
    if 300 * size >= of {
        assert(300 * a >= b) by (nonlinear_arith)
            requires
                300 * size >= of,
                a == size * u,
                b == of * u,
                u >= 1,
        ;
        assert(209 * gv <= 65536 * gd);
    }
    if 330 * size <= of {
        assert(330 * a <= b) by (nonlinear_arith)
            requires
                330 * size <= of,
                a == size * u,
                b == of * u,
                u >= 1,
        ;
        assert(65536 * gd <= 205 * gv);
    }
    lemma_grains_ratio(d, v, 209);
    lemma_grains_ratio(d, v, 205);
}

proof fn lemma_grains_ratio(d: Flo, v: Flo, k: int)
    requires
        d.e >= -1074,
        v.e >= -1074,
    ensures
        k * grains(v) <= 65536 * grains(d) ==> float::ratio_le(k, 1, -16, d.m, v.m, d.e - v.e),
        65536 * grains(d) <= k * grains(v) ==> float::ratio_le(d.m, v.m, d.e - v.e, k, 1, -16),
{
    let x = d.e + 16 - v.e;
    let y = float::up(x);
    let z = float::up(-x);
    float::lemma_up_pos(0);
    lemma_powers();
    float::lemma_up_add(16, d.e + 1074);
    let g = d.m * float::up(d.e + 16 + 1074);
    assert(g == 65536 * grains(d)) by (nonlinear_arith)
        requires
            g == d.m * (65536 * float::up(d.e + 1074)),
            grains(d) == d.m * float::up(d.e + 1074),
    ;
    let c = if x >= 0 {
        float::up(v.e + 1074)
    } else {
        float::up(d.e + 16 + 1074)
    };
    if x >= 0 {
        float::lemma_up_add(x, v.e + 1074);
        float::lemma_up_pos(v.e + 1074);
        assert(z == 1);
    } else {
        float::lemma_up_add(-x, d.e + 16 + 1074);
        float::lemma_up_pos(d.e + 16 + 1074);
        assert(y == 1);
    }
    assert(g == (d.m * y) * c) by (nonlinear_arith)
        requires
            g == d.m * (y * c),
    ;
    assert(grains(v) == (v.m * z) * c) by (nonlinear_arith)
        requires
            grains(v) == v.m * (z * c),
    ;
    let (p, q) = (d.m * y, v.m * z);
    assert((k * z) * v.m == k * q) by (nonlinear_arith)
        requires
            q == v.m * z,
    ;
    assert(k * (q * c) <= p * c ==> k * q <= p) by (nonlinear_arith)
        requires
            c >= 1,
    ;
    assert(p * c <= k * (q * c) ==> p <= k * q) by (nonlinear_arith)
        requires
            c >= 1,
    ;
}

proof fn lemma_powers()
    ensures
        float::up(16) == 65536,
        float::up(45) == 0x2000_0000_0000,
{
    float::lemma_up_values();
    float::lemma_up_add(16, 7);
    float::lemma_up_add(45, 7);
    let (x, y) = (float::up(16), float::up(45));
    assert(x * float::up(7) == 128 * x && y * float::up(7) == 128 * y) by (nonlinear_arith)
        requires
            float::up(7) == 128,
    ;
}

/// `k / 65536` is a number of both formats.
proof fn lemma_fixed(k: int)
    requires
        128 <= k < 256,
    ensures
        single::narrowed(float::nearest(float::binary64(), k, 1, -16)) == Sgl::Num(
            Flo { m: 65536 * k, e: -32 },
        ),
        float::canonical(float::binary64(), float::nearest(float::binary64(), k, 1, -16)),
        float::nearest(float::binary64(), k, 1, -16) == (Flo { m: k * 0x2000_0000_0000, e: -61 }),
{
    let f = float::binary64();
    let g = float::binary32();
    float::lemma_up_values();
    lemma_powers();
    let wide = Flo { m: k * 0x2000_0000_0000, e: -61 };
    let narrow = Flo { m: k * 65536, e: -32 };
    float::lemma_nearest_exact(f, wide);
    float::lemma_nearest_shift(f, k, 1, -16, 45);
    float::lemma_nearest_exact(g, narrow);
    float::lemma_nearest_shift(g, k, 1, -16, 16);
    float::lemma_nearest_shift(g, k, 1, -16, 45);
}

/// The share of a child in binary32, against two fixed ones.
proof fn lemma_share(size: int, of: int)
    requires
        size >= 0,
        of >= 1,
    ensures
        ({
            let r = single::narrowed(
                double::double_div(double::double_of(size), double::double_of(of)),
            );
            &&& single::wf(r)
            &&& r !is Nan
            &&& 300 * size >= of ==> single::at_most(
                Sgl::Num(Flo { m: 13697024, e: -32 }),
                r,
            )
            &&& 330 * size <= of ==> single::at_most(
                r,
                Sgl::Num(Flo { m: 13434880, e: -32 }),
            )
        }),
{
    let f = float::binary64();
    let d = double::double_of(size);
    let v = double::double_of(of);
    let q = double::double_div(d, v);
    float::lemma_up_values();
    lemma_ratio(size, of);
    float::lemma_nearest_canonical(f, d.m, v.m, d.e - v.e);
    single::lemma_round_wf(q.m, 1, q.e);
    lemma_fixed(209);
    lemma_fixed(205);
    let lo = float::nearest(f, 209, 1, -16);
    let hi = float::nearest(f, 205, 1, -16);
    if 300 * size >= of {
        float::lemma_nearest_mono(f, 209, 1, -16, d.m, v.m, d.e - v.e);
        float::lemma_less_canonical(f, q, lo);
        lemma_narrow_mono(lo, q);
    }
    if 330 * size <= of {
        float::lemma_nearest_mono(f, d.m, v.m, d.e - v.e, 205, 1, -16);
        lemma_narrow_mono(q, hi);
    }
}

proof fn lemma_narrow_mono(u: Flo, v: Flo)
    requires
        u.m >= 0,
        v.m >= 0,
        !float::less(v, u),
    ensures
        single::at_most(single::narrowed(u), single::narrowed(v)),
{
    single::lemma_round_mono(u.m, 1, u.e, v.m, 1, v.e);
}

/// In the full circle, a child with a 300th of the size of the directory turns
/// no less than 0.02, and one with a 330th less.
proof fn lemma_turn(size: int, s: SectorV)
    requires
        size >= 0,
        s.size >= 1,
        s.a0 == Sgl::Num(Flo { m: 0, e: -149 }),
        s.a1 == Sgl::Num(Flo { m: 13176795, e: -21 }),
    ensures
        300 * size >= s.size ==> !layout::sliver(size, s),
        330 * size <= s.size ==> layout::sliver(size, s),
{
    let turn = Sgl::Num(Flo { m: 13176795, e: -21 });
    let zero = Sgl::Num(Flo { m: 0, e: -149 });
    let limit = Flo { m: 10737418, e: -29 };
    let r = layout::share(size, s.size);
    float::lemma_up_values();
    float::lemma_up_pos(0);
    assert(single::wf(turn) && single::wf(zero));
    assert(single::units(zero) == 0);
    single::lemma_difference_exact(turn, zero, turn);
    assert(single::difference(s.a1, s.a0) == turn);
    lemma_share(size, s.size);
    single::lemma_round_exact(limit);
    single::lemma_product_wf(turn, r);
    let lo = Sgl::Num(Flo { m: 13697024, e: -32 });
    let hi = Sgl::Num(Flo { m: 13434880, e: -32 });
    float::lemma_up_add(23, 1);
    if 300 * size >= s.size {
        assert(float::ratio_le(10737418, 1, -29, 13176795int * 13697024, 1, -53));
        single::lemma_round_mono(10737418, 1, -29, 13176795int * 13697024, 1, -53);
        assert(single::at_most(Sgl::Num(limit), single::product(turn, lo)));
        if r is Num {
            single::lemma_product_mono(turn, lo, r);
            single::lemma_product_wf(turn, lo);
            single::lemma_at_most_trans(
                Sgl::Num(limit),
                single::product(turn, lo),
                single::product(turn, r),
            );
        }
    }
    if 330 * size <= s.size {
        single::lemma_product_mono(turn, r, hi);
        single::lemma_product_wf(turn, hi);
        let top = Flo { m: 10737417, e: -29 };
        single::lemma_round_exact(top);
        assert(float::ratio_le(13176795int * 13434880, 1, -53, 10737417, 1, -29));
        single::lemma_round_mono(13176795int * 13434880, 1, -53, 10737417, 1, -29);
        single::lemma_at_most_trans(
            single::product(turn, r),
            single::product(turn, hi),
            Sgl::Num(top),
        );
        let w = single::product(turn, r);
        float::lemma_less_canonical(float::binary32(), top, w->Num_0);
        float::lemma_less_canonical(float::binary32(), w->Num_0, limit);
    }
}

/// A large child of the directory shown has a slice in the innermost ring, and
/// only one: any with a 300th of its size or more, however many there are.
pub proof fn law_large_child_has_slice(place: Seq<u8>, shown: Tree, k: int)
    requires
        shown.size >= 1,
        forall|i: int, j: int|
            0 <= i < j < shown.children.len() ==> (#[trigger] shown.children[i]).size >= (
            #[trigger] shown.children[j]).size,
        0 <= k < shown.children.len(),
        shown.children[k].size >= 0,
        300 * shown.children[k].size >= shown.size,
    ensures
        ({
            let ws = look::look_at(place, shown, false).wedges;
            &&& exists|i: int|
                {
                    &&& 0 <= i < ws.len()
                    &&& (#[trigger] ws[i]).ring == 0
                    &&& ws[i].path == seq![k]
                    &&& !ws[i].lump
                    &&& ws[i].name == shown.children[k].name
                    &&& ws[i].size == shown.children[k].size
                    &&& ws[i].is_dir == shown.children[k].is_dir
                    &&& ws[i].abs == Some(
                        paths::joined(place, vstd::utf8::encode_utf8(shown.children[k].name)),
                    )
                }
            &&& forall|i: int, j: int|
                0 <= i < ws.len() && 0 <= j < ws.len() && (#[trigger] ws[i]).path == seq![k] && (
                #[trigger] ws[j]).path == seq![k] ==> i == j
        }),
{
    let ts = shown.children;
    let s = look::full(shown.size, place, 0);
    assert(ts.skip(0) =~= ts);
    assert forall|j: int| 0 <= j <= k implies !layout::sliver((#[trigger] ts[j]).size, s) by {
        assert(ts[j].size >= ts[k].size);
        lemma_turn(ts[j].size, s);
    }
    chart::law_child_has_slice(ts, s, k);
    assert(s.path.push(s.first + k) =~= seq![k]);
    let ws = layout::chart(ts, s);
    assert(look::look_at(place, shown, false).wedges == ws);
}

/// A child with a 330th of the size of the directory shown or less has no slice
/// in the innermost ring.
pub proof fn law_thin_child_has_none(place: Seq<u8>, shown: Tree, k: int, i: int)
    requires
        shown.size >= 1,
        0 <= k < shown.children.len(),
        shown.children[k].size >= 0,
        330 * shown.children[k].size <= shown.size,
        0 <= i < look::look_at(place, shown, false).wedges.len(),
        forall|j: int| 0 <= j < shown.children.len() ==> (#[trigger] shown.children[j]).size >= 0,
    ensures
        look::look_at(place, shown, false).wedges[i].path != seq![k],
{
    let ts = shown.children;
    let s = look::full(shown.size, place, 0);
    assert(ts.skip(0) =~= ts);
    lemma_turn(ts[k].size, s);
    assert(s.path.push(s.first + k) =~= seq![k]);
    lemma_no_slice(ts, 0, s.a0, s, k, i);
}

proof fn lemma_no_slice(ts: Seq<Tree>, n: int, a: Sgl, s: SectorV, k: int, i: int)
    requires
        0 <= n,
        0 <= k < ts.len(),
        layout::sliver(ts[k].size, s),
        0 <= i < layout::chart_from(ts, n, a, s).len(),
    ensures
        layout::chart_from(ts, n, a, s)[i].path != s.path.push(s.first + k),
    decreases ts.len() - n,
{
    let way = s.path.push(s.first + k);
    if n < ts.len() && !layout::sliver(ts[n].size, s) {
        let w = layout::slice(ts[n], n, a, s);
        let sub = layout::below(ts[n], n, a, s);
        let b = single::sum(a, layout::sweep(ts[n].size, s));
        let next = layout::chart_from(ts, n + 1, b, s);
        let all = layout::chart_from(ts, n, a, s);
        assert(all == seq![w] + sub + next);
        if i == 0 {
            assert(w.path.last() == s.first + n && way.last() == s.first + k);
        } else if i < 1 + sub.len() {
            assert(all[i] == sub[i - 1]);
            reveal_with_fuel(layout::below, 2);
            let at = layout::within(ts[n], n, a, s);
            layout::law_chart_leads(ts[n].children, at, i - 1);
            assert(sub[i - 1].path.len() == 0 || sub[i - 1].path.len() > s.path.len() + 1);
            assert(way.len() == s.path.len() + 1);
        } else {
            assert(all[i] == next[i - 1 - sub.len()]);
            lemma_no_slice(ts, n + 1, b, s, k, i - 1 - sub.len());
        }
    } else {
        assert(layout::chart_from(ts, n, a, s)[i].path.len() == 0);
        assert(way.len() > 0);
    }
}

// ------------------------------------------------------------ what is shown

/// The whole of a directory is shown as the full circle of its children, and
/// as the rows of the same.
pub proof fn law_look(place: Seq<u8>, shown: Tree)
    ensures
        ({
            let l = look::look_at(place, shown, false);
            let size = if shown.size < 1 {
                1
            } else {
                shown.size
            };
            &&& l.size == size
            &&& l.name == shown.name
            &&& l.wedges == layout::chart(
                shown.children,
                SectorV {
                    size,
                    abs: place,
                    path: seq![],
                    first: 0,
                    ring: 0,
                    a0: Sgl::Num(Flo { m: 0, e: -149 }),
                    a1: Sgl::Num(Flo { m: 13176795, e: -21 }),
                    whole: size,
                    hue: None,
                },
            )
            &&& l.rows == side::rows(
                0,
                Scope {
                    kids: shown.children,
                    offset: 0,
                    total: size,
                    focus: false,
                    wedges: l.wedges,
                },
            )
        }),
{
    assert(shown.children.skip(0) =~= shown.children);
}

/// The smaller items of a directory are shown as a full circle of their own:
/// all children from the first one on that is small, where there is one.
pub proof fn law_look_smaller(place: Seq<u8>, shown: Tree, n: int)
    requires
        0 <= n < shown.children.len(),
        nav::small(shown.children[n].size, shown.size),
        forall|k: int| 0 <= k < n ==> !nav::small((#[trigger] shown.children[k]).size, shown.size),
    ensures
        ({
            let l = look::look_at(place, shown, true);
            let kids = shown.children.skip(n);
            let size = if tree::total(kids) < 1 {
                1
            } else {
                tree::total(kids)
            };
            &&& l.size == size
            &&& l.name == shown.name + " \u{b7} smaller items"@
            &&& l.wedges == layout::chart(
                kids,
                SectorV {
                    size,
                    abs: place,
                    path: seq![],
                    first: n,
                    ring: 0,
                    a0: Sgl::Num(Flo { m: 0, e: -149 }),
                    a1: Sgl::Num(Flo { m: 13176795, e: -21 }),
                    whole: size,
                    hue: None,
                },
            )
            &&& l.rows == side::rows(
                0,
                Scope { kids, offset: n, total: size, focus: true, wedges: l.wedges },
            )
        }),
{
    lemma_first_small_is(shown.children, shown.size, 0, n);
}

proof fn lemma_first_small_is(ts: Seq<Tree>, of: int, i: int, n: int)
    requires
        0 <= i <= n <= ts.len(),
        n < ts.len() ==> nav::small(ts[n].size, of),
        forall|k: int| i <= k < n ==> !nav::small((#[trigger] ts[k]).size, of),
    ensures
        nav::first_small(ts, of, i) == n,
    decreases n - i,
{
    if i < n {
        lemma_first_small_is(ts, of, i + 1, n);
    }
}

/// Where no child is small, the whole is shown instead.
pub proof fn law_look_no_smaller(place: Seq<u8>, shown: Tree)
    requires
        forall|k: int|
            0 <= k < shown.children.len() ==> !nav::small(
                (#[trigger] shown.children[k]).size,
                shown.size,
            ),
    ensures
        look::look_at(place, shown, true) == look::look_at(place, shown, false),
{
    lemma_first_small_is(shown.children, shown.size, 0, shown.children.len() as int);
}

/// The first small child, and all of them where none is.
pub proof fn law_first_small(ts: Seq<Tree>, of: int)
    ensures
        ({
            let n = nav::first_small(ts, of, 0);
            &&& 0 <= n <= ts.len()
            &&& n < ts.len() ==> nav::small(ts[n].size, of)
            &&& forall|k: int| 0 <= k < n ==> !nav::small((#[trigger] ts[k]).size, of)
        }),
{
    lemma_first_small(ts, of, 0);
}

proof fn lemma_first_small(ts: Seq<Tree>, of: int, i: int)
    requires
        0 <= i <= ts.len(),
    ensures
        ({
            let n = nav::first_small(ts, of, i);
            &&& i <= n <= ts.len()
            &&& n < ts.len() ==> nav::small(ts[n].size, of)
            &&& forall|k: int| i <= k < n ==> !nav::small((#[trigger] ts[k]).size, of)
        }),
    decreases ts.len() - i,
{
    if i < ts.len() && !nav::small(ts[i].size, of) {
        lemma_first_small(ts, of, i + 1);
    }
}

} // verus!
