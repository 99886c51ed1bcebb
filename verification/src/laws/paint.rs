//! Colors, motion and letters.

use vstd::prelude::*;

use crate::app::AnimV;
use crate::float;
use crate::float::Flo;
use crate::hue;
use crate::layout::WedgeV;
use crate::paint;
use crate::paint::FillV;
use crate::signed;
use crate::signed::Sgn;
use crate::single;
use crate::single::Sgl;

verus! {

// ------------------------------------------------------------ hues

/// What is behind the point of a number, exactly.
pub proof fn law_fraction(u: Sgl)
    requires
        single::wf(u),
        u is Num,
    ensures
        hue::fract(u) is Num,
        single::units(hue::fract(u)) == single::units(u) % float::up(149),
{
    let a = u->Num_0;
    let c = float::up(149);
    float::lemma_up_values();
    float::lemma_up_pos(149);
    float::lemma_up_pos(a.e + 149);
    if a.e >= 0 {
        float::lemma_up_add(a.e, 149);
        let k = a.m * float::up(a.e);
        assert(single::units(u) == k * c) by (nonlinear_arith)
            requires
                single::units(u) == a.m * (float::up(a.e) * c),
                k == a.m * float::up(a.e),
        ;
        vstd::arithmetic::div_mod::lemma_mod_multiples_basic(k, c);
        assert(0 * float::up(0) == 0);
    } else {
        let s = float::up(-a.e);
        let t = float::up(a.e + 149);
        let n = a.m % s;
        float::lemma_up_pos(-a.e);
        float::lemma_up_add(-a.e, a.e + 149);
        vstd::arithmetic::div_mod::lemma_mod_bound(a.m, s);
        vstd::arithmetic::div_mod::lemma_fundamental_div_mod(a.m, s);
        assert(0 <= n <= a.m) by (nonlinear_arith)
            requires
                a.m == s * (a.m / s) + n,
                a.m / s >= 0,
                s >= 1,
                n >= 0,
        ;
        // n at that place is a number of the format
        if n == 0 {
            assert(0 * float::up(0) == 0);
        } else {
            lemma_kept(n, a.e);
        }
        // n * t is what is left of m * t
        let k = a.m / s;
        assert(a.m * t == k * (s * t) + n * t) by (nonlinear_arith)
            requires
                a.m == s * k + n,
        ;
        assert(n == 0 ==> n * t == 0) by (nonlinear_arith);
        assert(0 <= n * t < s * t) by (nonlinear_arith)
            requires
                0 <= n < s,
                t >= 1,
        ;
        vstd::arithmetic::div_mod::lemma_fundamental_div_mod_converse(
            a.m * t,
            c,
            k,
            n * t,
        );
    }
}

/// A significand that fits is kept.
proof fn lemma_kept(n: int, e: int)
    requires
        0 < n < 0x100_0000,
        -149 <= e < 0,
    ensures
        single::round(n, 1, e) is Num,
        single::units(single::round(n, 1, e)) == n * float::up(e + 149),
{
    let f = float::binary32();
    float::lemma_up_values();
    float::lemma_up_unit(n);
    assert(float::below(n, 1, 24)) by {
        float::lemma_up_pos(0);
        assert(n * float::up(-24) < 1 * float::up(24)) by (nonlinear_arith)
            requires
                float::up(-24) == 1,
                float::up(24) == 0x100_0000,
                n < 0x100_0000,
        ;
    }
    float::lemma_mag_bounds(n, 1, 24);
    float::lemma_nearest_whole(f, n, e);
    single::lemma_round_wf(n, 1, e);
    // it is below 2^24, and so not infinite
    let top = Flo { m: 0x80_0000, e: 1 };
    float::lemma_nearest_exact(f, top);
    float::lemma_nearest_canonical(f, n, 1, e);
    float::lemma_up_step(0);
    float::lemma_up_pos(1 - e);
    assert((n * float::up(e - 1)) * 1 <= (0x80_0000 * float::up(1 - e)) * 1) by {
        float::lemma_up_mono(2, 1 - e);
        float::lemma_up_step(1);
        assert(float::up(e - 1) == 1);
        assert((n * float::up(e - 1)) * 1 <= (0x80_0000 * float::up(1 - e)) * 1)
            by (nonlinear_arith)
            requires
                float::up(e - 1) == 1,
                n < 0x100_0000,
                float::up(1 - e) >= 4,
        ;
    }
    float::lemma_nearest_mono(f, n, 1, e, 0x80_0000, 1, 1);
    float::lemma_less_canonical(f, top, float::nearest(f, n, 1, e));
}

/// The hue of an inner slice is the part of the circle where its middle is; that
/// of a slice further out is a step of 0.045 below that of its directory, and up
/// to 0.055 to either side by where in it the slice is, round the wheel.
pub proof fn law_hue(h: Sgl, mid: Sgl, a0: Sgl, span: Sgl)
    ensures
        hue::hue(None, mid, a0, span) == hue::fract(
            single::quotient(mid, Sgl::Num(Flo { m: 13176795, e: -21 })),
        ),
        ({
            let d = signed::minus(mid, a0);
            let part = signed::plus(
                Sgn { neg: d.neg, mag: single::quotient(d.mag, span) },
                Sgn { neg: true, mag: Sgl::Num(Flo { m: 0x80_0000, e: -24 }) },
            );
            let at = signed::plus(
                signed::minus(h, Sgl::Num(Flo { m: 12079596, e: -28 })),
                Sgn {
                    neg: part.neg,
                    mag: single::product(Sgl::Num(Flo { m: 14763950, e: -27 }), part.mag),
                },
            );
            let left = hue::fract(at.mag);
            hue::hue(Some(h), mid, a0, span) == if at.neg && single::less(
                Sgl::Num(Flo { m: 0, e: -149 }),
                left,
            ) {
                single::difference(Sgl::Num(Flo { m: 0x80_0000, e: -23 }), left)
            } else {
                left
            }
        }),
{
}

// ------------------------------------------------------------ fills

/// Lumps are gray, and lighter under the pointer; other slices have a strong
/// color for directories and a weak one for files, weaker and brighter from ring
/// to ring, and darker at their inner edge.
pub proof fn law_fill(w: WedgeV, lit: bool)
    requires
        w.ring >= 0,
    ensures
        w.lump ==> paint::fill(w, lit) == if lit {
            FillV::Gray { inner: 62, outer: 84 }
        } else {
            FillV::Gray { inner: 38, outer: 60 }
        },
        !w.lump ==> {
            let one = Sgl::Num(Flo { m: 0x80_0000, e: -23 });
            let least = Sgl::Num(Flo { m: 16106127, e: -27 });
            let ring = single::single_of(w.ring);
            let base = Sgl::Num(Flo { m: 14763950, e: if w.is_dir { -24 } else { -26 } });
            let left = signed::minus(
                one,
                single::product(Sgl::Num(Flo { m: 10737418, e: -26 }), ring),
            );
            let sat = if left.neg {
                least
            } else {
                single::greater(single::product(base, left.mag), least)
            };
            let bright = single::lesser(
                single::sum(
                    single::sum(
                        Sgl::Num(Flo { m: 13086228, e: -24 }),
                        single::product(Sgl::Num(Flo { m: 14763950, e: -28 }), ring),
                    ),
                    if lit {
                        Sgl::Num(Flo { m: 9395241, e: -26 })
                    } else {
                        Sgl::Num(Flo { m: 0, e: -149 })
                    },
                ),
                one,
            );
            paint::fill(w, lit) == (FillV::Shade {
                sat_in: sat,
                val_in: single::product(bright, Sgl::Num(Flo { m: 12079596, e: -24 })),
                sat_out: single::product(sat, Sgl::Num(Flo { m: 15099494, e: -24 })),
                val_out: bright,
            })
        },
{
}

// ------------------------------------------------------------ motion

/// Motion takes 0.35 seconds, slow at both ends.
pub proof fn law_progress(elapsed: Sgl)
    ensures
        ({
            let one = Sgl::Num(Flo { m: 0x80_0000, e: -23 });
            let t = single::quotient(elapsed, Sgl::Num(Flo { m: 11744051, e: -25 }));
            paint::elapsed_part(elapsed) == if single::less(one, t) {
                one
            } else {
                t
            }
        }),
        ({
            let t = paint::elapsed_part(elapsed);
            paint::eased(t) == single::product(
                single::product(t, t),
                signed::minus(
                    Sgl::Num(Flo { m: 12582912, e: -22 }),
                    single::product(Sgl::Num(Flo { m: 0x80_0000, e: -22 }), t),
                ).mag,
            )
        }),
{
}

/// Between two places: `(1 - p) x + p y`.
pub proof fn law_between(x: Sgn, y: Sgn, p: Sgl)
    ensures
        paint::between(x, y, p) == signed::plus(
            signed::times(signed::minus(Sgl::Num(Flo { m: 0x80_0000, e: -23 }), p), x),
            signed::times(Sgn { neg: false, mag: p }, y),
        ),
{
}

/// A slice is within a span where it ends no more than 0.0001 outside.
pub proof fn law_within(w: WedgeV, span: (Sgl, Sgl), a: AnimV)
    ensures
        paint::in_span(w, span) <==> {
            &&& signed::not_above(
                signed::minus(span.0, Sgl::Num(Flo { m: 13743895, e: -37 })),
                w.a0,
            )
            &&& single::at_most(
                w.a1,
                single::sum(span.1, Sgl::Num(Flo { m: 13743895, e: -37 })),
            )
        },
        paint::fades(w, a) <==> w.ring < a.shift || !paint::in_span(w, a.span),
{
}

/// At rest a slice is where its angles and its ring are.
pub proof fn law_at_rest(w: WedgeV, p: Sgl, bounds: Seq<(Sgl, Sgl)>, hub: Sgl, rim: Sgl)
    ensures
        ({
            let s = paint::placed(w, None, p, bounds, hub, rim);
            &&& s.a0 == (Sgn { neg: false, mag: w.a0 })
            &&& s.a1 == (Sgn { neg: false, mag: w.a1 })
            &&& s.r0 == (Sgn { neg: false, mag: bounds[w.ring].0 })
            &&& s.r1 == (Sgn { neg: false, mag: bounds[w.ring].1 })
            &&& s.alpha == Sgl::Num(Flo { m: 0x80_0000, e: -23 })
        }),
{
}

/// A chart that opens comes from within the span of the slice that was clicked,
/// and from as many rings further out as that was, or from the rim.
pub proof fn law_opening(
    w: WedgeV,
    a: AnimV,
    p: Sgl,
    bounds: Seq<(Sgl, Sgl)>,
    hub: Sgl,
    rim: Sgl,
)
    requires
        a.dir_in,
    ensures
        ({
            let s = paint::placed(w, Some(a), p, bounds, hub, rim);
            let f = signed::over(
                signed::minus(a.span.1, a.span.0),
                Sgn { neg: false, mag: Sgl::Num(Flo { m: 13176795, e: -21 }) },
            );
            let at = Sgn { neg: false, mag: a.span.0 };
            let from0 = signed::plus(at, signed::times(Sgn { neg: false, mag: w.a0 }, f));
            let from1 = signed::plus(at, signed::times(Sgn { neg: false, mag: w.a1 }, f));
            let k = w.ring + a.shift;
            let (r0, r1) = if k < bounds.len() {
                bounds[k]
            } else {
                (rim, rim)
            };
            &&& s.a0 == paint::between(from0, Sgn { neg: false, mag: w.a0 }, p)
            &&& s.a1 == paint::between(from1, Sgn { neg: false, mag: w.a1 }, p)
            &&& s.r0 == paint::between(
                Sgn { neg: false, mag: r0 },
                Sgn { neg: false, mag: bounds[w.ring].0 },
                p,
            )
            &&& s.r1 == paint::between(
                Sgn { neg: false, mag: r1 },
                Sgn { neg: false, mag: bounds[w.ring].1 },
                p,
            )
            &&& s.alpha == Sgl::Num(Flo { m: 0x80_0000, e: -23 })
        }),
{
}

/// A chart that closes comes from the full circle into the span of the slice
/// that was left, and from as many rings further in, or from the hub; what is
/// outside of that span fades in where it is.
pub proof fn law_closing(
    w: WedgeV,
    a: AnimV,
    p: Sgl,
    bounds: Seq<(Sgl, Sgl)>,
    hub: Sgl,
    rim: Sgl,
)
    requires
        !a.dir_in,
    ensures
        ({
            let s = paint::placed(w, Some(a), p, bounds, hub, rim);
            let f = signed::over(
                Sgn { neg: false, mag: Sgl::Num(Flo { m: 13176795, e: -21 }) },
                signed::minus(a.span.1, a.span.0),
            );
            let from0 = signed::times(signed::minus(w.a0, a.span.0), f);
            let from1 = signed::times(signed::minus(w.a1, a.span.0), f);
            let k = w.ring - a.shift;
            let (r0, r1) = if k >= 0 {
                bounds[k]
            } else {
                (hub, hub)
            };
            if paint::in_span(w, a.span) {
                &&& s.a0 == paint::between(from0, Sgn { neg: false, mag: w.a0 }, p)
                &&& s.a1 == paint::between(from1, Sgn { neg: false, mag: w.a1 }, p)
                &&& s.r0 == paint::between(
                    Sgn { neg: false, mag: r0 },
                    Sgn { neg: false, mag: bounds[w.ring].0 },
                    p,
                )
                &&& s.r1 == paint::between(
                    Sgn { neg: false, mag: r1 },
                    Sgn { neg: false, mag: bounds[w.ring].1 },
                    p,
                )
                &&& s.alpha == Sgl::Num(Flo { m: 0x80_0000, e: -23 })
            } else {
                &&& s.a0 == (Sgn { neg: false, mag: w.a0 })
                &&& s.a1 == (Sgn { neg: false, mag: w.a1 })
                &&& s.r0 == (Sgn { neg: false, mag: bounds[w.ring].0 })
                &&& s.r1 == (Sgn { neg: false, mag: bounds[w.ring].1 })
                &&& s.alpha == single::product(p, p)
            }
        }),
{
}

// ------------------------------------------------------------ letters

/// Letters shrink with the chart below 320, to 0.65 at most, and are no smaller
/// than 8; those of the innermost ring are larger.
pub proof fn law_letters(ring: int, rim: Sgl)
    ensures
        ({
            let one = Sgl::Num(Flo { m: 0x80_0000, e: -23 });
            let least = Sgl::Num(Flo { m: 10905190, e: -24 });
            let s = single::quotient(rim, Sgl::Num(Flo { m: 10485760, e: -15 }));
            let scale = if single::less(s, least) {
                least
            } else if single::less(one, s) {
                one
            } else {
                s
            };
            let base = if ring == 0 {
                Sgl::Num(Flo { m: 13107200, e: -20 })
            } else {
                Sgl::Num(Flo { m: 11534336, e: -20 })
            };
            paint::letters(ring, rim) == single::greater(
                single::product(base, scale),
                Sgl::Num(Flo { m: 0x80_0000, e: -20 }),
            )
        }),
{
}

/// A slice has room for letters where its arc in the middle is longer than 6 of
/// them, and it is thicker than 1.9.
pub proof fn law_room(w: WedgeV, r0: Sgl, r1: Sgl, font: Sgl)
    ensures
        ({
            let middle = single::product(
                single::sum(r0, r1),
                Sgl::Num(Flo { m: 0x80_0000, e: -24 }),
            );
            let arc = signed::times(
                signed::minus(w.a1, w.a0),
                Sgn { neg: false, mag: middle },
            );
            let thick = signed::minus(r1, r0);
            paint::roomy(w, r0, r1, font) <==> {
                &&& !arc.neg && single::less(
                    single::product(font, Sgl::Num(Flo { m: 12582912, e: -21 })),
                    arc.mag,
                )
                &&& !thick.neg && single::less(
                    single::product(font, Sgl::Num(Flo { m: 15938355, e: -23 })),
                    thick.mag,
                )
            }
        }),
{
}

// ------------------------------------------------------------ signs

/// Numbers with a sign: sums, differences, products and quotients of what they
/// are without it.
pub proof fn law_signs(a: Sgn, b: Sgn, u: Sgl, v: Sgl)
    ensures
        signed::minus(u, v) == if single::less(u, v) {
            Sgn { neg: true, mag: single::difference(v, u) }
        } else {
            Sgn { neg: false, mag: single::difference(u, v) }
        },
        a.neg == b.neg ==> signed::plus(a, b) == (Sgn {
            neg: a.neg,
            mag: single::sum(a.mag, b.mag),
        }),
        a.neg && !b.neg ==> signed::plus(a, b) == signed::minus(b.mag, a.mag),
        !a.neg && b.neg ==> signed::plus(a, b) == signed::minus(a.mag, b.mag),
        signed::times(a, b) == (Sgn {
            neg: a.neg != b.neg,
            mag: single::product(a.mag, b.mag),
        }),
        signed::over(a, b) == (Sgn {
            neg: a.neg != b.neg,
            mag: single::quotient(a.mag, b.mag),
        }),
        signed::exceeds(a, u) <==> !a.neg && single::less(u, a.mag),
        !a.neg ==> (signed::not_above(a, u) <==> single::at_most(a.mag, u)),
        a.neg && a.mag !is Nan && u !is Nan ==> signed::not_above(a, u),
        a.mag is Nan || u is Nan ==> !signed::not_above(a, u),
{
}

} // verus!
