//! How a slice is painted: its shade, where it is while the chart opens or
//! closes, and whether its name fits on it.

use vstd::prelude::*;

use crate::app::Anim;
use crate::app::AnimV;
use crate::float;
use crate::float::Num;
use crate::hue;
use crate::layout;
use crate::layout::Wedge;
use crate::layout::WedgeV;
use crate::layout::MAX_RINGS;
use crate::rings;
use crate::signed;
use crate::signed::Sgn;
use crate::signed::Signed;
use crate::single;
use crate::single::Sgl;
use crate::single::Single;

verus! {

/// A binary32 by its significand and exponent.
pub open spec fn num(m: int, e: int) -> Sgl {
    Sgl::Num(float::Flo { m, e })
}

fn constant(m: u64, e: i32) -> (r: Single)
    requires
        0x80_0000 <= m < 0x100_0000,
        -149 <= e <= 104,
    ensures
        r@ == num(m as int, e as int),
        single::wf(r@),
{
    proof {
        float::lemma_up_values();
    }
    Single::Num(Num { m, e })
}

// ------------------------------------------------------------ shades

/// The colors of a slice at its inner and its outer edge.
pub enum Fill {
    Gray { inner: u8, outer: u8 },
    /// Saturation and brightness; the hue is the slice's.
    Shade { sat_in: Single, val_in: Single, sat_out: Single, val_out: Single },
}

/// What a [`Fill`] stands for.
pub ghost enum FillV {
    Gray { inner: int, outer: int },
    Shade { sat_in: Sgl, val_in: Sgl, sat_out: Sgl, val_out: Sgl },
}

impl View for Fill {
    type V = FillV;

    open spec fn view(&self) -> FillV {
        match *self {
            Fill::Gray { inner, outer } => FillV::Gray { inner: inner as int, outer: outer as int },
            Fill::Shade { sat_in, val_in, sat_out, val_out } => FillV::Shade {
                sat_in: sat_in@,
                val_in: val_in@,
                sat_out: sat_out@,
                val_out: val_out@,
            },
        }
    }
}

/// Directories are saturated by 0.88, files by 0.22, each ring out takes 0.16
/// of that, but 0.12 are left.
pub open spec fn saturation(ring: int, is_dir: bool) -> Sgl {
    let base = if is_dir {
        num(14763950, -24)
    } else {
        num(14763950, -26)
    };
    let left = signed::minus(
        hue::one(),
        single::product(num(10737418, -26), single::single_of(ring)),
    );
    if left.neg {
        num(16106127, -27)
    } else {
        single::greater(single::product(base, left.mag), num(16106127, -27))
    }
}

/// The brightness of the outer edge: 0.78, and 0.055 for each ring out, and
/// 0.14 where lit, but not more than 1.
pub open spec fn brightness(ring: int, lit: bool) -> Sgl {
    single::lesser(
        single::sum(
            single::sum(
                num(13086228, -24),
                single::product(num(14763950, -28), single::single_of(ring)),
            ),
            if lit {
                num(9395241, -26)
            } else {
                hue::zero()
            },
        ),
        hue::one(),
    )
}

/// A lump is gray. Any other slice is less saturated and brighter the further
/// out it is; toward its outer edge it is a little less saturated and brighter.
pub open spec fn fill(w: WedgeV, lit: bool) -> FillV {
    if w.lump {
        if lit {
            FillV::Gray { inner: 62, outer: 84 }
        } else {
            FillV::Gray { inner: 38, outer: 60 }
        }
    } else {
        FillV::Shade {
            sat_in: saturation(w.ring, w.is_dir),
            val_in: single::product(brightness(w.ring, lit), num(12079596, -24)),
            sat_out: single::product(saturation(w.ring, w.is_dir), num(15099494, -24)),
            val_out: brightness(w.ring, lit),
        }
    }
}

fn saturation_of(ring: usize, is_dir: bool) -> (r: Single)
    ensures
        r@ == saturation(ring as int, is_dir),
        single::wf(r@),
{
    let base = if is_dir {
        constant(14763950, -24)
    } else {
        constant(14763950, -26)
    };
    let least = constant(16106127, -27);
    let left = signed::subtract(
        constant(0x80_0000, -23),
        constant(10737418, -26).times(single::single(ring as u64)),
    );
    if left.neg {
        least
    } else {
        base.times(left.mag).max(least)
    }
}

fn brightness_of(ring: usize, lit: bool) -> (r: Single)
    ensures
        r@ == brightness(ring as int, lit),
        single::wf(r@),
{
    proof {
        float::lemma_up_values();
    }
    let boost = if lit {
        constant(9395241, -26)
    } else {
        Single::Num(Num { m: 0, e: -149 })
    };
    let v = constant(13086228, -24).plus(
        constant(14763950, -28).times(single::single(ring as u64)),
    );
    v.plus(boost).min(constant(0x80_0000, -23))
}

pub fn wedge_fill(w: &Wedge, lit: bool) -> (r: Fill)
    ensures
        r@ == fill(w@, lit),
{
    if w.lump {
        return if lit {
            Fill::Gray { inner: 62, outer: 84 }
        } else {
            Fill::Gray { inner: 38, outer: 60 }
        };
    }
    let sat = saturation_of(w.ring, w.is_dir);
    let val = brightness_of(w.ring, lit);
    Fill::Shade {
        sat_in: sat,
        val_in: val.times(constant(12079596, -24)),
        sat_out: sat.times(constant(15099494, -24)),
        val_out: val,
    }
}

// ------------------------------------------------------------ animation

/// The part of an animation's 0.35 seconds that is over, at most 1.
pub open spec fn elapsed_part(elapsed: Sgl) -> Sgl {
    let t = single::quotient(elapsed, num(11744051, -25));
    if single::less(hue::one(), t) {
        hue::one()
    } else {
        t
    }
}

/// How far the way is then gone: slowly at its beginning and at its end.
pub open spec fn eased(t: Sgl) -> Sgl {
    single::product(
        single::product(t, t),
        signed::minus(num(12582912, -22), single::product(num(0x80_0000, -22), t)).mag,
    )
}

/// How far an animation is after some seconds, and whether it is over.
pub fn progress(elapsed: Single) -> (r: (Single, bool))
    requires
        single::wf(elapsed@),
    ensures
        r.0@ == eased(elapsed_part(elapsed@)),
        single::wf(r.0@),
        r.1 == single::at_most(hue::one(), elapsed_part(elapsed@)),
{
    let one = constant(0x80_0000, -23);
    let q = elapsed.over(constant(11744051, -25));
    let t = if one.under(q) {
        one
    } else {
        q
    };
    let rest = signed::subtract(constant(12582912, -22), constant(0x80_0000, -22).times(t));
    (t.times(t).times(rest.mag), one.upto(t))
}

/// `x` on the way to `y`: at 0 the one, at 1 the other.
pub open spec fn between(x: Sgn, y: Sgn, p: Sgl) -> Sgn {
    signed::plus(
        signed::times(signed::minus(hue::one(), p), x),
        signed::times(signed::plain(p), y),
    )
}

fn lerp(x: Signed, y: Signed, p: Single) -> (r: Signed)
    requires
        single::wf(x.mag@),
        single::wf(y.mag@),
        single::wf(p@),
    ensures
        r@ == between(x@, y@, p@),
        single::wf(r.mag@),
{
    let rest = signed::subtract(constant(0x80_0000, -23), p);
    signed::add_signed(
        signed::multiply(rest, x),
        signed::multiply(Signed { neg: false, mag: p }, y),
    )
}

fn plain_of(u: Single) -> (r: Signed)
    ensures
        r@ == signed::plain(u@),
{
    Signed { neg: false, mag: u }
}

/// Whether a slice lies within some angles, give or take a ten-thousandth.
pub open spec fn in_span(w: WedgeV, span: (Sgl, Sgl)) -> bool {
    &&& signed::not_above(signed::minus(span.0, num(13743895, -37)), w.a0)
    &&& single::at_most(w.a1, single::sum(span.1, num(13743895, -37)))
}

pub fn is_in_span(w: &Wedge, span: (Single, Single)) -> (r: bool)
    requires
        layout::wedge_wf(w@),
        single::wf(span.0@),
        single::wf(span.1@),
    ensures
        r == in_span(w@, (span.0@, span.1@)),
{
    let eps = constant(13743895, -37);
    signed::is_not_above(signed::subtract(span.0, eps), w.a0) && w.a1.upto(span.1.plus(eps))
}

/// Whether a slice of the outgoing chart fades: not those that the incoming
/// one draws again.
pub open spec fn fades(w: WedgeV, a: AnimV) -> bool {
    !(in_span(w, a.span) && w.ring >= a.shift)
}

pub fn does_fade(w: &Wedge, a: &Anim) -> (r: bool)
    requires
        layout::wedge_wf(w@),
        single::wf(a.span.0@),
        single::wf(a.span.1@),
    ensures
        r == fades(w@, a@),
{
    !(is_in_span(w, a.span) && w.ring >= a.shift)
}

/// How much of the outgoing chart still shows.
pub fn fading(p: Single) -> (r: Single)
    requires
        single::wf(p@),
    ensures
        r@ == single::product(
            signed::minus(hue::one(), p@).mag,
            signed::minus(hue::one(), p@).mag,
        ),
        single::wf(r@),
{
    let rest = signed::subtract(constant(0x80_0000, -23), p).mag;
    rest.times(rest)
}

/// Where a slice is painted, and how much of it shows.
pub struct Segment {
    pub a0: Signed,
    pub a1: Signed,
    pub r0: Signed,
    pub r1: Signed,
    pub alpha: Single,
}

/// What a [`Segment`] stands for.
pub ghost struct SegmentV {
    pub a0: Sgn,
    pub a1: Sgn,
    pub r0: Sgn,
    pub r1: Sgn,
    pub alpha: Sgl,
}

impl View for Segment {
    type V = SegmentV;

    open spec fn view(&self) -> SegmentV {
        SegmentV {
            a0: self.a0@,
            a1: self.a1@,
            r0: self.r0@,
            r1: self.r1@,
            alpha: self.alpha@,
        }
    }
}

/// A slice where it stays.
pub open spec fn still(w: WedgeV, bounds: Seq<(Sgl, Sgl)>, alpha: Sgl) -> SegmentV {
    SegmentV {
        a0: signed::plain(w.a0),
        a1: signed::plain(w.a1),
        r0: signed::plain(bounds[w.ring].0),
        r1: signed::plain(bounds[w.ring].1),
        alpha,
    }
}

/// A slice on the way from a place to where it stays.
pub open spec fn moving(
    w: WedgeV,
    bounds: Seq<(Sgl, Sgl)>,
    from: (Sgn, Sgn),
    band: (Sgl, Sgl),
    p: Sgl,
) -> SegmentV {
    SegmentV {
        a0: between(from.0, signed::plain(w.a0), p),
        a1: between(from.1, signed::plain(w.a1), p),
        r0: between(signed::plain(band.0), signed::plain(bounds[w.ring].0), p),
        r1: between(signed::plain(band.1), signed::plain(bounds[w.ring].1), p),
        alpha: hue::one(),
    }
}

/// An angle of the whole chart, seen within the slice that opens.
pub open spec fn squeezed(a: Sgl, span: (Sgl, Sgl)) -> Sgn {
    let f = signed::over(signed::minus(span.1, span.0), signed::plain(hue::turn()));
    signed::plus(signed::plain(span.0), signed::times(signed::plain(a), f))
}

/// An angle of the slice that the chart closes to, seen in the whole chart.
pub open spec fn stretched(a: Sgl, span: (Sgl, Sgl)) -> Sgn {
    let f = signed::over(signed::plain(hue::turn()), signed::minus(span.1, span.0));
    signed::times(signed::minus(a, span.0), f)
}

/// Where a slice is at `p` of the way. A chart that opens comes out of the
/// slice that was clicked, from the rings further out; one that closes shrinks
/// back into it, and what is outside of it fades in.
pub open spec fn placed(
    w: WedgeV,
    anim: Option<AnimV>,
    p: Sgl,
    bounds: Seq<(Sgl, Sgl)>,
    hub: Sgl,
    rim: Sgl,
) -> SegmentV {
    match anim {
        None => still(w, bounds, hue::one()),
        Some(a) => if a.dir_in {
            let band = if w.ring + a.shift < bounds.len() {
                bounds[w.ring + a.shift]
            } else {
                (rim, rim)
            };
            moving(w, bounds, (squeezed(w.a0, a.span), squeezed(w.a1, a.span)), band, p)
        } else if in_span(w, a.span) {
            let band = if w.ring >= a.shift {
                bounds[w.ring - a.shift]
            } else {
                (hub, hub)
            };
            moving(w, bounds, (stretched(w.a0, a.span), stretched(w.a1, a.span)), band, p)
        } else {
            still(w, bounds, single::product(p, p))
        },
    }
}

fn squeeze(a: Single, span: (Single, Single)) -> (r: Signed)
    requires
        single::wf(a@),
        single::wf(span.0@),
        single::wf(span.1@),
    ensures
        r@ == squeezed(a@, (span.0@, span.1@)),
        single::wf(r.mag@),
{
    let f = signed::divide(
        signed::subtract(span.1, span.0),
        plain_of(constant(13176795, -21)),
    );
    signed::add_signed(plain_of(span.0), signed::multiply(plain_of(a), f))
}

fn stretch(a: Single, span: (Single, Single)) -> (r: Signed)
    requires
        single::wf(a@),
        single::wf(span.0@),
        single::wf(span.1@),
    ensures
        r@ == stretched(a@, (span.0@, span.1@)),
        single::wf(r.mag@),
{
    let f = signed::divide(
        plain_of(constant(13176795, -21)),
        signed::subtract(span.1, span.0),
    );
    signed::multiply(signed::subtract(a, span.0), f)
}

fn move_from(
    w: &Wedge,
    to: (Single, Single),
    from: (Signed, Signed),
    band: (Single, Single),
    p: Single,
    Ghost(bounds): Ghost<Seq<(Sgl, Sgl)>>,
) -> (r: Segment)
    requires
        layout::wedge_wf(w@),
        bounds[w.ring as int] == (to.0@, to.1@),
        single::wf(to.0@),
        single::wf(to.1@),
        single::wf(from.0.mag@),
        single::wf(from.1.mag@),
        single::wf(band.0@),
        single::wf(band.1@),
        single::wf(p@),
    ensures
        r@ == moving(w@, bounds, (from.0@, from.1@), (band.0@, band.1@), p@),
        single::wf(r.a0.mag@) && single::wf(r.a1.mag@),
        single::wf(r.r0.mag@) && single::wf(r.r1.mag@),
        single::wf(r.alpha@),
{
    Segment {
        a0: lerp(from.0, plain_of(w.a0), p),
        a1: lerp(from.1, plain_of(w.a1), p),
        r0: lerp(plain_of(band.0), plain_of(to.0), p),
        r1: lerp(plain_of(band.1), plain_of(to.1), p),
        alpha: constant(0x80_0000, -23),
    }
}

pub fn place(
    w: &Wedge,
    anim: Option<&Anim>,
    p: Single,
    bounds: &Vec<(Single, Single)>,
    hub_r: Single,
    max_r: Single,
) -> (r: Segment)
    requires
        layout::wedge_wf(w@),
        anim matches Some(a) ==> single::wf(a.span.0@) && single::wf(a.span.1@),
        single::wf(p@),
        single::wf(hub_r@),
        single::wf(max_r@),
        bounds@.len() == MAX_RINGS,
        forall|i: int|
            0 <= i < bounds@.len() ==> single::wf((#[trigger] bounds@[i]).0@) && single::wf(
                bounds@[i].1@,
            ),
    ensures
        r@ == placed(
            w@,
            match anim {
                Some(a) => Some(a@),
                None => None,
            },
            p@,
            rings::bound_views(bounds@),
            hub_r@,
            max_r@,
        ),
        single::wf(r.a0.mag@) && single::wf(r.a1.mag@),
        single::wf(r.r0.mag@) && single::wf(r.r1.mag@),
        single::wf(r.alpha@),
{
    let ghost views = rings::bound_views(bounds@);
    let to = bounds[w.ring];
    proof {
        assert(views[w.ring as int] == (to.0@, to.1@));
    }
    let a = match anim {
        None => {
            return Segment {
                a0: plain_of(w.a0),
                a1: plain_of(w.a1),
                r0: plain_of(to.0),
                r1: plain_of(to.1),
                alpha: constant(0x80_0000, -23),
            };
        },
        Some(a) => a,
    };
    if a.dir_in {
        let band = if a.shift < MAX_RINGS && w.ring + a.shift < MAX_RINGS {
            bounds[w.ring + a.shift]
        } else {
            (max_r, max_r)
        };
        let from = (squeeze(w.a0, a.span), squeeze(w.a1, a.span));
        move_from(w, to, from, band, p, Ghost(views))
    } else if is_in_span(w, a.span) {
        let band = if w.ring >= a.shift {
            bounds[w.ring - a.shift]
        } else {
            (hub_r, hub_r)
        };
        let from = (stretch(w.a0, a.span), stretch(w.a1, a.span));
        move_from(w, to, from, band, p, Ghost(views))
    } else {
        Segment {
            a0: plain_of(w.a0),
            a1: plain_of(w.a1),
            r0: plain_of(to.0),
            r1: plain_of(to.1),
            alpha: p.times(p),
        }
    }
}

// ------------------------------------------------------------ names

/// The size of the letters: 12.5 in the innermost ring, else 11, smaller where
/// the chart is, but not below 8.
pub open spec fn letters(ring: int, rim: Sgl) -> Sgl {
    let s = single::quotient(rim, num(10485760, -15));
    let scale = if single::less(s, num(10905190, -24)) {
        num(10905190, -24)
    } else if single::less(hue::one(), s) {
        hue::one()
    } else {
        s
    };
    single::greater(
        single::product(
            if ring == 0 {
                num(13107200, -20)
            } else {
                num(11534336, -20)
            },
            scale,
        ),
        num(0x80_0000, -20),
    )
}

/// Whether a name fits on a slice between two radii: its arc is longer than six
/// letters, its ring thicker than nearly two.
pub open spec fn roomy(w: WedgeV, r0: Sgl, r1: Sgl, font: Sgl) -> bool {
    let middle = single::product(single::sum(r0, r1), hue::half());
    let arc = signed::times(signed::minus(w.a1, w.a0), signed::plain(middle));
    &&& signed::exceeds(arc, single::product(font, num(12582912, -21)))
    &&& signed::exceeds(signed::minus(r1, r0), single::product(font, num(15938355, -23)))
}

/// The size of the letters of a slice's name, where it shows one: the three
/// innermost rings do, wherever it fits.
pub fn label_font(w: &Wedge, r0: Single, r1: Single, max_r: Single) -> (r: Option<Single>)
    requires
        layout::wedge_wf(w@),
        single::wf(r0@),
        single::wf(r1@),
        single::wf(max_r@),
    ensures
        match r {
            Some(f) => {
                &&& w.ring <= 2
                &&& f@ == letters(w.ring as int, max_r@)
                &&& single::wf(f@)
                &&& roomy(w@, r0@, r1@, f@)
            },
            None => w.ring > 2 || !roomy(w@, r0@, r1@, letters(w.ring as int, max_r@)),
        },
{
    if w.ring > 2 {
        return None;
    }
    let one = constant(0x80_0000, -23);
    let least = constant(10905190, -24);
    let s = max_r.over(constant(10485760, -15));
    let scale = if s.under(least) {
        least
    } else if one.under(s) {
        one
    } else {
        s
    };
    let size = if w.ring == 0 {
        constant(13107200, -20)
    } else {
        constant(11534336, -20)
    };
    let font = size.times(scale).max(constant(0x80_0000, -20));
    let middle = r0.plus(r1).times(constant(0x80_0000, -24));
    let arc = signed::multiply(signed::subtract(w.a1, w.a0), plain_of(middle));
    if signed::does_exceed(arc, font.times(constant(12582912, -21))) && signed::does_exceed(
        signed::subtract(r1, r0),
        font.times(constant(15938355, -23)),
    ) {
        Some(font)
    } else {
        None
    }
}

// ------------------------------------------------------------ laws

proof fn lemma_constants()
    ensures
        forall|m: int, e: int|
            0x80_0000 <= m < 0x100_0000 && -149 <= e <= 104 ==> single::wf(#[trigger] num(m, e)),
        single::wf(hue::one()),
        single::wf(hue::zero()),
        single::wf(hue::half()),
        single::wf(hue::turn()),
{
    float::lemma_up_values();
}

/// Each ring further out is no less bright and no more saturated than the one
/// inside it, and no slice is brighter than 1.
pub proof fn law_lighter_outward(i: int, j: int, lit: bool, is_dir: bool)
    requires
        0 <= i <= j < MAX_RINGS,
    ensures
        single::at_most(brightness(i, lit), brightness(j, lit)),
        single::at_most(brightness(j, lit), hue::one()),
        single::at_most(saturation(j, is_dir), saturation(i, is_dir)),
{
    lemma_constants();
    let u = single::single_of(i);
    let v = single::single_of(j);
    single::lemma_single_of(i);
    single::lemma_single_of(j);
    single::lemma_single_of_mono(i, j);
    lemma_brighter(u, v, lit);
    // saturation
    let k = num(10737418, -26);
    let x = single::product(k, u);
    let y = single::product(k, v);
    single::lemma_product_wf(k, u);
    single::lemma_product_wf(k, v);
    single::lemma_product_mono(k, u, v);
    let least = num(16106127, -27);
    let base = if is_dir {
        num(14763950, -24)
    } else {
        num(14763950, -26)
    };
    float::lemma_less_canonical(float::binary32(), least->Num_0, least->Num_0);
    if single::less(hue::one(), y) {
        if !single::less(hue::one(), x) {
            let d = single::difference(hue::one(), x);
            single::lemma_difference_wf(hue::one(), x);
            single::lemma_difference_below(hue::one(), x);
            single::lemma_product_wf(base, d);
            let z = single::product(base, d);
            if z is Num {
                float::lemma_less_canonical(float::binary32(), z->Num_0, z->Num_0);
            }
            single::lemma_greater_mono(z, z, least);
        }
    } else {
        single::lemma_at_most_trans(x, y, hue::one());
        let d = single::difference(hue::one(), x);
        let e = single::difference(hue::one(), y);
        single::lemma_difference_wf(hue::one(), x);
        single::lemma_difference_wf(hue::one(), y);
        single::lemma_difference_mono(hue::one(), x, y);
        single::lemma_difference_below(hue::one(), x);
        single::lemma_product_wf(base, d);
        single::lemma_product_wf(base, e);
        single::lemma_product_mono(base, e, d);
        single::lemma_greater_mono(single::product(base, e), single::product(base, d), least);
    }
}

proof fn lemma_brighter(u: Sgl, v: Sgl, lit: bool)
    requires
        single::wf(u),
        single::wf(v),
        u is Num,
        v is Num,
        single::at_most(u, v),
    ensures
        ({
            let b = num(13086228, -24);
            let k = num(14763950, -28);
            let boost = if lit {
                num(9395241, -26)
            } else {
                hue::zero()
            };
            let x = single::sum(single::sum(b, single::product(k, u)), boost);
            let y = single::sum(single::sum(b, single::product(k, v)), boost);
            &&& single::at_most(
                single::lesser(x, hue::one()),
                single::lesser(y, hue::one()),
            )
            &&& single::at_most(single::lesser(y, hue::one()), hue::one())
        }),
{
    lemma_constants();
    let b = num(13086228, -24);
    let k = num(14763950, -28);
    let boost = if lit {
        num(9395241, -26)
    } else {
        hue::zero()
    };
    single::lemma_product_wf(k, u);
    single::lemma_product_wf(k, v);
    single::lemma_product_mono(k, u, v);
    let s = single::sum(b, single::product(k, u));
    let t = single::sum(b, single::product(k, v));
    single::lemma_sum_wf(b, single::product(k, u));
    single::lemma_sum_wf(b, single::product(k, v));
    single::lemma_sum_mono(b, single::product(k, u), single::product(k, v));
    single::lemma_sum_mono(boost, s, t);
    single::lemma_sum_comm(boost, s);
    single::lemma_sum_comm(boost, t);
    single::lemma_sum_wf(s, boost);
    single::lemma_sum_wf(t, boost);
    single::lemma_lesser_mono(single::sum(s, boost), single::sum(t, boost), hue::one());
}

/// 0 and 1 are what they are to a finite number.
proof fn lemma_units(v: Sgl)
    requires
        single::wf(v),
        v is Num,
    ensures
        single::product(hue::one(), v) == v,
        single::product(hue::zero(), v) == hue::zero(),
        single::sum(hue::zero(), v) == v,
        single::sum(v, hue::zero()) == v,
        single::difference(v, hue::zero()) == v,
        !single::less(v, hue::zero()),
{
    let f = float::binary32();
    let a = v->Num_0;
    float::lemma_up_values();
    lemma_constants();
    float::lemma_nearest_exact(f, a);
    float::lemma_nearest_shift(f, a.m, 1, a.e, 23);
    assert(0x80_0000 * a.m == a.m * float::up(23));
    assert(0 * a.m == 0);
    single::lemma_round_exact(hue::zero()->Num_0);
    float::lemma_nearest_shift(f, a.m, 1, a.e, a.e + 149);
    float::lemma_up_pos(a.e + 149);
    assert(0 * float::up(-149 - -149) == 0);
    single::lemma_sum_comm(v, hue::zero());
    float::lemma_less_canonical(f, a, hue::zero()->Num_0);
}

/// At the end of the way everything is where it stays.
pub proof fn law_anim_ends(
    w: WedgeV,
    bounds: Seq<(Sgl, Sgl)>,
    from: (Sgn, Sgn),
    band: (Sgl, Sgl),
)
    requires
        single::wf(w.a0) && w.a0 is Num,
        single::wf(w.a1) && w.a1 is Num,
        single::wf(bounds[w.ring].0) && bounds[w.ring].0 is Num,
        single::wf(bounds[w.ring].1) && bounds[w.ring].1 is Num,
        single::wf(from.0.mag) && from.0.mag is Num,
        single::wf(from.1.mag) && from.1.mag is Num,
        single::wf(band.0) && band.0 is Num,
        single::wf(band.1) && band.1 is Num,
    ensures
        moving(w, bounds, from, band, hue::one()) == still(w, bounds, hue::one()),
{
    lemma_at_one(from.0, w.a0);
    lemma_at_one(from.1, w.a1);
    lemma_at_one(signed::plain(band.0), bounds[w.ring].0);
    lemma_at_one(signed::plain(band.1), bounds[w.ring].1);
}

proof fn lemma_at_one(x: Sgn, y: Sgl)
    requires
        single::wf(x.mag) && x.mag is Num,
        single::wf(y) && y is Num,
    ensures
        between(x, signed::plain(y), hue::one()) == signed::plain(y),
{
    lemma_constants();
    lemma_units(x.mag);
    lemma_units(y);
    let f = float::binary32();
    let one = hue::one();
    float::lemma_less_canonical(f, one->Num_0, one->Num_0);
    single::lemma_round_exact(hue::zero()->Num_0);
    float::lemma_up_values();
    assert(0x80_0000 * float::up(-23 - -23) - 0x80_0000 * float::up(-23 - -23) == 0);
    assert(single::difference(one, one) == single::round(0, 1, -23));
    assert(single::round(0, 1, -23) == hue::zero());
}

/// At its beginning a slice is where it comes from.
pub proof fn law_anim_begins(x: Sgl, y: Sgl)
    requires
        single::wf(x) && x is Num,
        single::wf(y) && y is Num,
    ensures
        between(signed::plain(x), signed::plain(y), hue::zero()) == signed::plain(x),
{
    lemma_constants();
    lemma_units(x);
    lemma_units(y);
    lemma_units(hue::one());
}

} // verus!
