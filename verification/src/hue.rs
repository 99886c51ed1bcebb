//! The hue of a slice: a place on the color wheel, from 0 to 1.

use vstd::prelude::*;

use crate::float;
use crate::float::Num;
use crate::signed;
use crate::signed::Sgn;
use crate::signed::Signed;
use crate::single;
use crate::single::Sgl;
use crate::single::Single;

verus! {

pub open spec fn half() -> Sgl {
    Sgl::Num(float::Flo { m: 0x80_0000, e: -24 })
}

pub open spec fn one() -> Sgl {
    Sgl::Num(float::Flo { m: 0x80_0000, e: -23 })
}

pub open spec fn zero() -> Sgl {
    Sgl::Num(float::Flo { m: 0, e: -149 })
}

/// The binary32 nearest to 0.045: the step toward warm of each level.
pub open spec fn warm_step() -> Sgl {
    Sgl::Num(float::Flo { m: 12079596, e: -28 })
}

/// The binary32 nearest to 0.11: how far siblings spread.
pub open spec fn spread() -> Sgl {
    Sgl::Num(float::Flo { m: 14763950, e: -27 })
}

/// The binary32 nearest to a full turn.
pub open spec fn turn() -> Sgl {
    Sgl::Num(float::Flo { m: 13176795, e: -21 })
}

/// What is behind the binary point.
pub open spec fn fract(u: Sgl) -> Sgl {
    match u {
        Sgl::Num(a) => if a.e >= 0 {
            zero()
        } else {
            single::round(a.m % float::up(-a.e), 1, a.e)
        },
        _ => Sgl::Nan,
    }
}

/// What is left of a number when whole turns are taken off, or put to it.
pub open spec fn wrapped(a: Sgn) -> Sgl {
    let r = fract(a.mag);
    if a.neg && single::less(zero(), r) {
        single::difference(one(), r)
    } else {
        r
    }
}

/// The hue of a slice in the middle of which is the angle `mid`. One of the
/// innermost ring has that of its angle. Any other takes its directory's, one
/// step warmer, and to either side by where it lies between `a0` and `span`
/// further on.
pub open spec fn hue(parent: Option<Sgl>, mid: Sgl, a0: Sgl, span: Sgl) -> Sgl {
    match parent {
        None => fract(single::quotient(mid, turn())),
        Some(h) => {
            let d = signed::minus(mid, a0);
            let q = signed::plus(
                Sgn { neg: d.neg, mag: single::quotient(d.mag, span) },
                Sgn { neg: true, mag: half() },
            );
            wrapped(
                signed::plus(
                    signed::minus(h, warm_step()),
                    Sgn { neg: q.neg, mag: single::product(spread(), q.mag) },
                ),
            )
        },
    }
}

proof fn lemma_constants()
    ensures
        single::wf(half()),
        single::wf(one()),
        single::wf(zero()),
        single::wf(warm_step()),
        single::wf(spread()),
        single::wf(turn()),
{
    float::lemma_up_values();
}

fn fraction(u: Single) -> (r: Single)
    requires
        single::wf(u@),
    ensures
        r@ == fract(u@),
        single::wf(r@),
{
    proof {
        lemma_constants();
        float::lemma_up_values();
    }
    match u {
        Single::Num(a) => if a.e >= 0 {
            Single::Num(Num { m: 0, e: -149 })
        } else if a.e < -24 {
            proof {
                float::lemma_up_mono(24, -a.e as int);
                vstd::arithmetic::div_mod::lemma_small_mod(
                    a.m as nat,
                    float::up(-a.e as int) as nat,
                );
                single::lemma_round_exact(a@);
            }
            u
        } else {
            proof {
                float::lemma_up_mono(-a.e as int, 24);
                float::lemma_up_pos(-a.e as int);
            }
            let whole: u64 = float::two_to((-a.e) as u32) as u64;
            single::rounded((a.m % whole) as u128, 1, a.e)
        },
        _ => Single::Nan,
    }
}

fn wrap(a: Signed) -> (r: Single)
    requires
        single::wf(a.mag@),
    ensures
        r@ == wrapped(a@),
        single::wf(r@),
{
    proof {
        lemma_constants();
    }
    let r = fraction(a.mag);
    if a.neg && Single::Num(Num { m: 0, e: -149 }).under(r) {
        proof {
            lemma_fract_below_one(a.mag@);
        }
        Single::Num(Num { m: 0x80_0000, e: -23 }).minus(r)
    } else {
        r
    }
}

/// What is behind the binary point is not above 1.
proof fn lemma_fract_below_one(u: Sgl)
    requires
        single::wf(u),
    ensures
        !single::less(one(), fract(u)),
        fract(u) is Num ==> single::at_most(fract(u), one()),
{
    lemma_constants();
    float::lemma_up_values();
    if let Sgl::Num(a) = u {
        if a.e < 0 {
            let n = a.m % float::up(-a.e);
            float::lemma_up_pos(-a.e);
            single::lemma_round_exact(one()->Num_0);
            vstd::arithmetic::div_mod::lemma_mod_bound(a.m, float::up(-a.e));
            float::lemma_up_unit(n);
            assert(float::ratio_le(n, 1, a.e, 0x80_0000, 1, -23)) by {
                if a.e <= -23 {
                    assert(float::up(a.e + 23) == 1);
                    float::lemma_up_add(23, -a.e - 23);
                } else {
                    assert(float::up(-23 - a.e) == 1);
                    float::lemma_up_add(a.e + 23, -a.e);
                    assert(n * float::up(a.e + 23) <= 0x80_0000) by (nonlinear_arith)
                        requires
                            0 <= n < float::up(-a.e),
                            float::up(a.e + 23) * float::up(-a.e) == 0x80_0000,
                            float::up(a.e + 23) >= 0,
                    ;
                }
            }
            single::lemma_round_mono(n, 1, a.e, 0x80_0000, 1, -23);
        } else {
            float::lemma_less_canonical(float::binary32(), one()->Num_0, zero()->Num_0);
        }
    }
}

pub fn hue_of(parent: Option<Single>, mid: Single, a0: Single, span: Single) -> (r: Single)
    requires
        parent matches Some(h) ==> single::wf(h@),
        single::wf(mid@),
        single::wf(a0@),
        single::wf(span@),
    ensures
        r@ == hue(
            match parent {
                Some(h) => Some(h@),
                None => None,
            },
            mid@,
            a0@,
            span@,
        ),
        single::wf(r@),
{
    proof {
        lemma_constants();
    }
    match parent {
        None => fraction(mid.over(Single::Num(Num { m: 13176795, e: -21 }))),
        Some(h) => {
            let d = signed::subtract(mid, a0);
            let q = signed::add_signed(
                Signed { neg: d.neg, mag: d.mag.over(span) },
                Signed { neg: true, mag: Single::Num(Num { m: 0x80_0000, e: -24 }) },
            );
            let warmer = signed::subtract(h, Single::Num(Num { m: 12079596, e: -28 }));
            let aside = Signed {
                neg: q.neg,
                mag: Single::Num(Num { m: 14763950, e: -27 }).times(q.mag),
            };
            wrap(signed::add_signed(warmer, aside))
        },
    }
}

/// A hue is a place on the wheel: a number from 0 to 1, unless the angles are
/// no numbers.
pub proof fn law_hue_on_wheel(parent: Option<Sgl>, mid: Sgl, a0: Sgl, span: Sgl)
    requires
        parent matches Some(h) ==> single::wf(h),
        single::wf(mid),
        single::wf(a0),
        single::wf(span),
    ensures
        hue(parent, mid, a0, span) is Nan || single::at_most(hue(parent, mid, a0, span), one()),
{
    lemma_constants();
    match parent {
        None => {
            single::lemma_quotient_wf(mid, turn());
            lemma_fract_below_one(single::quotient(mid, turn()));
        },
        Some(h) => {
            let d = signed::minus(mid, a0);
            signed::lemma_minus_wf(mid, a0);
            single::lemma_quotient_wf(d.mag, span);
            let e = Sgn { neg: d.neg, mag: single::quotient(d.mag, span) };
            let f = Sgn { neg: true, mag: half() };
            signed::lemma_plus_wf(e, f);
            let q = signed::plus(e, f);
            single::lemma_product_wf(spread(), q.mag);
            signed::lemma_minus_wf(h, warm_step());
            let x = signed::minus(h, warm_step());
            let y = Sgn { neg: q.neg, mag: single::product(spread(), q.mag) };
            signed::lemma_plus_wf(x, y);
            let r = fract(signed::plus(x, y).mag);
            lemma_fract_below_one(signed::plus(x, y).mag);
            if r is Num {
                lemma_fract_wf(signed::plus(x, y).mag);
                single::lemma_difference_below(one(), r);
            }
        },
    }
}

proof fn lemma_fract_wf(u: Sgl)
    requires
        single::wf(u),
    ensures
        single::wf(fract(u)),
        fract(u) !is Inf,
{
    lemma_constants();
    if let Sgl::Num(a) = u {
        if a.e < 0 {
            float::lemma_up_pos(-a.e);
            vstd::arithmetic::div_mod::lemma_mod_bound(a.m, float::up(-a.e));
            single::lemma_round_wf(a.m % float::up(-a.e), 1, a.e);
            lemma_fract_below_one(u);
        }
    }
}

} // verus!
