//! binary32 with its sign, for what may fall below 0 on the way.

use vstd::prelude::*;

use crate::single;
use crate::single::Sgl;
use crate::single::Single;

verus! {

/// A binary32 with its sign.
#[derive(Clone, Copy)]
pub struct Signed {
    pub neg: bool,
    pub mag: Single,
}

/// What a [`Signed`] stands for.
pub ghost struct Sgn {
    pub neg: bool,
    pub mag: Sgl,
}

impl View for Signed {
    type V = Sgn;

    open spec fn view(&self) -> Sgn {
        Sgn { neg: self.neg, mag: self.mag@ }
    }
}

/// A number that is not below 0.
pub open spec fn plain(u: Sgl) -> Sgn {
    Sgn { neg: false, mag: u }
}

/// `u - v`.
pub open spec fn minus(u: Sgl, v: Sgl) -> Sgn {
    if single::less(u, v) {
        Sgn { neg: true, mag: single::difference(v, u) }
    } else {
        Sgn { neg: false, mag: single::difference(u, v) }
    }
}

pub open spec fn plus(a: Sgn, b: Sgn) -> Sgn {
    if a.neg == b.neg {
        Sgn { neg: a.neg, mag: single::sum(a.mag, b.mag) }
    } else if a.neg {
        minus(b.mag, a.mag)
    } else {
        minus(a.mag, b.mag)
    }
}

pub open spec fn times(a: Sgn, b: Sgn) -> Sgn {
    Sgn { neg: a.neg != b.neg, mag: single::product(a.mag, b.mag) }
}

pub open spec fn over(a: Sgn, b: Sgn) -> Sgn {
    Sgn { neg: a.neg != b.neg, mag: single::quotient(a.mag, b.mag) }
}

/// `d <= u`; never so where one of them is not a number.
pub open spec fn not_above(d: Sgn, u: Sgl) -> bool {
    if d.neg {
        d.mag !is Nan && u !is Nan
    } else {
        single::at_most(d.mag, u)
    }
}

/// `u < d`.
pub open spec fn exceeds(d: Sgn, u: Sgl) -> bool {
    !d.neg && single::less(u, d.mag)
}

pub fn subtract(u: Single, v: Single) -> (r: Signed)
    requires
        single::wf(u@),
        single::wf(v@),
    ensures
        r@ == minus(u@, v@),
        single::wf(r.mag@),
{
    if u.under(v) {
        proof {
            single::lemma_less_asym(u@, v@);
        }
        Signed { neg: true, mag: v.minus(u) }
    } else {
        Signed { neg: false, mag: u.minus(v) }
    }
}

pub fn add_signed(a: Signed, b: Signed) -> (r: Signed)
    requires
        single::wf(a.mag@),
        single::wf(b.mag@),
    ensures
        r@ == plus(a@, b@),
        single::wf(r.mag@),
{
    if a.neg == b.neg {
        Signed { neg: a.neg, mag: a.mag.plus(b.mag) }
    } else if a.neg {
        subtract(b.mag, a.mag)
    } else {
        subtract(a.mag, b.mag)
    }
}

pub fn multiply(a: Signed, b: Signed) -> (r: Signed)
    requires
        single::wf(a.mag@),
        single::wf(b.mag@),
    ensures
        r@ == times(a@, b@),
        single::wf(r.mag@),
{
    Signed { neg: a.neg != b.neg, mag: a.mag.times(b.mag) }
}

pub fn divide(a: Signed, b: Signed) -> (r: Signed)
    requires
        single::wf(a.mag@),
        single::wf(b.mag@),
    ensures
        r@ == over(a@, b@),
        single::wf(r.mag@),
{
    Signed { neg: a.neg != b.neg, mag: a.mag.over(b.mag) }
}

pub fn is_not_above(d: Signed, u: Single) -> (r: bool)
    requires
        single::wf(d.mag@),
        single::wf(u@),
    ensures
        r == not_above(d@, u@),
{
    if d.neg {
        !d.mag.is_nan() && !u.is_nan()
    } else {
        d.mag.upto(u)
    }
}

pub fn does_exceed(d: Signed, u: Single) -> (r: bool)
    requires
        single::wf(d.mag@),
        single::wf(u@),
    ensures
        r == exceeds(d@, u@),
{
    !d.neg && u.under(d.mag)
}

pub proof fn lemma_minus_wf(u: Sgl, v: Sgl)
    requires
        single::wf(u),
        single::wf(v),
    ensures
        single::wf(minus(u, v).mag),
{
    if single::less(u, v) {
        single::lemma_less_asym(u, v);
        single::lemma_difference_wf(v, u);
    } else {
        single::lemma_difference_wf(u, v);
    }
}

pub proof fn lemma_plus_wf(a: Sgn, b: Sgn)
    requires
        single::wf(a.mag),
        single::wf(b.mag),
    ensures
        single::wf(plus(a, b).mag),
{
    if a.neg == b.neg {
        single::lemma_sum_wf(a.mag, b.mag);
    } else if a.neg {
        lemma_minus_wf(b.mag, a.mag);
    } else {
        lemma_minus_wf(a.mag, b.mag);
    }
}

} // verus!
