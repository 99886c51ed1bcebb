//! Binary floating point, rounded to nearest with ties to even, on integers.
//!
//! Sizes are shared out as angles and percentages in binary32 and binary64.
//! The values that occur are never negative, so a number here is a pair of a
//! significand `m` and an exponent `e` and stands for `m * 2^e`.

use vstd::arithmetic::mul::*;
use vstd::arithmetic::power2::*;
use vstd::prelude::*;

verus! {

// ------------------------------------------------------------ rounding

/// `2^k` for `k >= 0`, and 1 below.
pub open spec fn up(k: int) -> int {
    if k >= 0 {
        pow2(k as nat) as int
    } else {
        1
    }
}

/// `n / d` rounded to the nearest integer, a tie to the even one.
pub open spec fn half_even(n: int, d: int) -> int {
    let q = n / d;
    let r = n % d;
    if 2 * r < d || (2 * r == d && q % 2 == 0) {
        q
    } else {
        q + 1
    }
}

/// `a / b < 2^k`.
pub open spec fn below(a: int, b: int, k: int) -> bool {
    a * up(-k) < b * up(k)
}

/// The `k` with `2^(k-1) <= a / b < 2^k`.
pub open spec fn is_mag(a: int, b: int, k: int) -> bool {
    below(a, b, k) && !below(a, b, k - 1)
}

pub open spec fn mag(a: int, b: int) -> int {
    choose|k: int| is_mag(a, b, k)
}

/// A floating point format: the bits of a significand and the least exponent.
pub ghost struct Format {
    pub p: nat,
    pub emin: int,
}

/// IEEE 754 binary64.
pub open spec fn binary64() -> Format {
    Format { p: 53, emin: -1074 }
}

/// IEEE 754 binary32.
pub open spec fn binary32() -> Format {
    Format { p: 24, emin: -149 }
}

/// A finite number, `m * 2^e`.
pub ghost struct Flo {
    pub m: int,
    pub e: int,
}

/// `(a / b) * 2^x` rounded to a multiple of `2^e`, in units of `2^e`.
pub open spec fn quanta(a: int, b: int, x: int, e: int) -> int {
    half_even(a * up(x - e), b * up(e - x))
}

/// The exponent at which `(a / b) * 2^x` has a significand of `p` bits, or
/// the least exponent of the format.
pub open spec fn quantum(f: Format, a: int, b: int, x: int) -> int {
    let e = mag(a, b) + x - f.p;
    if e < f.emin {
        f.emin
    } else {
        e
    }
}

/// The number of the format that is nearest to `(a / b) * 2^x`, a tie to the
/// even significand. The exponent has no upper end.
pub open spec fn nearest(f: Format, a: int, b: int, x: int) -> Flo {
    if a == 0 {
        Flo { m: 0, e: f.emin }
    } else {
        let e = quantum(f, a, b, x);
        let m = quanta(a, b, x, e);
        if m == up(f.p as int) {
            Flo { m: up(f.p - 1), e: e + 1 }
        } else {
            Flo { m, e }
        }
    }
}

/// One value has one pair: the significand is full, or the exponent is least.
pub open spec fn canonical(f: Format, u: Flo) -> bool {
    &&& 0 <= u.m < up(f.p as int)
    &&& f.emin <= u.e
    &&& u.m >= up(f.p - 1) || u.e == f.emin
}

/// `u < v` as numbers.
pub open spec fn less(u: Flo, v: Flo) -> bool {
    u.m * up(u.e - v.e) < v.m * up(v.e - u.e)
}

// ------------------------------------------------------------ lemmas

pub proof fn lemma_up_pos(k: int)
    ensures
        up(k) >= 1,
        up(0) == 1,
{
    lemma2_to64();
    if k >= 0 {
        lemma_pow2_pos(k as nat);
    }
}

pub proof fn lemma_up_add(j: int, k: int)
    requires
        j >= 0,
        k >= 0,
    ensures
        up(j) * up(k) == up(j + k),
{
    lemma_pow2_adds(j as nat, k as nat);
}

pub proof fn lemma_up_step(k: int)
    requires
        k >= 0,
    ensures
        up(k + 1) == 2 * up(k),
{
    lemma_pow2_unfold((k + 1) as nat);
}

pub proof fn lemma_up_mono(j: int, k: int)
    requires
        j <= k,
    ensures
        up(j) <= up(k),
    decreases k - j,
{
    lemma_up_pos(k - 1);
    if k > 0 && j < k {
        lemma_up_mono(j, k - 1);
        lemma_up_step(k - 1);
    }
}

pub proof fn lemma_up_values()
    ensures
        up(0) == 1,
        up(7) == 128,
        up(23) == 0x80_0000,
        up(24) == 0x100_0000,
        up(52) == 0x10_0000_0000_0000,
        up(53) == 0x20_0000_0000_0000,
        up(64) == 0x1_0000_0000_0000_0000,
        up(71) == 0x80_0000_0000_0000_0000,
        up(106) == 0x400_0000_0000_0000_0000_0000_0000,
        up(110) == 0x4000_0000_0000_0000_0000_0000_0000,
        up(120) == 0x100_0000_0000_0000_0000_0000_0000_0000,
        up(127) == 0x8000_0000_0000_0000_0000_0000_0000_0000,
{
    lemma2_to64();
    lemma2_to64_rest();
    let w = up(64);
    lemma_up_add(7, 64);
    lemma_up_add(42, 64);
    lemma_up_add(46, 64);
    lemma_up_add(56, 64);
    lemma_up_add(63, 64);
    assert(w == 0x1_0000_0000_0000_0000);
    assert(up(7) * w == 128 * w) by (nonlinear_arith) requires up(7) == 128;
    assert(up(42) * w == 0x400_0000_0000 * w) by (nonlinear_arith) requires up(42) == 0x400_0000_0000;
    assert(up(46) * w == 0x4000_0000_0000 * w) by (nonlinear_arith) requires up(46) == 0x4000_0000_0000;
    assert(up(56) * w == 0x100_0000_0000_0000 * w) by (nonlinear_arith) requires up(56) == 0x100_0000_0000_0000;
    assert(up(63) * w == 0x8000_0000_0000_0000 * w) by (nonlinear_arith) requires up(63) == 0x8000_0000_0000_0000;
}

proof fn lemma_below_step(a: int, b: int, k: int)
    requires
        a >= 0,
        b > 0,
        below(a, b, k),
    ensures
        below(a, b, k + 1),
{
    lemma_up_pos(k);
    lemma_up_pos(-k - 1);
    if k >= 0 {
        lemma_up_step(k);
        assert(b * up(k + 1) >= b * up(k)) by (nonlinear_arith)
            requires
                up(k + 1) == 2 * up(k),
                b > 0,
                up(k) >= 1,
        ;
    } else {
        lemma_up_step(-k - 1);
        assert(a * up(-k - 1) <= a * up(-k)) by (nonlinear_arith)
            requires
                up(-k) == 2 * up(-k - 1),
                up(-k - 1) >= 1,
                a >= 0,
        ;
    }
}

proof fn lemma_below_mono(a: int, b: int, j: int, k: int)
    requires
        a >= 0,
        b > 0,
        j <= k,
        below(a, b, j),
    ensures
        below(a, b, k),
    decreases k - j,
{
    if j < k {
        lemma_below_mono(a, b, j, k - 1);
        lemma_below_step(a, b, k - 1);
    }
}

/// There is one magnitude.
proof fn lemma_mag_unique(a: int, b: int, k: int)
    requires
        a > 0,
        b > 0,
        is_mag(a, b, k),
    ensures
        mag(a, b) == k,
{
    let j = mag(a, b);
    assert(is_mag(a, b, j));
    if j < k {
        lemma_below_mono(a, b, j, k - 1);
    } else if k < j {
        lemma_below_mono(a, b, k, j - 1);
    }
}

/// A bound on a quotient is one on its magnitude.
pub proof fn lemma_mag_bounds(a: int, b: int, k: int)
    requires
        a > 0,
        b > 0,
    ensures
        below(a, b, k) ==> mag(a, b) <= k,
        !below(a, b, k) ==> mag(a, b) > k,
{
    lemma_mag_exists(a, b);
    let j = mag(a, b);
    if below(a, b, k) && j > k {
        lemma_below_mono(a, b, k, j - 1);
    }
    if !below(a, b, k) && j <= k {
        lemma_below_mono(a, b, j, k);
    }
}

/// There is a magnitude.
proof fn lemma_mag_exists(a: int, b: int)
    requires
        a > 0,
        b > 0,
    ensures
        is_mag(a, b, mag(a, b)),
{
    lemma_pow2_exceeds(a);
    lemma_pow2_exceeds(b);
    lemma_up_pos(0);
    assert(below(a, b, a)) by (nonlinear_arith)
        requires
            below(a, b, a) == (a * up(-a) < b * up(a)),
            up(-a) == 1,
            up(a) > a,
            b >= 1,
            a > 0,
    ;
    assert(!below(a, b, -b)) by (nonlinear_arith)
        requires
            below(a, b, -b) == (a * up(b) < b * up(-b)),
            up(-b) == 1,
            up(b) > b,
            a >= 1,
            b > 0,
    ;
    lemma_mag_between(a, b, -b, a);
}

proof fn lemma_pow2_exceeds(n: int)
    requires
        n >= 0,
    ensures
        up(n) > n,
    decreases n,
{
    lemma_up_pos(n);
    if n > 0 {
        lemma_pow2_exceeds(n - 1);
        lemma_up_step(n - 1);
    }
}

proof fn lemma_mag_between(a: int, b: int, lo: int, hi: int)
    requires
        a > 0,
        b > 0,
        lo <= hi,
        !below(a, b, lo),
        below(a, b, hi),
    ensures
        is_mag(a, b, mag(a, b)),
    decreases hi - lo,
{
    if below(a, b, hi - 1) {
        lemma_mag_between(a, b, lo, hi - 1);
    } else {
        assert(is_mag(a, b, hi));
    }
}

/// What `half_even` returns is `q` with `|n / d - q| <= 1/2`.
pub proof fn lemma_half_even(n: int, d: int)
    requires
        d > 0,
    ensures
        2 * n - d <= 2 * d * half_even(n, d) <= 2 * n + d,
        n >= 0 ==> half_even(n, d) >= 0,
{
    let q = n / d;
    let r = n % d;
    assert(n == d * q + r && 0 <= r < d) by (nonlinear_arith)
        requires
            q == n / d,
            r == n % d,
            d > 0,
    ;
    assert(2 * d * (q + 1) == 2 * (d * q) + 2 * d) by (nonlinear_arith);
    assert(2 * d * q == 2 * (d * q)) by (nonlinear_arith);
    if n >= 0 {
        assert(q >= 0) by (nonlinear_arith)
            requires
                n == d * q + r,
                0 <= r < d,
                n >= 0,
                d > 0,
        ;
    }
}

/// `q` with `|n / d - q| < 1/2` is what `half_even` returns.
pub proof fn lemma_half_even_is(n: int, d: int, q: int)
    requires
        d > 0,
        2 * n - d < 2 * d * q < 2 * n + d,
    ensures
        half_even(n, d) == q,
{
    lemma_half_even(n, d);
    let h = half_even(n, d);
    assert(h == q) by (nonlinear_arith)
        requires
            d > 0,
            2 * n - d < 2 * d * q < 2 * n + d,
            2 * n - d <= 2 * d * h <= 2 * n + d,
    ;
}

/// Rounding keeps order.
pub proof fn lemma_half_even_mono(n1: int, d1: int, n2: int, d2: int)
    requires
        d1 > 0,
        d2 > 0,
        n1 * d2 <= n2 * d1,
    ensures
        half_even(n1, d1) <= half_even(n2, d2),
{
    let q1 = n1 / d1;
    let r1 = n1 % d1;
    let q2 = n2 / d2;
    let r2 = n2 % d2;
    assert(n1 == d1 * q1 + r1 && 0 <= r1 < d1) by (nonlinear_arith)
        requires
            q1 == n1 / d1,
            r1 == n1 % d1,
            d1 > 0,
    ;
    assert(n2 == d2 * q2 + r2 && 0 <= r2 < d2) by (nonlinear_arith)
        requires
            q2 == n2 / d2,
            r2 == n2 % d2,
            d2 > 0,
    ;
    assert(q1 <= q2) by (nonlinear_arith)
        requires
            d1 > 0,
            d2 > 0,
            n1 * d2 <= n2 * d1,
            n1 == d1 * q1 + r1,
            0 <= r1 < d1,
            n2 == d2 * q2 + r2,
            0 <= r2 < d2,
    ;
    if q1 == q2 {
        assert(r1 * d2 <= r2 * d1) by (nonlinear_arith)
            requires
                n1 * d2 <= n2 * d1,
                n1 == d1 * q1 + r1,
                n2 == d2 * q1 + r2,
        ;
        if 2 * r2 < d2 || (2 * r2 == d2 && q2 % 2 == 0) {
            assert(2 * r1 < d1 || (2 * r1 == d1 && 2 * r2 == d2)) by (nonlinear_arith)
                requires
                    r1 * d2 <= r2 * d1,
                    2 * r2 <= d2,
                    d1 > 0,
                    d2 > 0,
            ;
        }
    }
}

/// `a / b < 2^(p+y)`, with the quotient scaled by `2^-y` first.
proof fn lemma_below_scaled(a: int, b: int, y: int, p: int)
    requires
        a >= 0,
        b > 0,
        p >= 0,
    ensures
        below(a, b, p + y) <==> a * up(-y) < b * up(y) * up(p),
{
    lemma_up_pos(y);
    if y >= 0 {
        lemma_up_add(y, p);
        lemma_mul_is_associative(b, up(y), up(p));
    } else if p + y >= 0 {
        lemma_up_add(p + y, -y);
        lemma_up_pos(-y);
        let t = up(-y);
        let s = up(p + y);
        assert((a < b * s) <==> (a * t < b * (s * t))) by (nonlinear_arith)
            requires
                t >= 1,
        ;
    } else {
        lemma_up_add(-(p + y), p);
        lemma_up_pos(p);
        let t = up(p);
        let s = up(-(p + y));
        assert((a * s < b) <==> (a * (s * t) < b * t)) by (nonlinear_arith)
            requires
                t >= 1,
        ;
    }
}

/// The scaled quotient is below `2^p`, and full where the exponent is not
/// the least.
proof fn lemma_quantum(f: Format, a: int, b: int, x: int)
    requires
        a > 0,
        b > 0,
        f.p >= 1,
    ensures
        ({
            let e = quantum(f, a, b, x);
            let n = a * up(x - e);
            let d = b * up(e - x);
            &&& e >= f.emin
            &&& d > 0
            &&& n >= 0
            &&& n < d * up(f.p as int)
            &&& e > f.emin ==> n >= d * up(f.p - 1)
        }),
{
    let e = quantum(f, a, b, x);
    let k = mag(a, b);
    lemma_mag_exists(a, b);
    lemma_below_mono(a, b, k, f.p + (e - x));
    lemma_below_scaled(a, b, e - x, f.p as int);
    lemma_below_scaled(a, b, e - x, f.p - 1);
    lemma_up_pos(x - e);
    lemma_up_pos(e - x);
    lemma_mul_strictly_positive(b, up(e - x));
    lemma_mul_nonnegative(a, up(x - e));
}

/// What `nearest` returns is a number of the format.
pub proof fn lemma_nearest_canonical(f: Format, a: int, b: int, x: int)
    requires
        a >= 0,
        b > 0,
        f.p >= 1,
    ensures
        canonical(f, nearest(f, a, b, x)),
        a > 0 ==> 0 <= quanta(a, b, x, quantum(f, a, b, x)) <= up(f.p as int),
{
    lemma_up_pos(f.p as int);
    lemma_up_pos(f.p - 1);
    lemma_up_step(f.p - 1);
    if a > 0 {
        lemma_quantum(f, a, b, x);
        let e = quantum(f, a, b, x);
        let n = a * up(x - e);
        let d = b * up(e - x);
        let m = half_even(n, d);
        let t = up(f.p as int);
        let h = up(f.p - 1);
        lemma_half_even(n, d);
        assert(m <= t) by (nonlinear_arith)
            requires
                n < d * t,
                d > 0,
                2 * d * m <= 2 * n + d,
        ;
        if e > f.emin {
            assert(m >= h) by (nonlinear_arith)
                requires
                    n >= d * h,
                    d > 0,
                    2 * n - d <= 2 * d * m,
            ;
        }
    }
}

/// Rounding is off by at most one part in `2^p`, where the significand is full
/// or the quotient is a multiple of the least number: seen in multiples of that
/// number, and times `b`.
pub proof fn lemma_nearest_close(f: Format, a: int, b: int, x: int)
    requires
        a >= 0,
        b > 0,
        f.p >= 1,
        x >= f.emin,
        b == 1 || a == 0 || quantum(f, a, b, x) > f.emin,
    ensures
        ({
            let u = nearest(f, a, b, x);
            let v = b * (u.m * up(u.e - f.emin));
            let t = a * up(x - f.emin);
            up(f.p as int) * t - t <= up(f.p as int) * v <= up(f.p as int) * t + t
        }),
{
    let u = nearest(f, a, b, x);
    lemma_up_pos(f.p as int);
    if a == 0 {
        assert(u.m * up(u.e - f.emin) == 0);
        assert(b * 0 == 0);
        assert(0 * up(x - f.emin) == 0);
    } else {
        let e = quantum(f, a, b, x);
        let n = a * up(x - e);
        let d = b * up(e - x);
        let m = half_even(n, d);
        let p = up(f.p as int);
        let h = up(f.p - 1);
        lemma_quantum(f, a, b, x);
        lemma_half_even(n, d);
        lemma_up_step(f.p - 1);
        lemma_up_pos(e - x);
        lemma_up_pos(x - e);
        assert(p * n - n <= p * (d * m) <= p * n + n) by {
            if e > f.emin {
                assert(p * n - n <= p * (d * m) <= p * n + n) by (nonlinear_arith)
                    requires
                        2 * n - d <= 2 * d * m <= 2 * n + d,
                        n >= d * h,
                        p == 2 * h,
                        p >= 1,
                        h >= 0,
                ;
            } else {
                assert(up(e - x) == 1);
                assert(d == 1);
                lemma_half_even_is(n, 1, n);
                assert(d * m == n) by (nonlinear_arith)
                    requires
                        d == 1,
                        m == n,
                ;
            }
        }
        // the value of the significand before a carry
        let c = if e >= x {
            up(x - f.emin)
        } else {
            up(e - f.emin)
        };
        lemma_up_pos(x - f.emin);
        lemma_up_pos(e - f.emin);
        lemma_carry(f, a, b, x);
        assert(u.m * up(u.e - f.emin) == m * up(e - f.emin));
        if e >= x {
            lemma_up_add(e - x, x - f.emin);
            assert(up(x - e) == 1);
            assert(b * (m * (up(e - x) * c)) == (b * up(e - x)) * m * c) by (nonlinear_arith);
            assert(a * c == n * c) by {
                lemma_mul_basics(a);
            }
        } else {
            lemma_up_add(x - e, e - f.emin);
            assert(up(e - x) == 1);
            assert(b * (m * c) == (b * 1) * m * c) by (nonlinear_arith);
            assert(a * (up(x - e) * c) == n * c) by (nonlinear_arith)
                requires
                    n == a * up(x - e),
            ;
        }
        assert(p * (n * c) - n * c <= p * (d * m * c) <= p * (n * c) + n * c) by (nonlinear_arith)
            requires
                p * n - n <= p * (d * m) <= p * n + n,
                c >= 1,
        ;
    }
}

/// What has no more bits than the format is not rounded.
pub proof fn lemma_nearest_whole(f: Format, a: int, x: int)
    requires
        a > 0,
        f.p >= 1,
        x >= f.emin,
        mag(a, 1) <= f.p,
    ensures
        ({
            let u = nearest(f, a, 1, x);
            u.m * up(u.e - f.emin) == a * up(x - f.emin)
        }),
{
    let e = quantum(f, a, 1, x);
    let n = a * up(x - e);
    lemma_quantum(f, a, 1, x);
    lemma_carry(f, a, 1, x);
    lemma_up_pos(0);
    assert(up(e - x) == 1);
    lemma_half_even_is(n, 1, n);
    lemma_up_add(x - e, e - f.emin);
    let p = up(x - e);
    let q = up(e - f.emin);
    assert((a * p) * q == a * (p * q)) by (nonlinear_arith);
}

/// A carry into the next exponent keeps the value.
proof fn lemma_carry(f: Format, a: int, b: int, x: int)
    requires
        a > 0,
        b > 0,
        f.p >= 1,
    ensures
        ({
            let u = nearest(f, a, b, x);
            let e = quantum(f, a, b, x);
            u.m * up(u.e - f.emin) == quanta(a, b, x, e) * up(e - f.emin)
        }),
{
    let e = quantum(f, a, b, x);
    lemma_quantum(f, a, b, x);
    lemma_up_step(f.p - 1);
    lemma_up_step(e - f.emin);
    let h = up(f.p - 1);
    let s = up(e - f.emin);
    assert(h * (2 * s) == (2 * h) * s) by (nonlinear_arith);
}

/// A common factor does not matter to a quotient.
proof fn lemma_half_even_scaled(n: int, d: int, c: int)
    requires
        d > 0,
        c > 0,
        n >= 0,
    ensures
        half_even(n * c, d * c) == half_even(n, d),
{
    let q = n / d;
    let r = n % d;
    assert(n == d * q + r && 0 <= r < d) by (nonlinear_arith)
        requires
            q == n / d,
            r == n % d,
            d > 0,
    ;
    assert(n * c == (d * c) * q + r * c) by (nonlinear_arith)
        requires
            n == d * q + r,
    ;
    assert(0 <= r * c < d * c) by (nonlinear_arith)
        requires
            0 <= r < d,
            c > 0,
    ;
    vstd::arithmetic::div_mod::lemma_fundamental_div_mod_converse(n * c, d * c, q, r * c);
    assert((2 * (r * c) < d * c) == (2 * r < d)) by (nonlinear_arith)
        requires
            c > 0,
    ;
    assert((2 * (r * c) == d * c) == (2 * r == d)) by (nonlinear_arith)
        requires
            c > 0,
    ;
}

proof fn lemma_below_shift(a: int, b: int, k: int, j: int)
    requires
        a >= 0,
        b > 0,
        j >= 0,
    ensures
        below(a * up(j), b, k + j) <==> below(a, b, k),
{
    let t = up(j);
    lemma_up_pos(j);
    lemma_up_pos(k);
    if k >= 0 {
        lemma_up_add(k, j);
        let s = up(k);
        assert((a * t < b * (s * t)) <==> (a < b * s)) by (nonlinear_arith)
            requires
                t >= 1,
        ;
    } else if k + j >= 0 {
        lemma_up_add(-k, k + j);
        lemma_up_pos(k + j);
        let s = up(-k);
        let w = up(k + j);
        assert((a * (s * w) < b * w) <==> (a * s < b)) by (nonlinear_arith)
            requires
                w >= 1,
        ;
    } else {
        lemma_up_add(j, -(k + j));
        let w = up(-(k + j));
        lemma_mul_is_associative(a, t, w);
    }
}

/// A factor of `2^j` and a shift of the exponent by `-j` cancel.
pub proof fn lemma_nearest_shift(f: Format, a: int, b: int, x: int, j: int)
    requires
        a >= 0,
        b > 0,
        f.p >= 1,
        j >= 0,
    ensures
        nearest(f, a * up(j), b, x - j) == nearest(f, a, b, x),
{
    let t = up(j);
    lemma_up_pos(j);
    if a > 0 {
        lemma_mul_strictly_positive(a, t);
        lemma_mag_exists(a, b);
        let k = mag(a, b);
        lemma_below_shift(a, b, k, j);
        lemma_below_shift(a, b, k - 1, j);
        lemma_mag_unique(a * t, b, k + j);
        let e = quantum(f, a, b, x);
        let y = e - x;
        lemma_up_pos(y);
        lemma_up_pos(-y);
        if y >= 0 {
            lemma_up_add(y, j);
            lemma_mul_is_associative(b, up(y), t);
            lemma_mul_strictly_positive(b, up(y));
            lemma_half_even_scaled(a, b * up(y), t);
        } else if y + j <= 0 {
            lemma_up_add(j, -(y + j));
            lemma_mul_is_associative(a, t, up(-(y + j)));
        } else {
            lemma_up_add(-y, y + j);
            lemma_up_pos(y + j);
            lemma_mul_is_associative(a, up(-y), up(y + j));
            lemma_mul_nonnegative(a, up(-y));
            lemma_half_even_scaled(a * up(-y), b, up(y + j));
        }
    }
}

/// `(a1 / b1) * 2^x1 <= (a2 / b2) * 2^x2`.
pub open spec fn ratio_le(a1: int, b1: int, x1: int, a2: int, b2: int, x2: int) -> bool {
    (a1 * up(x1 - x2)) * b2 <= (a2 * up(x2 - x1)) * b1
}

/// Rounding keeps order.
pub proof fn lemma_nearest_mono(f: Format, a1: int, b1: int, x1: int, a2: int, b2: int, x2: int)
    requires
        a1 >= 0,
        b1 > 0,
        a2 >= 0,
        b2 > 0,
        f.p >= 1,
        ratio_le(a1, b1, x1, a2, b2, x2),
    ensures
        !less(nearest(f, a2, b2, x2), nearest(f, a1, b1, x1)),
{
    lemma_up_pos(x1 - x2);
    lemma_up_pos(x2 - x1);
    if x1 >= x2 {
        lemma_nearest_shift(f, a1, b1, x1, x1 - x2);
        lemma_mul_nonnegative(a1, up(x1 - x2));
        lemma_nearest_mono_at(f, a1 * up(x1 - x2), b1, a2, b2, x2);
    } else {
        lemma_nearest_shift(f, a2, b2, x2, x2 - x1);
        lemma_mul_nonnegative(a2, up(x2 - x1));
        lemma_nearest_mono_at(f, a1, b1, a2 * up(x2 - x1), b2, x1);
    }
}

proof fn lemma_nearest_mono_at(f: Format, a1: int, b1: int, a2: int, b2: int, x: int)
    requires
        a1 >= 0,
        b1 > 0,
        a2 >= 0,
        b2 > 0,
        f.p >= 1,
        a1 * b2 <= a2 * b1,
    ensures
        !less(nearest(f, a2, b2, x), nearest(f, a1, b1, x)),
{
    let u = nearest(f, a1, b1, x);
    let v = nearest(f, a2, b2, x);
    lemma_nearest_canonical(f, a1, b1, x);
    lemma_nearest_canonical(f, a2, b2, x);
    lemma_up_pos(u.e - v.e);
    lemma_up_pos(v.e - u.e);
    if a1 == 0 {
        lemma_mul_nonnegative(v.m, up(v.e - u.e));
        assert(u.m * up(u.e - v.e) == 0);
    } else {
        assert(a2 > 0) by (nonlinear_arith)
            requires
                a1 >= 1,
                b2 >= 1,
                b1 > 0,
                a1 * b2 <= a2 * b1,
        ;
        lemma_mag_exists(a1, b1);
        lemma_mag_exists(a2, b2);
        let k = mag(a2, b2);
        lemma_up_pos(k);
        lemma_up_pos(-k);
        let s = up(-k);
        let t = up(k);
        assert(a1 * s < b1 * t) by (nonlinear_arith)
            requires
                a2 * s < b2 * t,
                a1 * b2 <= a2 * b1,
                b1 > 0,
                b2 > 0,
                s >= 1,
                t >= 1,
        ;
        if mag(a1, b1) > k {
            lemma_below_mono(a1, b1, k, mag(a1, b1) - 1);
        }
        let e1 = quantum(f, a1, b1, x);
        let e2 = quantum(f, a2, b2, x);
        assert(e1 <= e2);
        lemma_up_step(f.p - 1);
        lemma_up_pos(f.p - 1);
        if e1 == e2 {
            let c = up(x - e1);
            let d = up(e1 - x);
            lemma_up_pos(x - e1);
            lemma_up_pos(e1 - x);
            lemma_mul_strictly_positive(b1, d);
            lemma_mul_strictly_positive(b2, d);
            assert((a1 * c) * (b2 * d) <= (a2 * c) * (b1 * d)) by (nonlinear_arith)
                requires
                    a1 * b2 <= a2 * b1,
                    c >= 1,
                    d >= 1,
            ;
            lemma_half_even_mono(a1 * c, b1 * d, a2 * c, b2 * d);
            lemma_less_renormalised(f, quanta(a1, b1, x, e1), quanta(a2, b2, x, e1), e1);
        } else {
            // u <= 2^(p-1) * 2^(e1+1) <= v
            lemma_quantum(f, a2, b2, x);
            let h = up(f.p - 1);
            assert(v.m >= h);
            assert(u.e == e1 ==> u.m <= 2 * h);
            assert(u.e == e1 || (u.e == e1 + 1 && u.m == h));
            if u.e < v.e {
                lemma_up_step(v.e - u.e - 1);
                lemma_up_pos(v.e - u.e - 1);
                let w = up(v.e - u.e - 1);
                assert(v.m * up(v.e - u.e) >= u.m) by (nonlinear_arith)
                    requires
                        up(v.e - u.e) == 2 * w,
                        w >= 1,
                        v.m >= h,
                        u.m <= 2 * h,
                        h >= 1,
                ;
            } else {
                assert(u.e == v.e);
            }
        }
    }
}

/// Carrying into the next exponent changes no value.
proof fn lemma_less_renormalised(f: Format, m1: int, m2: int, e: int)
    requires
        f.p >= 1,
        0 <= m1 <= m2 <= up(f.p as int),
    ensures
        ({
            let u = if m1 == up(f.p as int) {
                Flo { m: up(f.p - 1), e: e + 1 }
            } else {
                Flo { m: m1, e }
            };
            let v = if m2 == up(f.p as int) {
                Flo { m: up(f.p - 1), e: e + 1 }
            } else {
                Flo { m: m2, e }
            };
            !less(v, u)
        }),
{
    lemma_up_step(f.p - 1);
    lemma_up_unit(m1);
    lemma_up_unit(m2);
    lemma_up_unit(up(f.p - 1));
}

pub proof fn lemma_up_unit(m: int)
    ensures
        m * up(0) == m,
        m * up(-1) == m,
        m * up(1) == 2 * m,
{
    lemma2_to64();
    assert(m * up(0) == m && m * up(-1) == m && m * up(1) == 2 * m) by (nonlinear_arith)
        requires
            up(0) == 1,
            up(-1) == 1,
            up(1) == 2,
    ;
}

/// A number of the format is its own nearest one.
pub proof fn lemma_nearest_exact(f: Format, u: Flo)
    requires
        f.p >= 1,
        canonical(f, u),
    ensures
        nearest(f, u.m, 1, u.e) == u,
{
    lemma_up_pos(f.p - 1);
    if u.m > 0 {
        lemma_mag_exists(u.m, 1);
        let k = mag(u.m, 1);
        lemma_up_pos(k);
        lemma_up_pos(f.p as int);
        if k > f.p {
            lemma_below_mono(u.m, 1, f.p as int, k - 1);
        }
        assert(k <= f.p);
        if u.e > f.emin {
            if k < f.p {
                lemma_below_mono(u.m, 1, k, f.p - 1);
            }
            assert(k == f.p);
        }
        assert(quantum(f, u.m, 1, u.e) == u.e);
        lemma_half_even_is(u.m, 1, u.m);
        lemma_up_unit(u.m);
        lemma_up_unit(1);
    }
}

/// Pairs of the format are ordered by exponent, then by significand.
pub proof fn lemma_less_canonical(f: Format, u: Flo, v: Flo)
    requires
        f.p >= 1,
        canonical(f, u),
        canonical(f, v),
    ensures
        less(u, v) <==> (u.e < v.e || (u.e == v.e && u.m < v.m)),
{
    lemma_up_unit(u.m);
    lemma_up_unit(v.m);
    lemma_up_step(f.p - 1);
    lemma_up_pos(f.p - 1);
    if u.e < v.e {
        lemma_less_wide(f, u, v);
    } else if v.e < u.e {
        lemma_less_wide(f, v, u);
    }
}

proof fn lemma_less_wide(f: Format, u: Flo, v: Flo)
    requires
        f.p >= 1,
        canonical(f, u),
        canonical(f, v),
        u.e < v.e,
    ensures
        less(u, v),
        !less(v, u),
{
    lemma_up_step(f.p - 1);
    lemma_up_pos(f.p - 1);
    lemma_up_step(v.e - u.e - 1);
    lemma_up_pos(v.e - u.e - 1);
    let w = up(v.e - u.e - 1);
    let h = up(f.p - 1);
    assert(v.m * up(v.e - u.e) > u.m) by (nonlinear_arith)
        requires
            up(v.e - u.e) == 2 * w,
            w >= 1,
            v.m >= h,
            u.m < 2 * h,
            h >= 1,
    ;
}

// ------------------------------------------------------------ arithmetic

pub(crate) fn two_to(k: u32) -> (r: u128)
    requires
        k < 128,
    ensures
        r == up(k as int),
{
    let mut r: u128 = 1;
    let mut i: u32 = 0;
    proof {
        lemma_up_pos(0);
    }
    while i < k
        invariant
            i <= k < 128,
            r == up(i as int),
        decreases k - i,
    {
        proof {
            lemma_up_step(i as int);
            lemma_up_mono(i + 1, 127);
            lemma_up_values();
        }
        r = r * 2;
        i = i + 1;
    }
    r
}

/// The number of binary digits.
fn bit_len(a: u128) -> (r: u32)
    requires
        0 < a < up(120),
    ensures
        1 <= r <= 120,
        up(r - 1) <= a < up(r as int),
{
    let mut r: u32 = 0;
    let mut t: u128 = 1;
    proof {
        lemma_up_pos(0);
        lemma_up_values();
    }
    while t <= a
        invariant
            0 < a < up(120) < 0x8000_0000_0000_0000_0000_0000_0000_0000,
            0 <= r <= 120,
            t == up(r as int),
            r > 0 ==> up(r - 1) <= a,
        decreases 120 - r,
    {
        proof {
            lemma_up_step(r as int);
            if r == 120 {
                assert(false);
            }
        }
        t = t * 2;
        r = r + 1;
    }
    r
}

pub(crate) fn divide_half_even(n: u128, d: u128) -> (r: u128)
    requires
        d > 0,
    ensures
        r == half_even(n as int, d as int),
{
    let q = n / d;
    let r = n % d;
    proof {
        if d > 1 {
            assert(q * 2 <= n) by (nonlinear_arith)
                requires
                    q == n as int / d as int,
                    d > 1,
                    n >= 0,
            ;
        }
    }
    if r < d - r || (r == d - r && q % 2 == 0) {
        q
    } else {
        q + 1
    }
}

/// A finite number.
#[derive(Clone, Copy)]
pub struct Num {
    pub m: u64,
    pub e: i32,
}

impl View for Num {
    type V = Flo;

    open spec fn view(&self) -> Flo {
        Flo { m: self.m as int, e: self.e as int }
    }
}

/// The `k` with `2^(k-1) <= a / b < 2^k`.
fn magnitude(a: u128, b: u64) -> (k: i32)
    requires
        0 < a < up(110),
        0 < b,
    ensures
        k == mag(a as int, b as int),
        is_mag(a as int, b as int, k as int),
        -64 <= k <= 110,
{
    proof {
        lemma_up_values();
    }
    let la = bit_len(a);
    let lb = bit_len(b as u128);
    proof {
        if la > 110 {
            lemma_up_mono(110, la - 1);
        }
        if lb > 64 {
            lemma_up_mono(64, lb - 1);
        }
        lemma_up_pos(la - lb);
        lemma_up_pos(lb - la);
    }
    let ghost k = la - lb;
    proof {
        // a / b < 2^(la - lb + 1)
        assert(below(a as int, b as int, k + 1)) by {
            lemma_below_lengths(a as int, b as int, la as int, lb as int);
        }
        assert(!below(a as int, b as int, k - 1)) by {
            lemma_below_lengths(a as int, b as int, la as int, lb as int);
        }
    }
    let under = if la >= lb {
        let s = two_to(la - lb);
        proof {
            lemma_up_add(lb - 1, la - lb);
            lemma_up_step(lb - 1);
            lemma_up_step(la - 1);
            lemma_up_add(lb as int, la - lb);
            lemma_up_mono(la as int, 120);
            assert(b * s <= up(lb as int) * s) by (nonlinear_arith)
                requires
                    b <= up(lb as int),
                    s >= 0,
            ;
        }
        a < (b as u128) * s
    } else {
        let s = two_to(lb - la);
        proof {
            lemma_up_add(la as int, lb - la);
            lemma_up_mono(lb as int, 64);
            assert(a * s <= up(la as int) * s) by (nonlinear_arith)
                requires
                    a <= up(la as int),
                    s >= 0,
            ;
        }
        a * s < b as u128
    };
    let k = la as i32 - lb as i32;
    let r = if under {
        k
    } else {
        k + 1
    };
    proof {
        assert(under == below(a as int, b as int, k as int));
        lemma_mag_unique(a as int, b as int, r as int);
        if r == 111 {
            assert(lb == 1 && la == 110);
            assert(false) by {
                assert(up(0) == 1 && up(1) == 2) by {
                    lemma2_to64();
                }
                assert(b == 1);
                lemma_below_mono(a as int, b as int, 110, 110);
            }
        }
    }
    r
}

proof fn lemma_below_lengths(a: int, b: int, la: int, lb: int)
    requires
        1 <= la,
        1 <= lb,
        up(la - 1) <= a < up(la),
        up(lb - 1) <= b < up(lb),
    ensures
        below(a, b, la - lb + 1),
        !below(a, b, la - lb - 1),
{
    lemma_up_pos(la - 1);
    lemma_up_pos(lb - 1);
    let k = la - lb + 1;
    lemma_up_pos(k);
    lemma_up_pos(-k);
    if k >= 0 {
        lemma_up_add(lb - 1, k);
        assert(a < b * up(k)) by (nonlinear_arith)
            requires
                a < up(la),
                up(lb - 1) * up(k) == up(la),
                up(lb - 1) <= b,
                up(k) >= 1,
        ;
    } else {
        lemma_up_add(la, -k);
        assert(a * up(-k) < b) by (nonlinear_arith)
            requires
                a < up(la),
                up(la) * up(-k) == up(lb - 1),
                up(lb - 1) <= b,
                up(-k) >= 1,
        ;
    }
    let j = la - lb - 1;
    lemma_up_pos(j);
    lemma_up_pos(-j);
    if j >= 0 {
        lemma_up_add(lb, j);
        assert(a >= b * up(j)) by (nonlinear_arith)
            requires
                a >= up(la - 1),
                up(lb) * up(j) == up(la - 1),
                up(lb) >= b,
                up(j) >= 1,
        ;
    } else {
        lemma_up_add(la - 1, -j);
        assert(a * up(-j) >= b) by (nonlinear_arith)
            requires
                a >= up(la - 1),
                up(la - 1) * up(-j) == up(lb),
                up(lb) >= b,
                up(-j) >= 1,
        ;
    }
}

/// `(a / b) * 2^x` rounded to `p` bits.
pub(crate) fn round_to(p: u32, emin: i32, a: u128, b: u64, x: i32) -> (r: Num)
    requires
        2 <= p <= 53,
        -2000 <= emin <= 0,
        a < up(110),
        0 < b,
        -4000 <= x <= 4000,
    ensures
        r@ == nearest(Format { p: p as nat, emin: emin as int }, a as int, b as int, x as int),
        canonical(Format { p: p as nat, emin: emin as int }, r@),
        a == 0 ==> r.e == emin,
        a > 0 ==> r.e <= quantum(
            Format { p: p as nat, emin: emin as int },
            a as int,
            b as int,
            x as int,
        ) + 1,
        a > 0 ==> -64 <= mag(a as int, b as int) <= 110,
{
    let ghost f = Format { p: p as nat, emin: emin as int };
    proof {
        lemma_nearest_canonical(f, a as int, b as int, x as int);
        lemma_up_values();
    }
    if a == 0 {
        return Num { m: 0, e: emin };
    }
    let k = magnitude(a, b);
    let full = k + x - p as i32;
    let e = if full < emin {
        emin
    } else {
        full
    };
    let y = e - x;
    let ghost n = a * up(x - e);
    let ghost d = b * up(e - x);
    proof {
        lemma_quantum(f, a as int, b as int, x as int);
        lemma_up_mono(p as int, 53);
        lemma_up_mono(2, p as int);
        lemma2_to64();
        lemma_up_pos(x - e);
        lemma_up_pos(e - x);
    }
    let m: u128 = if y <= 0 {
        proof {
            assert(n < b * up(p as int));
            assert(b * up(p as int) <= up(64) * up(53)) by (nonlinear_arith)
                requires
                    0 < b <= up(64),
                    0 <= up(p as int) <= up(53),
            ;
            lemma_up_add(64, 53);
            lemma_up_mono(117, 120);
            if -y >= 120 {
                lemma_up_mono(120, -y as int);
                assert(n >= up(120)) by (nonlinear_arith)
                    requires
                        n == a * up(x - e),
                        a >= 1,
                        up(x - e) >= up(120),
                ;
            }
        }
        let s = two_to((-y) as u32);
        proof {
            assert(d == b);
            assert(n == a * s);
        }
        divide_half_even(a * s, b as u128)
    } else {
        let lb = bit_len(b as u128);
        proof {
            if lb > 64 {
                lemma_up_mono(64, lb - 1);
            }
            lemma_up_add(lb - 1, y as int);
            lemma_up_add(lb as int, y as int);
            assert(n == a);
            assert(up(lb - 1) * up(y as int) <= d <= up(lb as int) * up(y as int)) by (nonlinear_arith)
                requires
                    up(lb - 1) <= b <= up(lb as int),
                    d == b * up(y as int),
                    up(y as int) >= 1,
            ;
        }
        if lb as i32 + y > 120 {
            proof {
                lemma_up_mono(120, lb - 1 + y);
                lemma_half_even_is(n, d, 0);
            }
            0
        } else {
            let s = two_to(y as u32);
            proof {
                lemma_up_mono(lb + y, 120);
            }
            divide_half_even(a, (b as u128) * s)
        }
    };
    let half = two_to(p - 1);
    proof {
        lemma_up_step(p - 1);
        assert(m == quanta(a as int, b as int, x as int, e as int));
    }
    if m == 2 * half {
        Num { m: half as u64, e: e + 1 }
    } else {
        Num { m: m as u64, e }
    }
}

} // verus!
