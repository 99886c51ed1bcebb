//! How sizes and shares are told.

use vstd::prelude::*;

use crate::double;
use crate::float;
use crate::float::Flo;
use crate::laws::look::grains;
use crate::laws::look::lemma_double;
use crate::laws::look::lemma_double_least;
use crate::sizes;
use crate::text;
use crate::tree::Tree;

verus! {

/// Tenths of a number of units, in multiples of the least number.
proof fn lemma_tenths(v: Flo, j: int)
    requires
        v.m >= 0,
        v.e >= -1074,
        j >= 0,
    ensures
        ({
            let h = double::tenths(Flo { m: v.m, e: v.e - j });
            let k = float::up(j) * float::up(1074);
            &&& h >= 0
            &&& 20 * grains(v) - k <= 2 * (h * k) <= 20 * grains(v) + k
        }),
{
    let e = v.e - j;
    let h = double::tenths(Flo { m: v.m, e });
    let n = v.m * 10 * float::up(e);
    let d = float::up(-e);
    let k = float::up(j) * float::up(1074);
    float::lemma_up_pos(e);
    float::lemma_up_pos(-e);
    float::lemma_up_pos(0);
    assert(n >= 0) by (nonlinear_arith)
        requires
            n == v.m * 10 * float::up(e),
            v.m >= 0,
            float::up(e) >= 1,
    ;
    float::lemma_half_even(n, d);
    float::lemma_up_add(j, 1074);
    assert(k == float::up(j + 1074));
    let g = grains(v);
    if e >= 0 {
        float::lemma_up_add(e, j + 1074);
        float::lemma_up_pos(j + 1074);
        assert(d == 1);
        assert(h == n);
        assert(10 * g == h * k) by (nonlinear_arith)
            requires
                h == v.m * 10 * float::up(e),
                g == v.m * (float::up(e) * k),
        ;
    } else {
        let c = float::up(v.e + 1074);
        float::lemma_up_add(-e, v.e + 1074);
        float::lemma_up_pos(v.e + 1074);
        assert(k == d * c);
        assert(float::up(e) == 1);
        assert(20 * g - k <= 2 * (h * k) <= 20 * g + k) by (nonlinear_arith)
            requires
                2 * n - d <= 2 * d * h <= 2 * n + d,
                n == v.m * 10 * 1,
                g == v.m * c,
                k == d * c,
                c >= 1,
        ;
    }
}

/// Less than 1024 bytes are told exactly.
pub proof fn law_few_bytes(bytes: int)
    requires
        0 <= bytes < 1024,
    ensures
        sizes::human_text(bytes) == text::decimal(bytes) + " B"@,
{
}

/// More are told in the largest unit of which there is one, to the nearest
/// tenth; past `2^53` a size is off by one part in that first.
pub proof fn law_many_bytes(bytes: int, k: int, unit: Seq<char>)
    requires
        k <= bytes,
        ({
            ||| k == 0x400 && unit == "KiB"@ && bytes < 0x10_0000
            ||| k == 0x10_0000 && unit == "MiB"@ && bytes < 0x4000_0000
            ||| k == 0x4000_0000 && unit == "GiB"@ && bytes < 0x100_0000_0000
            ||| k == 0x100_0000_0000 && unit == "TiB"@ && bytes < 0x4_0000_0000_0000
            ||| k == 0x4_0000_0000_0000 && unit == "PiB"@
        }),
    ensures
        exists|t: int|
            {
                &&& t >= 0
                &&& sizes::human_text(bytes) == #[trigger] text::decimal(t / 10) + seq![
                    '.',
                    (48 + t % 10) as char,
                ] + seq![' '] + unit
                &&& 0x20_0000_0000_0000 * (2 * (t * k - 10 * bytes)) <= 0x20_0000_0000_0000 * k + 20
                    * bytes
                &&& 0x20_0000_0000_0000 * (2 * (10 * bytes - t * k)) <= 0x20_0000_0000_0000 * k + 20
                    * bytes
            },
{
    let u = sizes::unit_index(bytes);
    let v = double::double_of(bytes);
    let c = float::up(1074);
    lemma_double(bytes);
    lemma_tenths(v, 10 * u);
    lemma_units();
    let t = double::tenths(Flo { m: v.m, e: v.e - 10 * u });
    assert(float::up(10 * u) == k);
    let x = bytes * c;
    let y = t * k;
    let g = grains(v);
    assert(t * (k * c) == y * c) by (nonlinear_arith)
        requires
            y == t * k,
    ;
    let a = y * c;
    let b = k * c;
    assert(0x20_0000_0000_0000 * (2 * (a - 10 * x)) <= 0x20_0000_0000_0000 * b + 20 * x);
    assert(0x20_0000_0000_0000 * (2 * (10 * x - a)) <= 0x20_0000_0000_0000 * b + 20 * x);
    let n = 2 * (y - 10 * bytes);
    lemma_times(10, bytes, c);
    lemma_added(y, 10 * bytes, c);
    lemma_times(2, y - 10 * bytes, c);
    lemma_times(0x20_0000_0000_0000, n, c);
    lemma_times(0x20_0000_0000_0000, -n, c);
    lemma_times(-1, n, c);
    lemma_times(0x20_0000_0000_0000, k, c);
    lemma_times(20, bytes, c);
    lemma_added(0x20_0000_0000_0000 * k, 20 * bytes, c);
    lemma_divided(0x20_0000_0000_0000 * n, 0x20_0000_0000_0000 * k + 20 * bytes, c);
    lemma_divided(0x20_0000_0000_0000 * (-n), 0x20_0000_0000_0000 * k + 20 * bytes, c);
    assert(sizes::human_text(bytes) == text::decimal(t / 10) + seq!['.', (48 + t % 10) as char]
        + seq![' '] + unit);
}

proof fn lemma_units()
    ensures
        float::up(10) == 0x400,
        float::up(20) == 0x10_0000,
        float::up(30) == 0x4000_0000,
        float::up(40) == 0x100_0000_0000,
        float::up(50) == 0x4_0000_0000_0000,
{
    vstd::arithmetic::power2::lemma2_to64();
    vstd::arithmetic::power2::lemma2_to64_rest();
}

/// A share is told in percent, to the nearest tenth; the sizes, and what is
/// computed of them, are off by a few parts in `2^53` first.
pub proof fn law_percent(size: int, total: int)
    requires
        0 <= size,
        1 <= total <= u64::MAX,
    ensures
        exists|t: int|
            {
                &&& t >= 0
                &&& sizes::percent_text(size, total) == #[trigger] text::decimal(t / 10) + seq![
                    '.',
                    (48 + t % 10) as char,
                ]
                &&& 0x20_0000_0000_0000 * (2 * (t * total - 1000 * size)) <= (0x20_0000_0000_0000
                    + 16) * total + 16000 * size
                &&& 0x20_0000_0000_0000 * (2 * (1000 * size - t * total)) <= (0x20_0000_0000_0000
                    + 16) * total + 16000 * size
            },
{
    let f = float::binary64();
    let c = float::up(1074);
    let x1 = double::double_of(size);
    let y = double::double_of(total);
    let x2 = double::double_mul(x1, Flo { m: 100, e: 0 });
    let q = double::double_div(x2, y);
    let t = double::tenths(q);
    float::lemma_up_values();
    lemma_double(size);
    lemma_double(total);
    lemma_double_least(total);
    float::lemma_nearest_close(f, x1.m * 100, 1, x1.e);
    float::lemma_nearest_canonical(f, x1.m * 100, 1, x1.e);
    assert((x1.m * 100) * float::up(x1.e + 1074) == 100 * grains(x1)) by (nonlinear_arith)
        requires
            grains(x1) == x1.m * float::up(x1.e + 1074),
    ;
    lemma_quotient(x2, y, size, total);
    float::lemma_nearest_canonical(f, x2.m, y.m, x2.e - y.e);
    lemma_tenths(q, 0);
    float::lemma_up_pos(0);
    assert(float::up(0) * c == c);
    let (s, w) = (size * c, total * c);
    assert(s >= 0) by (nonlinear_arith)
        requires
            s == size * c,
            size >= 0,
            c >= 1,
    ;
    assert(w >= 1) by (nonlinear_arith)
        requires
            w == total * c,
            total >= 1,
            c >= 1,
    ;
    lemma_percent_close(s, w, grains(x1), grains(x2), grains(y), grains(q), c, t);
    let a = t * total;
    assert(t * w == a * c) by (nonlinear_arith)
        requires
            w == total * c,
            a == t * total,
    ;
    let p = 0x20_0000_0000_0000int;
    let n = 2 * (a - 1000 * size);
    lemma_times(1000, size, c);
    lemma_added(a, 1000 * size, c);
    lemma_times(2, a - 1000 * size, c);
    lemma_times(p, n, c);
    lemma_times(p, -n, c);
    lemma_times(-1, n, c);
    lemma_times(p + 16, total, c);
    lemma_times(16000, size, c);
    lemma_added((p + 16) * total, 16000 * size, c);
    lemma_divided(p * n, (p + 16) * total + 16000 * size, c);
    lemma_divided(p * (-n), (p + 16) * total + 16000 * size, c);
    assert(sizes::percent_text(size, total) == text::decimal(t / 10) + seq![
        '.',
        (48 + t % 10) as char,
    ]);
}

/// What holds of some numbers times `c` holds of them.
proof fn lemma_divided(x: int, y: int, c: int)
    requires
        c >= 1,
        x * c <= y * c,
    ensures
        x <= y,
{
    assert(x <= y) by (nonlinear_arith)
        requires
            c >= 1,
            x * c <= y * c,
    ;
}

proof fn lemma_times(k: int, x: int, c: int)
    ensures
        (k * x) * c == k * (x * c),
{
    assert((k * x) * c == k * (x * c)) by (nonlinear_arith);
}

proof fn lemma_added(x: int, y: int, c: int)
    ensures
        (x + y) * c == x * c + y * c,
        (x - y) * c == x * c - y * c,
{
    assert((x + y) * c == x * c + y * c) by (nonlinear_arith);
    assert((x - y) * c == x * c - y * c) by (nonlinear_arith);
}

proof fn lemma_quotient(x: Flo, y: Flo, size: int, total: int)
    requires
        x == double::double_mul(double::double_of(size), Flo { m: 100, e: 0 }),
        y == double::double_of(total),
        0 <= size,
        1 <= total <= u64::MAX,
    ensures
        ({
            let q = grains(double::double_div(x, y));
            let c = float::up(1074);
            let p = 0x20_0000_0000_0000int;
            let t = grains(x) * c;
            &&& q >= 0
            &&& p * t - t <= p * (grains(y) * q) <= p * t + t
        }),
{
    let f = float::binary64();
    let c = float::up(1074);
    let q = double::double_div(x, y);
    let d = double::double_of(size);
    float::lemma_up_values();
    lemma_double(size);
    lemma_double(total);
    lemma_double_least(total);
    lemma_double_most(total);
    float::lemma_nearest_canonical(f, d.m * 100, 1, d.e);
    float::lemma_nearest_canonical(f, x.m, y.m, x.e - y.e);
    float::lemma_up_pos(q.e + 1074);
    assert(q.m * float::up(q.e + 1074) >= 0) by (nonlinear_arith)
        requires
            q.m >= 0,
            float::up(q.e + 1074) >= 1,
    ;
    if size == 0 {
        assert(d.m == 0);
        assert(x.m == 0);
        assert(q.m == 0);
        assert(grains(x) == 0 && grains(q) == 0) by (nonlinear_arith)
            requires
                grains(x) == x.m * float::up(x.e + 1074),
                grains(q) == q.m * float::up(q.e + 1074),
                x.m == 0,
                q.m == 0,
        ;
        assert(0 * c == 0 && grains(y) * 0 == 0);
    } else {
        lemma_double_least(size);
        lemma_hundred_least(d);
        let z = x.e - y.e;
        lemma_quantum_far(x, y);
        float::lemma_nearest_close(f, x.m, y.m, z);
        float::lemma_up_add(z + 1074, y.e + 1074);
        float::lemma_up_add(x.e + 1074, 1074);
        let (a, b) = (float::up(z + 1074), float::up(y.e + 1074));
        let g = grains(q);
        let t = x.m * a;
        let p = 0x20_0000_0000_0000int;
        let r = y.m * g;
        float::lemma_up_pos(y.e + 1074);
        assert((x.m * float::up(x.e + 1074)) * c == t * b) by (nonlinear_arith)
            requires
                a * b == float::up(x.e + 1074) * c,
                t == x.m * a,
        ;
        assert((y.m * b) * g == r * b) by (nonlinear_arith)
            requires
                r == y.m * g,
        ;
        assert(p * (t * b) - t * b <= p * (r * b) <= p * (t * b) + t * b) by (nonlinear_arith)
            requires
                p * t - t <= p * r <= p * t + t,
                b >= 1,
        ;
    }
}

proof fn lemma_double_most(n: int)
    requires
        0 <= n <= u64::MAX,
    ensures
        double::double_of(n).e <= 12,
{
    let f = float::binary64();
    let top = Flo { m: 0x10_0000_0000_0000, e: 12 };
    float::lemma_up_values();
    float::lemma_up_pos(0);
    float::lemma_up_add(52, 12);
    float::lemma_nearest_exact(f, top);
    assert(float::up(-12) == 1);
    assert((n * float::up(-12)) * 1 <= (top.m * float::up(12)) * 1) by (nonlinear_arith)
        requires
            float::up(-12) == 1,
            top.m * float::up(12) == 0x1_0000_0000_0000_0000,
            n <= u64::MAX,
    ;
    float::lemma_nearest_mono(f, n, 1, 0, top.m, 1, 12);
    float::lemma_nearest_canonical(f, n, 1, 0);
    float::lemma_less_canonical(f, top, double::double_of(n));
}

proof fn lemma_hundred_least(d: Flo)
    requires
        d.m >= 0x10_0000_0000_0000,
        d.e >= -52,
    ensures
        double::double_mul(d, Flo { m: 100, e: 0 }).m >= 0x10_0000_0000_0000,
        double::double_mul(d, Flo { m: 100, e: 0 }).e >= -52,
{
    let f = float::binary64();
    let one = Flo { m: 0x10_0000_0000_0000, e: -52 };
    let x = float::up(d.e + 52);
    float::lemma_up_values();
    float::lemma_up_pos(0);
    float::lemma_up_pos(d.e + 52);
    float::lemma_nearest_exact(f, one);
    assert((one.m * float::up(-52 - d.e)) * 1 <= ((d.m * 100) * x) * 1) by (nonlinear_arith)
        requires
            float::up(-52 - d.e) == 1,
            one.m == 0x10_0000_0000_0000,
            d.m >= 0x10_0000_0000_0000,
            x >= 1,
    ;
    float::lemma_nearest_mono(f, one.m, 1, -52, d.m * 100, 1, d.e);
    float::lemma_nearest_canonical(f, d.m * 100, 1, d.e);
    float::lemma_less_canonical(f, double::double_mul(d, Flo { m: 100, e: 0 }), one);
}

proof fn lemma_quantum_far(x: Flo, y: Flo)
    requires
        x.m >= 0x10_0000_0000_0000,
        x.e >= -52,
        0 < y.m < 0x20_0000_0000_0000,
        y.e <= 12,
    ensures
        float::quantum(float::binary64(), x.m, y.m, x.e - y.e) > -1074,
{
    float::lemma_up_values();
    float::lemma_up_step(0);
    assert(float::up(-1) == 1 && float::up(1) == 2);
    assert(!float::below(x.m, y.m, -1)) by {
        assert(x.m * float::up(1) >= y.m * float::up(-1)) by (nonlinear_arith)
            requires
                float::up(1) == 2,
                float::up(-1) == 1,
                x.m >= 0x10_0000_0000_0000,
                y.m < 0x20_0000_0000_0000,
        ;
    }
    float::lemma_mag_bounds(x.m, y.m, -1);
}

/// `s` and `w` exactly, `a` and `y` as rounded, `b` a hundred times `a`, `q`
/// their quotient, and `t` its tenths.
proof fn lemma_percent_close(
    s: int,
    w: int,
    a: int,
    b: int,
    y: int,
    q: int,
    c: int,
    t: int,
)
    requires
        s >= 0,
        w >= 1,
        c >= 1,
        t >= 0,
        q >= 0,
        0x20_0000_0000_0000 * s - s <= 0x20_0000_0000_0000 * a <= 0x20_0000_0000_0000 * s + s,
        0x20_0000_0000_0000 * w - w <= 0x20_0000_0000_0000 * y <= 0x20_0000_0000_0000 * w + w,
        0x20_0000_0000_0000 * (100 * a) - 100 * a <= 0x20_0000_0000_0000 * b
            <= 0x20_0000_0000_0000 * (100 * a) + 100 * a,
        0x20_0000_0000_0000 * (b * c) - b * c <= 0x20_0000_0000_0000 * (y * q)
            <= 0x20_0000_0000_0000 * (b * c) + b * c,
        20 * q - c <= 2 * (t * c) <= 20 * q + c,
    ensures
        0x20_0000_0000_0000 * (2 * (t * w - 1000 * s)) <= (0x20_0000_0000_0000 + 16) * w + 16000
            * s,
        0x20_0000_0000_0000 * (2 * (1000 * s - t * w)) <= (0x20_0000_0000_0000 + 16) * w + 16000
            * s,
{
    let p = 0x20_0000_0000_0000int;
    let (ty, tw) = (t * y, t * w);
    assert(y >= 0);
    // times y, and through c
    assert(20 * (y * q) - y * c <= 2 * (ty * c) <= 20 * (y * q) + y * c) by (nonlinear_arith)
        requires
            20 * q - c <= 2 * (t * c) <= 20 * q + c,
            y >= 0,
            ty == t * y,
    ;
    let (yq, yc, tyc, bc) = (y * q, y * c, ty * c, b * c);
    assert(p * (20 * bc) - 20 * bc - p * yc <= p * (2 * tyc) <= p * (20 * bc) + 20 * bc + p * yc);
    assert(p * (20 * b) - 20 * b - p * y <= p * (2 * ty) <= p * (20 * b) + 20 * b + p * y)
        by (nonlinear_arith)
        requires
            p * (20 * bc) - 20 * bc - p * yc <= p * (2 * tyc) <= p * (20 * bc) + 20 * bc + p * yc,
            bc == b * c,
            yc == y * c,
            tyc == ty * c,
            c >= 1,
    ;
    assert(p * tw - tw <= p * ty <= p * tw + tw) by (nonlinear_arith)
        requires
            p * w - w <= p * y <= p * w + w,
            t >= 0,
            ty == t * y,
            tw == t * w,
    ;
    assert(ty >= 0 && tw >= 0) by (nonlinear_arith)
        requires
            t >= 0,
            y >= 0,
            w >= 1,
            ty == t * y,
            tw == t * w,
    ;
    assert(0 <= a <= 2 * s && y <= 2 * w);
    assert(p * (100 * s) - 300 * s <= p * b <= p * (100 * s) + 300 * s);
    assert(0 <= b <= 200 * s);
    assert(p * (2 * ty) <= p * (2000 * s) + 10000 * s + p * w + w);
    assert(p * (2 * ty) >= p * (2000 * s) - 10000 * s - p * w - w);
    assert(2 * ty <= 2001 * s + 2 * w);
    assert(tw <= 2 * ty);
    assert(2 * tw <= 4002 * s + 4 * w);
    let two = 2 * tw;
    assert(p * two - two <= p * (2 * ty) <= p * two + two);
    assert(p * two <= p * (2000 * s) + 14002 * s + p * w + 5 * w);
    assert(p * two >= p * (2000 * s) - 14002 * s - p * w - 5 * w);
    assert(2 * (t * w - 1000 * s) == two - 2000 * s);
    assert(2 * (1000 * s - t * w) == 2000 * s - two);
    let up = two - 2000 * s;
    assert(p * up <= (p + 16) * w + 16000 * s);
    assert(p * (-up) <= (p + 16) * w + 16000 * s);
}

/// A row tells size, share and name, the first two with blanks ahead where they
/// are short; a directory has a slash behind its name.
pub proof fn law_row(c: Tree, total: int)
    ensures
        ({
            let size = sizes::human_text(c.size);
            let share = sizes::percent_text(
                c.size,
                if total < 1 {
                    1
                } else {
                    total
                },
            );
            let a = Seq::new(
                (if size.len() < 9 {
                    9 - size.len()
                } else {
                    0
                }) as nat,
                |i: int| ' ',
            );
            let b = Seq::new(
                (if share.len() < 5 {
                    5 - share.len()
                } else {
                    0
                }) as nat,
                |i: int| ' ',
            );
            let end = if c.is_dir {
                seq!['/']
            } else {
                seq![]
            };
            sizes::row_text(c, total) == a + size + "  "@ + b + share + "%  "@ + c.name + end
        }),
{
    let size = sizes::human_text(c.size);
    let share = sizes::percent_text(c.size, sizes::at_least_one(total));
    let a = Seq::new(
        (if size.len() < 9 {
            9 - size.len()
        } else {
            0
        }) as nat,
        |i: int| ' ',
    );
    let b = Seq::new(
        (if share.len() < 5 {
            5 - share.len()
        } else {
            0
        }) as nat,
        |i: int| ' ',
    );
    assert(sizes::right_aligned(size, 9) =~= a + size);
    assert(sizes::right_aligned(share, 5) =~= b + share);
    let end = if c.is_dir {
        seq!['/']
    } else {
        seq![]
    };
    assert(sizes::row_text(c, total) =~= a + size + "  "@ + b + share + "%  "@ + c.name + end);
}

} // verus!
