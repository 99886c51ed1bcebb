use disksun::float::Num;
use disksun::hue::hue_of;
use disksun::layout::MAX_RINGS;
use disksun::rings::ring_bounds;
use disksun::signed::{add_signed, divide, does_exceed, is_not_above, multiply, subtract, Signed};
use disksun::single::{narrow, single, Single};

fn of(x: f32) -> Single {
    Single::from_bits(x.to_bits()).unwrap()
}

fn to(s: Single) -> f32 {
    f32::from_bits(s.to_bits())
}

fn signed(x: f32) -> Signed {
    Signed { neg: x < 0.0, mag: of(x.abs()) }
}

fn unsigned(s: Signed) -> f32 {
    if s.neg {
        -to(s.mag)
    } else {
        to(s.mag)
    }
}

/// The same number, or both none.
fn same(a: f32, b: f32) -> bool {
    a == b || (a.is_nan() && b.is_nan())
}

/// Numbers that are not negative, of all magnitudes.
fn samples() -> Vec<f32> {
    let mut v = vec![
        0.0,
        1.0,
        2.0,
        3.0,
        0.5,
        0.1,
        1e-45,
        1.1754944e-38,
        1.1754942e-38,
        f32::MAX,
        f32::INFINITY,
        f32::NAN,
        16777216.0,
        16777215.0,
        8388608.5,
        std::f32::consts::TAU,
        0.02,
    ];
    let mut x = 0x2545_f491u32;
    for _ in 0..150 {
        x ^= x << 13;
        x ^= x >> 17;
        x ^= x << 5;
        v.push(f32::from_bits(x & 0x7fff_ffff));
        v.push((x >> 8) as f32 / 1000.0);
    }
    v
}

#[test]
fn bits_go_to_a_number_and_back() {
    for x in samples() {
        assert!(same(to(of(x)), x));
    }
    assert!(Single::from_bits((-1.0f32).to_bits()).is_none());
    assert!(Single::from_bits((-0.0f32).to_bits()).is_none());
    assert!(matches!(of(1.0), Single::Num(Num { m: 0x80_0000, e: -23 })));
    assert!(matches!(of(f32::INFINITY), Single::Inf));
    assert!(matches!(of(f32::NAN), Single::Nan));
}

#[test]
fn arithmetic_is_that_of_the_machine() {
    let s = samples();
    for &a in &s {
        for &b in &s {
            let (x, y) = (of(a), of(b));
            assert!(same(to(x.plus(y)), a + b), "{a} + {b}");
            assert!(same(to(x.times(y)), a * b), "{a} * {b}");
            assert!(same(to(x.over(y)), a / b), "{a} / {b}");
            assert_eq!(x.under(y), a < b, "{a} < {b}");
            assert_eq!(x.upto(y), a <= b, "{a} <= {b}");
            assert!(same(to(x.max(y)), a.max(b)), "{a} max {b}");
            assert!(same(to(x.min(y)), a.min(b)), "{a} min {b}");
            if !(a < b) {
                assert!(same(to(x.minus(y)), a - b), "{a} - {b}");
            }
            assert!(same(unsigned(subtract(x, y)), a - b), "{a} - {b}");
        }
    }
}

#[test]
fn signs_are_kept_as_the_machine_keeps_them() {
    let s = samples();
    for (i, &a) in s.iter().enumerate().step_by(3) {
        for (j, &b) in s.iter().enumerate().step_by(5) {
            let a = if i % 2 == 0 { a } else { -a };
            let b = if j % 2 == 0 { b } else { -b };
            let (x, y) = (signed(a), signed(b));
            assert!(same(unsigned(add_signed(x, y)), a + b), "{a} + {b}");
            assert!(same(unsigned(multiply(x, y)), a * b), "{a} * {b}");
            if b != 0.0 {
                assert!(same(unsigned(divide(x, y)), a / b), "{a} / {b}");
            }
            assert_eq!(is_not_above(x, of(b.abs())), a <= b.abs(), "{a} <= {b}");
            assert_eq!(does_exceed(x, of(b.abs())), a > b.abs(), "{a} > {b}");
        }
    }
}

#[test]
fn integers_and_doubles_are_rounded_as_the_machine_does() {
    let mut x = 0x9e37_79b9_7f4a_7c15u64;
    for i in 0..2000u32 {
        x ^= x << 13;
        x ^= x >> 7;
        x ^= x << 17;
        let n = x >> (i % 64);
        assert_eq!(to(single(n)), n as f32);
        let m = (x >> 11).max(1 << 52);
        for e in [-1074, -300, -200, -190, -180, -174, -52, 0, 70, 75, 76, 200] {
            let wide = m as f64 * 2f64.powi(e / 2) * 2f64.powi(e - e / 2);
            if e >= -1000 {
                assert!(same(to(narrow(Num { m, e })), wide as f32), "{m} {e}");
            }
        }
    }
}

fn bounds_in_floats(hub_r: f32, max_r: f32) -> Vec<(f32, f32)> {
    let avail = (max_r - hub_r).max(1.0);
    let mut weights = Vec::new();
    let mut w = 1.0f32;
    for _ in 0..MAX_RINGS {
        weights.push(w);
        w *= 0.68;
    }
    let mut t = vec![0.0f32; MAX_RINGS];
    let mut clamped = vec![false; MAX_RINGS];
    loop {
        let held: f32 = t.iter().zip(&clamped).filter(|(_, c)| **c).map(|(v, _)| *v).sum();
        let free: f32 = weights.iter().zip(&clamped).filter(|(_, c)| !**c).map(|(v, _)| *v).sum();
        let mut changed = false;
        for i in 0..MAX_RINGS {
            if !clamped[i] {
                let ti = (avail - held).max(0.0) * weights[i] / free.max(1e-6);
                if ti < 3.0 {
                    t[i] = 3.0;
                    clamped[i] = true;
                    changed = true;
                } else {
                    t[i] = ti;
                }
            }
        }
        if !changed {
            break;
        }
    }
    let sum: f32 = t.iter().sum();
    if sum > avail {
        for v in &mut t {
            *v *= avail / sum;
        }
    }
    let mut out = Vec::new();
    let mut r = hub_r;
    for ti in t {
        let gap = (ti * 0.25).min(2.0);
        out.push((r + gap, r + ti));
        r += ti;
    }
    out
}

#[test]
fn rings_lie_where_floating_point_puts_them() {
    let mut cases = vec![(0.0, 0.0), (5.0, 1.0), (10.0, 20.0), (10.8, 60.0), (1e9, 3e9)];
    for i in 0..400 {
        let max_r = 60.0 + i as f32 * 3.37;
        cases.push((max_r * 0.18, max_r));
    }
    for (hub_r, max_r) in cases {
        let got: Vec<(f32, f32)> =
            ring_bounds(of(hub_r), of(max_r)).into_iter().map(|(a, b)| (to(a), to(b))).collect();
        assert_eq!(got, bounds_in_floats(hub_r, max_r), "{hub_r} {max_r}");
    }
}

#[test]
fn rings_are_apart_and_thinner_outward() {
    for max_r in [60.0f32, 100.0, 333.3, 1000.0] {
        let b: Vec<(f32, f32)> = ring_bounds(of(max_r * 0.18), of(max_r))
            .into_iter()
            .map(|(a, b)| (to(a), to(b)))
            .collect();
        assert_eq!(b.len(), 20);
        assert!(b[0].0 >= max_r * 0.18);
        for i in 0..20 {
            assert!(b[i].0 <= b[i].1);
            if i > 0 {
                assert!(b[i].0 >= b[i - 1].1);
            }
        }
        let inner = b[0].1 - max_r * 0.18;
        assert!(inner >= b[19].1 - b[18].1);
    }
}

#[test]
fn rounding_can_carry_the_rim_a_little_too_far() {
    let past = (0..2000).any(|i| {
        let max_r = 60.0 + i as f32 * 0.37;
        to(ring_bounds(of(max_r * 0.18), of(max_r))[19].1) > max_r
    });
    assert!(past);
}

#[test]
fn but_for_rounding_all_rings_fit() {
    for i in 0..2000 {
        let max_r = 60.0 + i as f32 * 0.37;
        let hub_r = max_r * 0.18;
        let b = ring_bounds(of(hub_r), of(max_r));
        let end = to(b[19].1) as f64;
        assert!(end <= max_r as f64 * (1.0 + 86.0 / 16777216.0));
        let mut last = hub_r;
        for (inner, outer) in b {
            assert!(last < to(inner) && to(inner) < to(outer));
            last = to(outer);
        }
    }
    // too little room for the least thickness: all shrink alike
    let b = ring_bounds(of(10.0), of(20.0));
    assert!((to(b[0].1) - 10.5).abs() < 1e-5);
    assert!(to(b[19].1) <= 20.0 * (1.0 + 86.0 / 16777216.0));
}

#[test]
fn where_there_is_room_the_rings_fill_it() {
    let part = 1.0 / 16777216.0;
    let mut cases = vec![(0.0f32, 60.0f32), (40.0, 100.0), (0.0, 1e6), (4e6, 4.1e6)];
    for i in 0..2000 {
        let max_r = 74.0 + i as f32 * 0.37;
        cases.push((max_r * 0.18, max_r));
    }
    for (hub_r, max_r) in cases {
        assert!(max_r - hub_r >= 60.0);
        let b = ring_bounds(of(hub_r), of(max_r));
        assert!(to(b[19].1) as f64 >= max_r as f64 * (1.0 - 86.0 * part));
        let mut last = hub_r;
        for (inner, outer) in b {
            assert!(last < to(inner) && to(inner) < to(outer));
            let thick = to(outer) as f64 - last as f64;
            assert!(thick >= 3.0 * (1.0 - 88.0 * part) - to(outer) as f64 * part);
            last = to(outer);
        }
    }
    // no room to spare: all rings are at the least thickness
    let b = ring_bounds(of(0.0), of(60.0));
    for i in 0..20 {
        assert_eq!(to(b[i].0), 3.0 * i as f32 + 0.75);
        assert_eq!(to(b[i].1), 3.0 * (i + 1) as f32);
    }
}

#[test]
fn far_out_a_thin_ring_is_lost_in_rounding() {
    let b = ring_bounds(of(1e9), of(1e9 + 64.0));
    assert!(b.iter().any(|&(inner, outer)| to(inner) == to(outer)));
}

fn hue_in_floats(parent: Option<f32>, mid: f32, a0: f32, span: f32) -> f32 {
    match parent {
        None => (mid / std::f32::consts::TAU).fract(),
        Some(h) => (h - 0.045 + 0.11 * ((mid - a0) / span - 0.5)).rem_euclid(1.0),
    }
}

#[test]
fn hues_are_those_of_floating_point() {
    for i in 0..200 {
        let mid = i as f32 * 0.0317;
        assert_eq!(to(hue_of(None, of(mid), of(0.0), of(1.0))), hue_in_floats(None, mid, 0.0, 1.0));
        for h in [0.0f32, 0.01, 0.045, 0.1, 0.5, 0.97, 1.0] {
            let (a0, span) = (mid * 0.5, mid * 0.6 + 0.01);
            let got = to(hue_of(Some(of(h)), of(mid), of(a0), of(span)));
            assert_eq!(got, hue_in_floats(Some(h), mid, a0, span), "{mid} {h}");
            assert!((0.0..=1.0).contains(&got));
        }
    }
}
