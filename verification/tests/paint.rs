use disksun::app::Anim;
use disksun::layout::{Wedge, MAX_RINGS};
use disksun::paint::{does_fade, fading, is_in_span, label_font, place, progress, wedge_fill, Fill};
use disksun::rings::ring_bounds;
use disksun::signed::Signed;
use disksun::single::Single;

const TAU: f32 = std::f32::consts::TAU;

fn of(x: f32) -> Single {
    Single::from_bits(x.to_bits()).unwrap()
}

fn to(s: Single) -> f32 {
    f32::from_bits(s.to_bits())
}

fn unsigned(s: Signed) -> f32 {
    if s.neg {
        -to(s.mag)
    } else {
        to(s.mag)
    }
}

fn wedge(ring: usize, a0: f32, a1: f32, is_dir: bool, lump: bool) -> Wedge {
    Wedge {
        ring,
        a0: of(a0),
        a1: of(a1),
        hue: of(0.0),
        is_dir,
        lump,
        name: String::new(),
        size: 0,
        frac: of(0.0),
        path: Vec::new(),
        abs: None,
    }
}

#[test]
fn lumps_are_gray() {
    let w = wedge(0, 0.0, 1.0, false, true);
    assert!(matches!(wedge_fill(&w, false), Fill::Gray { inner: 38, outer: 60 }));
    assert!(matches!(wedge_fill(&w, true), Fill::Gray { inner: 62, outer: 84 }));
}

#[test]
fn shades_are_those_of_floating_point() {
    for ring in 0..MAX_RINGS {
        for is_dir in [false, true] {
            for lit in [false, true] {
                let ringf = ring as f32;
                let base: f32 = if is_dir { 0.88 } else { 0.22 };
                let sat = (base * (1.0 - 0.16 * ringf)).max(0.12);
                let boost = if lit { 0.14 } else { 0.0 };
                let v_out = (0.78 + 0.055 * ringf + boost).min(1.0);
                match wedge_fill(&wedge(ring, 0.0, 1.0, is_dir, false), lit) {
                    Fill::Shade { sat_in, val_in, sat_out, val_out } => {
                        assert_eq!(to(sat_in), sat);
                        assert_eq!(to(sat_out), sat * 0.90);
                        assert_eq!(to(val_out), v_out);
                        assert_eq!(to(val_in), v_out * 0.72);
                    }
                    Fill::Gray { .. } => panic!("gray"),
                }
            }
        }
    }
}

#[test]
fn rings_are_lighter_outward() {
    let shade = |ring: usize| match wedge_fill(&wedge(ring, 0.0, 1.0, true, false), false) {
        Fill::Shade { sat_in, val_out, .. } => (to(sat_in), to(val_out)),
        Fill::Gray { .. } => panic!("gray"),
    };
    for ring in 1..MAX_RINGS {
        let ((s0, v0), (s1, v1)) = (shade(ring - 1), shade(ring));
        assert!(s1 <= s0 && v1 >= v0 && v1 <= 1.0);
    }
}

fn lerp(a: f32, b: f32, p: f32) -> f32 {
    (1.0 - p) * a + p * b
}

#[test]
fn slices_move_as_floating_point_moves_them() {
    let (hub, rim) = (36.0f32, 200.0f32);
    let bounds = ring_bounds(of(hub), of(rim));
    let rings: Vec<(f32, f32)> = bounds.iter().map(|&(a, b)| (to(a), to(b))).collect();
    let span = (0.7f32, 2.3f32);
    for dir_in in [true, false] {
        for shift in [1usize, 2, 19] {
            let anim =
                Anim { span: (of(span.0), of(span.1)), shift, dir_in, old: Vec::new() };
            for ring in [0usize, 1, 5, 19] {
                for (a0, a1) in [(0.0, TAU), (0.7, 2.3), (0.69995, 1.0), (1.0, 1.5), (2.0, 3.0)] {
                    for p in [0.0f32, 0.25, 0.9, 1.0] {
                        let w = wedge(ring, a0, a1, true, false);
                        let in_span = a0 >= span.0 - 1e-4 && a1 <= span.1 + 1e-4;
                        assert_eq!(is_in_span(&w, anim.span), in_span);
                        assert_eq!(does_fade(&w, &anim), !(in_span && ring >= shift));
                        let dst = rings[ring];
                        let (ta0, ta1, band, alpha) = if dir_in {
                            let f = (span.1 - span.0) / TAU;
                            let src = rings.get(ring + shift).copied().unwrap_or((rim, rim));
                            (
                                lerp(span.0 + a0 * f, a0, p),
                                lerp(span.0 + a1 * f, a1, p),
                                (lerp(src.0, dst.0, p), lerp(src.1, dst.1, p)),
                                1.0,
                            )
                        } else if in_span {
                            let f = TAU / (span.1 - span.0);
                            let src = if ring >= shift { rings[ring - shift] } else { (hub, hub) };
                            (
                                lerp((a0 - span.0) * f, a0, p),
                                lerp((a1 - span.0) * f, a1, p),
                                (lerp(src.0, dst.0, p), lerp(src.1, dst.1, p)),
                                1.0,
                            )
                        } else {
                            (a0, a1, dst, p * p)
                        };
                        let s = place(&w, Some(&anim), of(p), &bounds, of(hub), of(rim));
                        assert_eq!(unsigned(s.a0), ta0);
                        assert_eq!(unsigned(s.a1), ta1);
                        assert_eq!((unsigned(s.r0), unsigned(s.r1)), band);
                        assert_eq!(to(s.alpha), alpha);
                        if p == 1.0 {
                            assert_eq!((ta0, ta1, band), (a0, a1, dst));
                        }
                    }
                }
            }
        }
    }
    let w = wedge(3, 1.0, 2.0, false, false);
    let s = place(&w, None, of(0.3), &bounds, of(hub), of(rim));
    assert_eq!((unsigned(s.a0), unsigned(s.a1), to(s.alpha)), (1.0, 2.0, 1.0));
    assert_eq!((unsigned(s.r0), unsigned(s.r1)), rings[3]);
}

#[test]
fn animations_ease_in_and_out() {
    for i in 0..50 {
        let elapsed = i as f32 * 0.01;
        let t = (elapsed / 0.35).clamp(0.0, 1.0);
        let (p, over) = progress(of(elapsed));
        assert_eq!(to(p), t * t * (3.0 - 2.0 * t));
        assert_eq!(over, t >= 1.0);
        let q = to(p);
        assert_eq!(to(fading(p)), (1.0 - q) * (1.0 - q));
    }
    assert_eq!(to(progress(of(0.0)).0), 0.0);
    assert_eq!(to(progress(of(9.0)).0), 1.0);
}

#[test]
fn names_show_where_they_fit() {
    for max_r in [60.0f32, 150.0, 208.0, 320.0, 500.0] {
        for ring in 0..4usize {
            for (r0, r1) in [(20.0f32, 60.0f32), (50.0, 60.0), (100.0, 125.0)] {
                for sweep in [0.1f32, 0.5, 0.9, 2.0] {
                    let w = wedge(ring, 1.0, 1.0 + sweep, false, false);
                    let mid_r = (r0 + r1) * 0.5;
                    let arc_len = (to(w.a1) - to(w.a0)) * mid_r;
                    let scale = (max_r / 320.0).clamp(0.65, 1.0);
                    let font: f32 = ((if ring == 0 { 12.5 } else { 11.0 }) * scale).max(8.0);
                    let fits = ring <= 2 && arc_len > font * 6.0 && r1 - r0 > font * 1.9;
                    let got = label_font(&w, of(r0), of(r1), of(max_r)).map(to);
                    assert_eq!(got, if fits { Some(font) } else { None });
                }
            }
        }
    }
}
