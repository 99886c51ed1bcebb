use disksun::hue::hue_of;
use disksun::layout::{layout, Sector, Wedge, MAX_RINGS};
use disksun::look::look;
use disksun::nav::{crumbs, cut, displayed, displayed_path, is_small};
use disksun::single::Single;
use disksun::tree::Node;

const TAU: f32 = std::f32::consts::TAU;

fn of(x: f32) -> Single {
    Single::from_bits(x.to_bits()).unwrap()
}

fn to(s: Single) -> f32 {
    f32::from_bits(s.to_bits())
}

fn file(name: &str, size: u64) -> Node {
    Node { name: name.to_string(), size, is_dir: false, children: Vec::new() }
}

fn dir(name: &str, children: Vec<Node>) -> Node {
    let size = children.iter().map(|c| c.size).sum();
    Node { name: name.to_string(), size, is_dir: true, children }
}

/// A slice in floating point.
#[derive(Debug, PartialEq)]
struct Slice {
    ring: usize,
    a0: f32,
    a1: f32,
    hue: f32,
    is_dir: bool,
    lump: bool,
    name: String,
    size: u64,
    frac: f32,
    path: Vec<usize>,
    abs: Option<String>,
}

fn slice(w: &Wedge) -> Slice {
    Slice {
        ring: w.ring,
        a0: to(w.a0),
        a1: to(w.a1),
        hue: to(w.hue),
        is_dir: w.is_dir,
        lump: w.lump,
        name: w.name.clone(),
        size: w.size,
        frac: to(w.frac),
        path: w.path.clone(),
        abs: w.abs.clone().map(|p| String::from_utf8(p).unwrap()),
    }
}

#[allow(clippy::too_many_arguments)]
fn layout_in_floats(
    children: &[Node],
    first: usize,
    parent_size: u64,
    abs: &str,
    path: &[usize],
    a0: f32,
    a1: f32,
    ring: usize,
    whole: u64,
    parent_hue: Option<f32>,
    out: &mut Vec<Slice>,
) {
    if parent_size == 0 || ring >= MAX_RINGS {
        return;
    }
    let span = a1 - a0;
    let mut a = a0;
    for (i, child) in children.iter().enumerate() {
        let sweep = span * (child.size as f64 / parent_size as f64) as f32;
        if sweep < 0.02 {
            let rest: u64 = children[i..].iter().map(|c| c.size).sum();
            if rest > 0 && a1 - a > 0.002 {
                out.push(Slice {
                    ring,
                    a0: a,
                    a1,
                    hue: 0.0,
                    is_dir: false,
                    lump: true,
                    name: format!("({} small items)", children.len() - i),
                    size: rest,
                    frac: rest as f32 / whole as f32,
                    path: Vec::new(),
                    abs: None,
                });
            }
            break;
        }
        let mid = a + sweep * 0.5;
        let hue = match parent_hue {
            None => (mid / TAU).fract(),
            Some(h) => (h - 0.045 + 0.11 * ((mid - a0) / span - 0.5)).rem_euclid(1.0),
        };
        let mut p = path.to_vec();
        p.push(first + i);
        let child_abs = format!("{abs}/{}", child.name);
        out.push(Slice {
            ring,
            a0: a,
            a1: a + sweep,
            hue,
            is_dir: child.is_dir,
            lump: false,
            name: child.name.clone(),
            size: child.size,
            frac: child.size as f32 / whole as f32,
            path: p.clone(),
            abs: Some(child_abs.clone()),
        });
        if child.is_dir {
            layout_in_floats(
                &child.children, 0, child.size, &child_abs, &p, a, a + sweep, ring + 1, whole,
                Some(hue), out,
            );
        }
        a += sweep;
    }
}

/// A tree with sizes of many kinds, each directory the larger first.
fn random_tree(seed: &mut u64, depth: usize) -> Node {
    let mut next = || {
        *seed ^= *seed << 13;
        *seed ^= *seed >> 7;
        *seed ^= *seed << 17;
        *seed
    };
    let n = 1 + next() % 9;
    let mut kids = Vec::new();
    for i in 0..n {
        let r = next();
        kids.push((i, r));
    }
    let mut children: Vec<Node> = kids
        .into_iter()
        .map(|(i, r)| {
            if depth > 0 && r % 3 != 0 {
                let mut s = r;
                let mut d = random_tree(&mut s, depth - 1);
                d.name = format!("d{i}");
                d
            } else {
                file(&format!("f{i}"), (r >> 8) >> (r % 40))
            }
        })
        .collect();
    children.sort_by(|a, b| b.size.cmp(&a.size));
    dir("t", children)
}

fn sector(size: u64, first: usize) -> Sector {
    Sector {
        size,
        abs: b"/base".to_vec(),
        path: Vec::new(),
        first,
        ring: 0,
        a0: of(0.0),
        a1: of(TAU),
        whole: size,
        hue: None,
    }
}

#[test]
fn the_chart_is_that_of_floating_point() {
    let mut seed = 0x1234_5678_9abc_def1u64;
    for k in 0..60 {
        let t = random_tree(&mut seed, 5);
        let got = layout(&t.children, &sector(t.size, k)).unwrap();
        let mut want = Vec::new();
        layout_in_floats(
            &t.children, k, t.size, "/base", &[], 0.0, TAU, 0, t.size, None, &mut want,
        );
        let got: Vec<Slice> = got.iter().map(slice).collect();
        assert_eq!(got, want);
    }
}

#[test]
fn sizes_that_do_not_add_up_are_laid_out_too() {
    // children larger than their parent turn further than once around
    let t = vec![file("a", 1000), file("b", 500), file("c", 1)];
    let got = layout(&t, &sector(100, 0)).unwrap();
    let mut want = Vec::new();
    layout_in_floats(&t, 0, 100, "/base", &[], 0.0, TAU, 0, 100, None, &mut want);
    assert_eq!(got.iter().map(slice).collect::<Vec<_>>(), want);
    assert!(layout(&t, &sector(0, 0)).unwrap().is_empty());
}

#[test]
fn no_more_rings_are_laid_out_than_there_are() {
    let mut t = file("leaf", 8);
    for _ in 0..30 {
        t = dir("d", vec![t]);
    }
    let out = layout(&t.children, &sector(8, 0)).unwrap();
    assert_eq!(out.len(), MAX_RINGS);
    assert!(out.iter().enumerate().all(|(i, w)| w.ring == i && w.path.len() == i + 1));
}

#[test]
fn thin_children_are_one_lump() {
    let mut kids = vec![file("big", 100_000)];
    for i in 0..40 {
        kids.push(file(&format!("s{i}"), 100));
    }
    let t = dir("t", kids);
    let out = layout(&t.children, &sector(t.size, 0)).unwrap();
    assert_eq!(out.len(), 2);
    assert!(out[1].lump && !out[1].is_dir && out[1].path.is_empty() && out[1].abs.is_none());
    assert_eq!(out[1].name, "(40 small items)");
    assert_eq!(out[1].size, 4000);
    assert_eq!(to(out[1].a0), to(out[0].a1));
    assert_eq!(to(out[1].a1), TAU);
}

#[test]
fn a_lump_too_large_for_the_machine_is_told() {
    let t = vec![file("a", 10), file("b", 10)];
    assert!(layout(&t, &sector(u64::MAX, 0)).is_some());
    let t = vec![file("z", 0), file("a", u64::MAX), file("b", 1)];
    assert!(layout(&t, &sector(u64::MAX, 0)).is_none());
}

#[test]
fn siblings_follow_each_other_without_gaps() {
    let mut seed = 99u64;
    let t = random_tree(&mut seed, 3);
    let out = layout(&t.children, &sector(t.size, 0)).unwrap();
    let ring0: Vec<&Wedge> = out.iter().filter(|w| w.ring == 0).collect();
    assert_eq!(to(ring0[0].a0), 0.0);
    for (i, w) in ring0.windows(2).enumerate() {
        assert!(!w[0].lump);
        assert_eq!(w[0].path, vec![i]);
        assert_eq!(to(w[0].a1), to(w[1].a0));
    }
}

#[test]
fn the_way_leads_to_the_directory_shown() {
    let t = dir("/", vec![dir("a", vec![dir("b", vec![file("c", 3)]), file("d", 1)]), file("e", 1)]);
    assert_eq!(displayed(&t, &[]).name, "/");
    assert_eq!(displayed(&t, &[0, 0]).name, "b");
    assert_eq!(displayed(&t, &[0, 9, 1]).name, "d");
    assert_eq!(displayed_path(b"/", &t, &[0, 0]), b"/a/b");
    assert_eq!(displayed_path(b"/base", &t, &[0, 9, 1]), b"/base/a/d");
    assert_eq!(crumbs("root".to_string(), &t, &[0, 9, 1]), vec!["root", "a", "d"]);
    assert_eq!(crumbs("root".to_string(), &t, &[]), vec!["root"]);
}

#[test]
fn small_is_under_two_percent() {
    assert!(is_small(1, 51));
    assert!(!is_small(1, 50));
    assert!(is_small(0, 0));
    assert!(!is_small(1, 0));
    let mut x = 7u64;
    for i in 0..3000u64 {
        x = x.wrapping_mul(6364136223846793005).wrapping_add(i);
        let of = x >> (i % 60);
        for size in [of / 50, of / 50 + 1, (of / 50).saturating_sub(1), of / 51] {
            assert_eq!(is_small(size, of), (size as f64) < of.max(1) as f64 * 0.02, "{size} {of}");
        }
    }
}

#[test]
fn the_cut_parts_large_children_from_small_ones() {
    let t = vec![file("a", 900), file("b", 80), file("c", 19), file("d", 1)];
    assert_eq!(cut(&t, 1000), 2);
    assert_eq!(cut(&t, 10), 4);
    assert_eq!(cut(&t[..1], 1000), 1);
    for (k, c) in t.iter().enumerate() {
        assert_eq!(is_small(c.size, 1000), k >= 2);
    }
}

#[test]
fn a_view_of_the_smaller_items_has_only_those() {
    let mut kids = vec![file("big", 10_000)];
    for i in 0..5 {
        kids.push(file(&format!("s{i}"), 10));
    }
    let t = dir("/", kids);
    let all = look(b"/x", &t, &[], false).unwrap();
    assert_eq!((all.size, all.name.as_str()), (10_050, "/"));
    assert_eq!(all.wedges[0].name, "big");
    let small = look(b"/x", &t, &[], true).unwrap();
    assert_eq!((small.size, small.name.as_str()), (50, "/ · smaller items"));
    assert_eq!(small.wedges.len(), 5);
    assert_eq!(small.wedges[0].path, vec![1]);
    assert_eq!(small.wedges[4].abs, Some(b"/x/s4".to_vec()));
    // without small items there is no such view
    let even = dir("/", vec![file("a", 1), file("b", 1)]);
    assert_eq!(look(b"/", &even, &[], true).unwrap().name, "/");
    let empty = look(b"/", &dir("/", Vec::new()), &[], true).unwrap();
    assert_eq!((empty.size, empty.wedges.len(), empty.rows.len()), (1, 0, 0));
}

#[test]
fn each_slice_leads_to_what_it_shows() {
    let mut seed = 5u64;
    let t = random_tree(&mut seed, 4);
    for small_focus in [false, true] {
        let l = look(b"/r", &t, &[], small_focus).unwrap();
        for w in l.wedges.iter().filter(|w| !w.lump) {
            let n = displayed(&t, &w.path);
            assert_eq!(w.path.len(), w.ring + 1);
            assert_eq!((n.name.as_str(), n.size, n.is_dir), (w.name.as_str(), w.size, w.is_dir));
            assert_eq!(w.abs, Some(displayed_path(b"/r", &t, &w.path)));
        }
    }
}

#[test]
fn no_two_slices_lead_to_the_same_place() {
    let mut seed = 77u64;
    for _ in 0..20 {
        let t = random_tree(&mut seed, 4);
        let l = look(b"/r", &t, &[], false).unwrap();
        let ways: Vec<&Vec<usize>> =
            l.wedges.iter().filter(|w| !w.lump).map(|w| &w.path).collect();
        for (i, a) in ways.iter().enumerate() {
            assert!(ways[i + 1..].iter().all(|b| a != b));
        }
    }
}

#[test]
fn a_size_too_large_for_the_machine_shows_nothing() {
    let mut t = dir("/", vec![file("a", 5)]);
    t.size = u64::MAX;
    t.children.push(file("b", u64::MAX));
    assert!(look(b"/", &t, &[], false).is_none());
    assert!(look(b"/", &t, &[], true).is_none());
}

#[test]
fn the_innermost_hue_is_the_angle() {
    let h = hue_of(None, of(TAU * 0.25), of(0.0), of(TAU));
    assert_eq!(to(h), 0.25);
}
