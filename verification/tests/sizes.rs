use disksun::double;
use disksun::sizes::{human, percent, row_label};
use disksun::tree::Node;

fn human_in_floats(bytes: u64) -> String {
    let units = ["B", "KiB", "MiB", "GiB", "TiB", "PiB"];
    let mut v = bytes as f64;
    let mut u = 0;
    while v >= 1024.0 && u < units.len() - 1 {
        v /= 1024.0;
        u += 1;
    }
    if u == 0 {
        format!("{bytes} B")
    } else {
        format!("{v:.1} {}", units[u])
    }
}

/// Sizes of all magnitudes, near powers of two and in between.
fn samples() -> Vec<u64> {
    let mut v = vec![0, 1, 512, 1000, 1023, 1024, 1075, 1076, 1077, 1126, 1127];
    for k in 10..64 {
        let p = 1u64 << k;
        for d in [0u64, 1, 3, 51, 52, 512, 1000] {
            v.push(p - d.min(p));
            v.push(p.saturating_add(d));
            v.push(p.saturating_add(p / 20 + d));
            v.push(p.saturating_add(p / 4));
        }
    }
    let mut x = 0x9e37_79b9_7f4a_7c15u64;
    for i in 0..2000u32 {
        x ^= x << 13;
        x ^= x >> 7;
        x ^= x << 17;
        v.push(x >> (i % 64));
    }
    v.push(u64::MAX);
    v
}

#[test]
fn sizes_read_as_people_read_them() {
    assert_eq!(human(0), "0 B");
    assert_eq!(human(1023), "1023 B");
    assert_eq!(human(1024), "1.0 KiB");
    assert_eq!(human(1536), "1.5 KiB");
    assert_eq!(human(1024 * 1024 - 1), "1024.0 KiB");
    assert_eq!(human(10 << 20), "10.0 MiB");
    assert_eq!(human(5 << 30), "5.0 GiB");
    assert_eq!(human(3 << 40), "3.0 TiB");
    assert_eq!(human(1 << 60), "1024.0 PiB");
    assert_eq!(human(u64::MAX), "16384.0 PiB");
}

#[test]
fn ties_go_to_the_even_tenth() {
    assert_eq!(human(1024 + 256), "1.2 KiB");
    assert_eq!(human(1024 + 768), "1.8 KiB");
}

#[test]
fn human_agrees_with_floating_point() {
    for n in samples() {
        assert_eq!(human(n), human_in_floats(n), "{n}");
    }
}

#[test]
fn percent_agrees_with_floating_point() {
    let s = samples();
    for (i, &n) in s.iter().enumerate() {
        let total = s[(i * 7 + 3) % s.len()].max(1);
        assert_eq!(percent(n, total), format!("{:.1}", n as f64 * 100.0 / total as f64));
    }
    assert_eq!(percent(1, 3), "33.3");
    assert_eq!(percent(0, 1), "0.0");
    assert_eq!(percent(1, 1), "100.0");
}

#[test]
fn rows_line_up_their_columns() {
    let mut n = Node { name: "etc".to_string(), size: 1536, is_dir: true, children: Vec::new() };
    assert_eq!(row_label(&n, 3072), "  1.5 KiB   50.0%  etc/");
    n.is_dir = false;
    assert_eq!(row_label(&n, 0), "  1.5 KiB  153600.0%  etc");
    n.size = 0;
    assert_eq!(row_label(&n, 0), "      0 B    0.0%  etc");
}

#[test]
fn rows_agree_with_floating_point() {
    let s = samples();
    for (i, &size) in s.iter().enumerate() {
        let total = s[(i * 11 + 5) % s.len()];
        let c = Node { name: "n".to_string(), size, is_dir: i % 2 == 0, children: Vec::new() };
        let want = format!(
            "{:>9}  {:>5.1}%  {}{}",
            human_in_floats(c.size),
            c.size as f64 * 100.0 / total.max(1) as f64,
            c.name,
            if c.is_dir { "/" } else { "" },
        );
        assert_eq!(row_label(&c, total), want);
    }
}

#[test]
fn integers_become_doubles_as_the_machine_makes_them() {
    for n in samples() {
        let d = double::double(n);
        assert_eq!(d.m as f64 * 2f64.powi(d.e), n as f64, "{n}");
        let e = double::double(n / 3 + 1);
        assert_eq!(double::under(d, e), (n as f64) < ((n / 3 + 1) as f64));
        let q = double::quotient(d, e);
        assert_eq!(q.m as f64 * 2f64.powi(q.e), n as f64 / (n / 3 + 1) as f64, "{n}");
    }
}
