use disksun::cursor::{
    choose_row, first_row, hover_row, last_row, move_cursor, park, step, Choice, Keys,
};
use disksun::layout::Wedge;
use disksun::look::look;
use disksun::side::{SideKind, SideRow};
use disksun::single::Single;
use disksun::sizes::{human, row_label};
use disksun::tree::Node;

fn file(name: &str, size: u64) -> Node {
    Node { name: name.to_string(), size, is_dir: false, children: Vec::new() }
}

fn dir(name: &str, children: Vec<Node>) -> Node {
    let size = children.iter().map(|c| c.size).sum();
    Node { name: name.to_string(), size, is_dir: true, children }
}

fn rows(t: &Node, small_focus: bool) -> Vec<SideRow> {
    look(b"/", t, &[], small_focus).unwrap().rows
}

fn kind(r: &SideRow) -> String {
    match &r.kind {
        SideKind::Item { path, is_dir } => format!("{path:?}{}", if *is_dir { "/" } else { "" }),
        SideKind::Toggle { key } => format!("toggle {key:?}"),
        SideKind::Note => "note".to_string(),
    }
}

fn kinds(rows: &[SideRow]) -> Vec<String> {
    rows.iter().map(kind).collect()
}

fn sample() -> Node {
    let mut small = vec![file("x", 500), file("y", 100)];
    small.extend((0..3).map(|i| file(&format!("z{i}"), 2)));
    dir("/", vec![dir("a", small), file("b", 200), file("c", 3), file("d", 2)])
}

#[test]
fn rows_show_children_and_theirs() {
    let t = sample();
    let r = rows(&t, false);
    assert_eq!(
        kinds(&r),
        vec!["[0]/", "[0, 0]", "[0, 1]", "toggle [0]", "[1]", "toggle []"]
    );
    assert_eq!(r[0].label, row_label(&t.children[0], t.size));
    assert_eq!(r[1].label, row_label(&t.children[0].children[0], t.size));
    assert_eq!(r[3].label, "(3 smaller items)  6 B  0.7%");
    assert_eq!(r[5].label, "(2 smaller items)  5 B  0.6%");
    assert_eq!(r.iter().map(|r| r.indent).collect::<Vec<_>>(), vec![0, 1, 1, 1, 0, 0]);
    assert_eq!(r[5].size, 5);
    assert!(r[5].label.contains(&human(5)));
}

#[test]
fn rows_have_the_color_of_their_slice() {
    let l = look(b"/", &sample(), &[], false).unwrap();
    for r in &l.rows {
        match (&r.kind, r.swatch) {
            (SideKind::Item { path, .. }, Some(i)) => assert_eq!(&l.wedges[i].path, path),
            (SideKind::Item { path, .. }, None) => {
                assert!(l.wedges.iter().all(|w| &w.path != path));
            }
            (_, s) => assert!(s.is_none()),
        }
    }
    assert!(l.rows[0].swatch.is_some() && l.rows[1].swatch.is_some());
}

#[test]
fn rows_without_a_size_are_left_out() {
    let t = dir("/", vec![dir("a", vec![file("x", 10), file("e", 0), file("f", 0)]), file("z", 0)]);
    assert_eq!(kinds(&rows(&t, false)), vec!["[0]/", "[0, 0]"]);
}

#[test]
fn long_lists_are_cut_short() {
    // thirty children, and ten of each
    let kids: Vec<Node> = (0..40)
        .map(|i| dir(&format!("k{i}"), (0..12).map(|j| file(&format!("g{j}"), 10)).collect()))
        .collect();
    let t = dir("/", kids);
    let r = rows(&t, false);
    assert_eq!(r.len(), 30 * 12 + 1);
    assert_eq!(kind(&r[11]), "toggle [0]");
    assert!(r[11].label.starts_with("(2 smaller items)"));
    assert_eq!(kind(&r[360]), "toggle []");
    assert!(r[360].label.starts_with("(10 smaller items)"));
}

#[test]
fn the_smaller_items_are_listed_up_to_a_limit() {
    let mut kids = vec![file("big", 1_000_000)];
    kids.extend((0..450).map(|i| file(&format!("s{i}"), 1)));
    let t = dir("/", kids);
    assert_eq!(kinds(&rows(&t, false)), vec!["[0]", "toggle []"]);
    let r = rows(&t, true);
    assert_eq!(r.len(), 401);
    assert_eq!(kind(&r[0]), "[1]");
    assert_eq!(kind(&r[400]), "note");
    assert_eq!(r[400].label, "…and 50 more");
}

fn row(kind: SideKind) -> SideRow {
    SideRow { label: String::new(), size: 0, swatch: None, indent: 0, kind }
}

fn note() -> SideRow {
    row(SideKind::Note)
}

fn item(path: Vec<usize>, is_dir: bool) -> SideRow {
    row(SideKind::Item { path, is_dir })
}

fn toggle(key: Vec<usize>) -> SideRow {
    row(SideKind::Toggle { key })
}

fn some_rows() -> Vec<SideRow> {
    vec![
        note(),
        item(vec![0], true),
        note(),
        item(vec![0, 1], false),
        toggle(vec![0]),
        toggle(Vec::new()),
        note(),
    ]
}

fn no_keys() -> Keys {
    Keys { down: false, up: false, g: false, last: false, act: false }
}

#[test]
fn the_cursor_skips_notes() {
    let r = some_rows();
    assert_eq!(first_row(&r, 0), Some(1));
    assert_eq!(first_row(&r, 6), None);
    assert_eq!(last_row(&r, 7), Some(5));
    assert_eq!(last_row(&r, 1), None);
    assert_eq!(step(&r, None, true), Some(1));
    assert_eq!(step(&r, None, false), Some(5));
    assert_eq!(step(&r, Some(1), true), Some(3));
    assert_eq!(step(&r, Some(3), false), Some(1));
    assert_eq!(step(&r, Some(5), true), Some(5));
    assert_eq!(step(&r, Some(1), false), Some(1));
    assert_eq!(step(&r, Some(99), true), Some(99));
}

#[test]
fn a_step_up_undoes_a_step_down() {
    let r = some_rows();
    for at in [1, 3, 4] {
        let down = step(&r, Some(at), true);
        assert_ne!(down, Some(at));
        assert_eq!(step(&r, down, false), Some(at));
    }
}

#[test]
fn two_g_go_to_the_first_row() {
    let r = some_rows();
    let g = Keys { g: true, ..no_keys() };
    let (sel, waiting) = move_cursor(&r, Some(4), false, g);
    assert_eq!((sel, waiting), (Some(4), true));
    assert_eq!(move_cursor(&r, sel, waiting, g), (Some(1), false));
    // any other key of the list ends the waiting
    assert!(!move_cursor(&r, sel, true, Keys { down: true, ..no_keys() }).1);
    assert!(!move_cursor(&r, sel, true, Keys { act: true, ..no_keys() }).1);
    assert!(move_cursor(&r, sel, true, no_keys()).1);
    assert_eq!(move_cursor(&r, sel, true, Keys { last: true, ..no_keys() }), (Some(5), false));
    assert_eq!(move_cursor(&r, sel, false, Keys { up: true, ..no_keys() }), (Some(3), false));
    assert_eq!(
        move_cursor(&r, sel, false, Keys { down: true, up: true, ..no_keys() }),
        (Some(5), false)
    );
}

#[test]
fn a_cursor_out_of_range_goes_to_the_first_row() {
    let r = some_rows();
    assert_eq!(park(&r, None), Some(1));
    assert_eq!(park(&r, Some(7)), Some(1));
    assert_eq!(park(&r, Some(6)), Some(6));
    assert_eq!(park(&vec![note()], None), None);
    assert_eq!(park(&Vec::new(), Some(0)), None);
}

#[test]
fn choosing_opens_directories_and_smaller_items() {
    let r = some_rows();
    assert!(matches!(choose_row(&r, Some(1)), Choice::Open(p) if p == vec![0]));
    assert!(matches!(choose_row(&r, Some(3)), Choice::Nothing));
    assert!(matches!(choose_row(&r, Some(4)), Choice::Smaller(k) if k == vec![0]));
    assert!(matches!(choose_row(&r, Some(5)), Choice::Smaller(k) if k.is_empty()));
    assert!(matches!(choose_row(&r, Some(0)), Choice::Nothing));
    assert!(matches!(choose_row(&r, Some(7)), Choice::Nothing));
    assert!(matches!(choose_row(&r, None), Choice::Nothing));
}

fn wedge(ring: usize, lump: bool, path: Vec<usize>) -> Wedge {
    let zero = Single::from_bits(0).unwrap();
    Wedge {
        ring,
        a0: zero,
        a1: zero,
        hue: zero,
        is_dir: false,
        lump,
        name: String::new(),
        size: 0,
        frac: zero,
        path,
        abs: None,
    }
}

#[test]
fn the_deepest_row_on_the_way_lights() {
    let r = some_rows();
    let hover = |w: Wedge| hover_row(&r, Some(&w));
    assert_eq!(hover(wedge(2, false, vec![0, 1, 5])), Some(3));
    assert_eq!(hover(wedge(1, false, vec![0, 2])), Some(1));
    assert_eq!(hover(wedge(0, false, vec![0])), Some(1));
    assert_eq!(hover(wedge(0, false, vec![7])), None);
    assert_eq!(hover(wedge(0, true, Vec::new())), Some(5));
    assert_eq!(hover(wedge(1, true, Vec::new())), None);
    assert_eq!(hover_row(&r, None), None);
    // of two rows as deep the last
    let twice = vec![item(vec![0], true), item(vec![0], true)];
    assert_eq!(hover_row(&twice, Some(&wedge(0, false, vec![0]))), Some(1));
}
