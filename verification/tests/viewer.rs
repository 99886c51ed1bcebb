use disksun::app::{App, Icon, Poll, State};
use disksun::cursor::{Choice, Keys};
use disksun::labels::{
    disk_free, free_space, hub_title, outcome_message, scanning, side_title, tooltip, wedge_label,
    Outcome,
};
use disksun::mounts::read_mounts;
use disksun::nav::displayed;
use disksun::rings::ring_bounds;
use disksun::single::Single;
use disksun::tree::Node;

const TAU: f32 = std::f32::consts::TAU;

fn of(x: f32) -> Single {
    Single::from_bits(x.to_bits()).unwrap()
}

fn to(s: Single) -> f32 {
    f32::from_bits(s.to_bits())
}

fn file(name: &str, size: u64) -> Node {
    Node { name: name.to_string(), size, is_dir: false, children: Vec::new() }
}

fn dir(name: &str, children: Vec<Node>) -> Node {
    let size = children.iter().map(|c| c.size).sum();
    Node { name: name.to_string(), size, is_dir: true, children }
}

fn tree() -> Node {
    dir(
        "/scan",
        vec![
            dir("a", vec![dir("aa", vec![file("deep", 400)]), file("ab", 100)]),
            file("b", 400),
            file("s1", 2),
            file("s2", 2),
        ],
    )
}

fn new_app() -> App {
    App::new(b"/scan".to_vec(), "/scan".to_string(), read_mounts("/dev/sda1 / ext4 rw\n"))
}

fn ready() -> App {
    let mut app = new_app();
    assert!(!app.collect(Poll::Done(Ok(tree()))));
    app
}

fn shown_name(app: &App) -> String {
    match &app.state {
        State::Ready(root) => displayed(root, &app.nav).name.clone(),
        _ => panic!("no scan is done"),
    }
}

/// The slice of that name.
fn wedge(app: &App, name: &str) -> usize {
    app.wedges.iter().position(|w| w.name == name).unwrap()
}

const HUB: f32 = 36.0;
const RIM: f32 = 200.0;

/// Puts the pointer on a slice.
fn point_at(app: &mut App, wi: usize) -> bool {
    let bounds = ring_bounds(of(HUB), of(RIM));
    let w = &app.wedges[wi];
    let (r0, r1) = bounds[w.ring];
    let r = (to(r0) + to(r1)) * 0.5;
    let angle = (to(w.a0) + to(w.a1)) * 0.5;
    app.hover(Some((of(r), of(angle))), of(HUB), &bounds)
}

#[test]
fn a_new_viewer_scans() {
    let app = new_app();
    assert!(matches!(app.state, State::Scanning { admin: false }));
    assert_eq!(app.scan_root, b"/scan");
    assert_eq!(app.path_input, "/scan");
    assert_eq!(app.mounts.len(), 1);
    assert!(app.nav.is_empty() && app.wedges.is_empty() && !app.small_focus);
    assert!(app.trash_size.is_none() && app.side_sel.is_none() && app.anim.is_none());
}

#[test]
fn a_scan_ends_with_a_tree_or_an_error() {
    let mut app = new_app();
    assert!(app.collect(Poll::Empty));
    assert!(matches!(app.state, State::Scanning { .. }));
    assert!(!app.collect(Poll::Disconnected));
    assert!(matches!(&app.state, State::Error(e) if e == "scan thread died"));
    // only a scan that runs can end
    assert!(!app.collect(Poll::Done(Ok(tree()))));
    assert!(matches!(app.state, State::Error(_)));
    let mut app = new_app();
    app.collect(Poll::Done(Err("no".to_string())));
    assert!(matches!(&app.state, State::Error(e) if e == "no"));
    assert!(app.show().is_none());
    assert!(app.crumbs("/".to_string()).is_none());
}

#[test]
fn a_new_scan_starts_over() {
    let mut app = ready();
    app.show().unwrap();
    app.small_toggled(&[0]);
    app.begin_scan(b"/x".to_vec(), "/x".to_string(), true, Vec::new());
    assert!(matches!(app.state, State::Scanning { admin: true }));
    assert!(app.nav.is_empty() && app.wedges.is_empty() && !app.small_focus);
    assert!(app.mounts.is_empty());
    assert_eq!((app.scan_root.as_slice(), app.path_input.as_str()), (&b"/x"[..], "/x"));
}

#[test]
fn zooming_opens_the_directory_of_a_slice() {
    let mut app = ready();
    let frame = app.show().unwrap();
    assert_eq!((frame.name.as_str(), frame.size, frame.begins), ("/scan", 904, false));
    let aa = wedge(&app, "aa");
    let (a0, a1) = (to(app.wedges[aa].a0), to(app.wedges[aa].a1));
    let slices = app.wedges.len();
    assert!(app.zoom_into(aa));
    assert_eq!(app.nav, vec![0, 0]);
    assert_eq!(shown_name(&app), "aa");
    assert!(app.wedges.is_empty());
    let anim = app.anim.as_ref().unwrap();
    assert!(anim.dir_in && anim.shift == 2 && anim.old.len() == slices);
    assert_eq!((to(anim.span.0), to(anim.span.1)), (a0, a1));
}

#[test]
fn a_slice_of_no_directory_does_not_zoom() {
    let mut app = ready();
    app.show().unwrap();
    let b = wedge(&app, "b");
    assert!(!app.zoom_into(b));
    assert!(app.nav.is_empty() && app.anim.is_none() && !app.wedges.is_empty());
    let lump = app.wedges.iter().position(|w| w.lump).unwrap();
    assert!(!app.zoom_into(lump));
}

#[test]
fn going_up_undoes_zooming() {
    let mut app = ready();
    app.show().unwrap();
    let aa = wedge(&app, "aa");
    let levels = app.wedges[aa].path.len();
    app.zoom_into(aa);
    for _ in 0..levels {
        app.go_up();
    }
    assert!(app.nav.is_empty() && !app.small_focus && app.side_sel.is_none());
    assert_eq!(app.pending_up, Some(0));
    app.go_up();
    assert!(app.nav.is_empty() && app.side_sel.is_none());
}

#[test]
fn going_up_closes_the_chart_to_the_slice_left() {
    let mut app = ready();
    app.show().unwrap();
    app.zoom_into(wedge(&app, "a"));
    app.anim_done();
    app.show().unwrap();
    app.go_up();
    let frame = app.show().unwrap();
    assert!(frame.begins && app.pending_up.is_none());
    let w = &app.wedges[wedge(&app, "a")];
    let anim = app.anim.as_ref().unwrap();
    assert!(!anim.dir_in && anim.shift == 1 && anim.old.is_empty());
    assert_eq!((to(anim.span.0), to(anim.span.1)), (to(w.a0), to(w.a1)));
}

#[test]
fn going_up_leaves_the_smaller_items_first() {
    let mut app = ready();
    assert!(!app.can_go_up());
    app.small_toggled(&[0]);
    assert_eq!(app.nav, vec![0]);
    assert!(app.small_focus && app.can_go_up());
    app.go_up();
    assert_eq!(app.nav, vec![0]);
    assert!(!app.small_focus);
    app.go_up();
    assert!(app.nav.is_empty());
    app.small_toggled(&[]);
    assert!(app.nav.is_empty() && app.small_focus);
    let frame = app.show().unwrap();
    assert_eq!((frame.name.as_str(), frame.size), ("/scan · smaller items", 4));
}

#[test]
fn the_keys_that_leave_rest_while_typing() {
    let mut app = ready();
    app.nav = vec![0, 0];
    app.back_key(true, true);
    app.back_key(false, false);
    assert_eq!(app.nav, vec![0, 0]);
    app.back_key(false, true);
    assert_eq!(app.nav, vec![0]);
    assert!(app.quit_key(false, true));
    assert!(!app.quit_key(true, true) && !app.quit_key(false, false));
}

#[test]
fn crumbs_lead_back() {
    let mut app = ready();
    app.nav = vec![0, 0];
    assert_eq!(app.crumbs("/scan".to_string()).unwrap(), vec!["/scan", "a", "aa"]);
    assert!(app.is_here(2, 3) && !app.is_here(1, 3));
    app.small_focus = true;
    assert!(!app.is_here(2, 3));
    app.crumb_clicked(1);
    assert_eq!(app.nav, vec![0]);
    assert!(!app.small_focus && app.anim.is_none());
    app.crumb_clicked(5);
    assert_eq!(app.nav, vec![0]);
    app.crumb_clicked(0);
    assert!(app.nav.is_empty());
}

#[test]
fn rows_open_what_they_name() {
    let mut app = ready();
    app.show().unwrap();
    app.side_sel = Some(1);
    assert!(app.side_clicked(&[0, 0]));
    assert_eq!(shown_name(&app), "aa");
    assert!(app.side_sel.is_none() && app.anim.is_some());
    // one without a slice is opened without an animation
    let mut app = ready();
    app.show().unwrap();
    app.wedges.clear();
    assert!(!app.side_clicked(&[0]));
    assert_eq!(shown_name(&app), "a");
    assert!(app.anim.is_none());
}

#[test]
fn the_slice_under_the_pointer_is_found() {
    let mut app = ready();
    app.show().unwrap();
    for wi in 0..app.wedges.len() {
        assert!(!point_at(&mut app, wi));
        assert_eq!(app.hovered, Some(wi));
    }
    let bounds = ring_bounds(of(HUB), of(RIM));
    app.hover(Some((of(RIM * 2.0), of(1.0))), of(HUB), &bounds);
    assert_eq!(app.hovered, None);
    app.hover(None, of(HUB), &bounds);
    assert_eq!(app.hovered, None);
}

#[test]
fn the_hub_leads_up_where_there_is_an_up() {
    let mut app = ready();
    app.show().unwrap();
    let bounds = ring_bounds(of(HUB), of(RIM));
    let on_hub = Some((of(1.0), of(0.0)));
    assert!(!app.hover(on_hub, of(HUB), &bounds));
    app.nav = vec![0];
    app.show().unwrap();
    assert!(app.hover(on_hub, of(HUB), &bounds));
    assert_eq!(app.hovered, None);
    assert!(!app.clicked(true));
    assert!(app.nav.is_empty());
    assert_eq!(app.pending_up, Some(0));
}

#[test]
fn a_row_under_the_pointer_lights_its_slice() {
    let mut app = ready();
    app.show().unwrap();
    let bounds = ring_bounds(of(HUB), of(RIM));
    app.side_hover = Some(vec![0, 0]);
    app.hover(None, of(HUB), &bounds);
    assert_eq!(app.hovered, Some(wedge(&app, "aa")));
    app.side_hover = Some(Vec::new());
    app.hover(None, of(HUB), &bounds);
    assert_eq!(app.hovered, app.wedges.iter().position(|w| w.lump && w.ring == 0));
    app.side_hover = Some(vec![7]);
    app.hover(None, of(HUB), &bounds);
    assert_eq!(app.hovered, None);
}

#[test]
fn all_that_lead_to_a_slice_are_lit() {
    let mut app = ready();
    app.show().unwrap();
    let (a, aa, ab) = (wedge(&app, "a"), wedge(&app, "aa"), wedge(&app, "ab"));
    point_at(&mut app, aa);
    assert!(app.is_lit(a) && app.is_lit(aa) && !app.is_lit(ab));
    assert!(app.is_touched(aa) && !app.is_touched(a));
    assert!(!app.is_lit(wedge(&app, "deep")));
    app.dragging = Some(ab);
    assert!(app.is_lit(ab) && app.is_touched(ab));
    app.zoom_into(a);
    assert!(!app.is_touched(aa));
}

#[test]
fn nothing_is_hovered_or_clicked_while_the_chart_moves() {
    let mut app = ready();
    app.show().unwrap();
    app.zoom_into(wedge(&app, "a"));
    app.show().unwrap();
    point_at(&mut app, 0);
    assert_eq!(app.hovered, None);
    let nav = app.nav.clone();
    assert!(!app.clicked(true) && !app.clicked(false));
    assert_eq!(app.nav, nav);
    app.anim_done();
    point_at(&mut app, 0);
    assert_eq!(app.hovered, Some(0));
}

#[test]
fn clicks_open_directories_and_the_smaller_items() {
    let mut app = ready();
    app.show().unwrap();
    let lump = app.wedges.iter().position(|w| w.lump && w.ring == 0).unwrap();
    point_at(&mut app, lump);
    assert!(!app.clicked(false));
    assert!(app.small_focus && app.nav.is_empty());
    let mut app = ready();
    app.show().unwrap();
    let a = wedge(&app, "a");
    point_at(&mut app, a);
    assert!(app.clicked(false));
    assert_eq!(shown_name(&app), "a");
    app.anim_done();
    app.show().unwrap();
    app.hovered = None;
    assert!(!app.clicked(false));
}

#[test]
fn dropping_on_the_trash_asks_first() {
    let mut app = ready();
    app.show().unwrap();
    let deep = wedge(&app, "deep");
    point_at(&mut app, deep);
    app.drag_started();
    assert_eq!(app.icon(true, false), Icon::Grabbing);
    assert_eq!(app.dragging, Some(deep));
    app.drag_stopped(false);
    assert!(app.pending_trash.is_none() && app.dragging.is_none());
    app.drag_started();
    app.drag_stopped(true);
    assert_eq!(app.pending_trash, Some((b"/scan/a/aa/deep".to_vec(), "deep".to_string())));
    assert!(app.is_modal());
    // a lump is no item
    let mut app = ready();
    app.show().unwrap();
    app.dragging = app.wedges.iter().position(|w| w.lump);
    app.drag_stopped(true);
    assert!(app.pending_trash.is_none());
}

#[test]
fn the_pointer_is_a_hand_over_what_can_be_used() {
    let mut app = ready();
    app.show().unwrap();
    assert_eq!(app.icon(true, false), Icon::Plain);
    assert_eq!(app.icon(true, true), Icon::Hand);
    point_at(&mut app, 0);
    assert_eq!(app.icon(true, false), Icon::Hand);
    assert_eq!(app.icon(false, false), Icon::Plain);
}

fn keys() -> Keys {
    Keys { down: false, up: false, g: false, last: false, act: false }
}

#[test]
fn keys_move_the_cursor_and_act() {
    let mut app = ready();
    let rows = app.show().unwrap().rows;
    app.park(&rows);
    assert_eq!(app.side_sel, Some(0));
    let (scroll, choice) = app.keys(&rows, false, Keys { down: true, ..keys() });
    assert!(scroll && matches!(choice, Choice::Nothing));
    assert_eq!(app.side_sel, Some(1));
    let (scroll, choice) = app.keys(&rows, false, Keys { act: true, ..keys() });
    assert!(!scroll);
    assert!(matches!(choice, Choice::Open(p) if p == vec![0, 0]));
    app.keys(&rows, false, Keys { last: true, ..keys() });
    assert_eq!(app.side_sel, Some(rows.len() - 1));
    let (_, choice) = app.keys(&rows, false, Keys { act: true, ..keys() });
    assert!(matches!(choice, Choice::Smaller(k) if k.is_empty()));
}

#[test]
fn keys_rest_while_typing_or_confirming() {
    let mut app = ready();
    let rows = app.show().unwrap().rows;
    app.side_sel = Some(0);
    let all = Keys { down: true, up: false, g: true, last: true, act: true };
    assert!(matches!(app.keys(&rows, true, all), (false, Choice::Nothing)));
    app.pending_empty = true;
    assert!(matches!(app.keys(&rows, false, all), (false, Choice::Nothing)));
    app.pending_empty = false;
    assert!(matches!(app.keys(&Vec::new(), false, all), (false, Choice::Nothing)));
    assert_eq!(app.side_sel, Some(0));
}

#[test]
fn at_most_one_row_is_lit() {
    let mut app = ready();
    let rows = app.show().unwrap().rows;
    app.side_sel = Some(0);
    let deep = wedge(&app, "deep");
    point_at(&mut app, deep);
    let hover = app.hover_row(&rows);
    assert_eq!(hover, Some(1));
    for (h, want) in [(hover, 1), (None, 0)] {
        let lit: Vec<usize> = (0..rows.len()).filter(|&i| app.row_lit(h, i)).collect();
        assert_eq!(lit, vec![want]);
    }
}

#[test]
fn the_trash_is_told_of_when_emptied() {
    let mut app = new_app();
    assert_eq!(app.trash_measured(7, None), None);
    assert_eq!(app.trash_size, Some(7));
    assert_eq!(app.trash_measured(0, Some(true)), Some("Trash emptied"));
    assert_eq!(app.trash_measured(3, Some(false)), Some("Couldn't empty some Trash items"));
    assert_eq!(app.trash_size, Some(3));
}

#[test]
fn after_a_move_to_the_trash_the_root_is_scanned_again() {
    let mut app = ready();
    app.nav = vec![0];
    assert!(!app.trashed("/scan".to_string(), Vec::new()));
    assert!(matches!(app.state, State::Scanning { admin: false }));
    assert_eq!(app.scan_root, b"/scan");
    assert!(app.nav.is_empty());
    app.state = State::Scanning { admin: true };
    assert!(app.trashed("/scan".to_string(), Vec::new()));
}

#[test]
fn the_tooltip_tells_name_size_and_share() {
    let mut app = ready();
    app.show().unwrap();
    let tip = |name: &str| tooltip(&app.wedges[wedge(&app, name)]);
    assert_eq!(tip("a"), "a\n500 B  ·  55.3%\nclick to open · drag to Trash");
    assert_eq!(tip("b"), "b\n400 B  ·  44.2%\ndrag to Trash");
    assert_eq!(tip("(2 small items)"), "(2 small items)\n4 B  ·  0.4%");
    for w in &app.wedges {
        let share = w.size as f32 / 904u64 as f32 * 100.0;
        assert!(tooltip(w).contains(&format!("  {share:.1}%")));
    }
}

#[test]
fn labels_say_what_there_is() {
    let mut app = ready();
    app.show().unwrap();
    assert_eq!(wedge_label(&app.wedges[0]), "a\n500 B");
    assert_eq!(hub_title("a name that is long", false), "a name that i…");
    assert_eq!(hub_title("a name that is long", true), "⬆ a name that…");
    assert_eq!(side_title("x · smaller items", true), "Smaller items in x");
    assert_eq!(side_title("x", false), "Items in x directory");
    assert_eq!(
        scanning("/x", true, 0, 0),
        "Scanning /x as admin…\nAuthenticate in the terminal window."
    );
    assert_eq!(scanning("/x", false, 12, 2048), "Scanning /x …\n12 files · 2.0 KiB");
    assert_eq!(free_space(2048, 1024), "1.0 KiB free of 2.0 KiB");
    assert_eq!(disk_free(100, 25, 4096), (409600, 102400));
    assert_eq!(outcome_message(&Outcome::Moved("/a b".to_string())), "Moved to Trash: /a b");
    assert_eq!(outcome_message(&Outcome::Refused(" no \n".to_string())), "Trash failed: no");
    assert_eq!(
        outcome_message(&Outcome::NoProgram("not found".to_string())),
        "Trash failed (need `gio`): not found"
    );
}

#[test]
fn the_whole_circle_is_laid_out() {
    let mut app = ready();
    app.show().unwrap();
    let last = app.wedges.iter().rfind(|w| w.ring == 0).unwrap();
    assert_eq!(to(last.a1), TAU);
}
