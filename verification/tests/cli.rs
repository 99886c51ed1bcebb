use disksun::cli::{mode, scan_mode, Mode};

fn args(s: &[&str]) -> Vec<String> {
    s.iter().map(|a| a.to_string()).collect()
}

fn asked(s: &[&str], home: Option<&str>) -> (bool, String, bool) {
    match mode(&args(s), home.map(|h| h.as_bytes().to_vec())) {
        Mode::Scan { path, cross } => (false, String::from_utf8(path).unwrap(), cross),
        Mode::View { path, cross } => (true, String::from_utf8(path).unwrap(), cross),
    }
}

fn want(view: bool, path: &str, cross: bool) -> (bool, String, bool) {
    (view, path.to_string(), cross)
}

#[test]
fn without_a_path_the_home_directory_is_shown() {
    assert_eq!(asked(&[], Some("/home/u")), want(true, "/home/u", false));
    assert_eq!(asked(&["--x"], Some("/home/u")), want(true, "/home/u", false));
    assert_eq!(asked(&[], None), want(true, "/", true));
}

#[test]
fn the_first_path_is_shown() {
    assert_eq!(asked(&["/some/path"], Some("/h")), want(true, "/some/path", false));
    assert_eq!(asked(&["--x", "a", "b"], Some("/h")), want(true, "a", false));
    assert_eq!(asked(&["a", "--scan"], None), want(true, "a", false));
}

#[test]
fn a_scan_is_written_where_asked() {
    assert_eq!(asked(&["--scan", "/some/path"], Some("/h")), want(false, "/some/path", false));
    assert_eq!(asked(&["--scan", "--cross", "/"], None), want(false, "/", true));
    assert_eq!(asked(&["--scan", "/a", "--cross"], None), want(false, "/a", true));
    assert_eq!(asked(&["--scan"], Some("/h")), want(false, "/", false));
    assert_eq!(asked(&["--scan", "a", "--other", "b"], None), want(false, "b", false));
}

#[test]
fn the_arguments_of_a_scan_come_in_any_order() {
    assert_eq!(scan_mode(&args(&["--cross", "x"])), (true, b"x".to_vec()));
    assert_eq!(scan_mode(&args(&["x", "--cross"])), (true, b"x".to_vec()));
    assert_eq!(scan_mode(&args(&["--crossing"])), (false, b"/".to_vec()));
}
