use std::path::Path;

use disksun::paths::{is_among, is_same_path, join};

#[test]
fn paths_are_the_same_where_their_components_are() {
    let all = [
        "", ".", "/", "//", "/.", "a", "./a", "a/", "a/.", "a/./b", "a//b", "a/b", "/a/b", "/a/b/",
        "..", "a/..", "b/a", "./", "././a", "/./a/b", "a/b/c", ".a", "a.",
    ];
    for p in all {
        for q in all {
            assert_eq!(is_same_path(p.as_bytes(), q.as_bytes()), Path::new(p) == Path::new(q), "{p} {q}");
        }
    }
}

#[test]
fn joining_is_what_the_standard_library_does() {
    for base in ["", "/", "a", "a/", "/a/b", "/a/b/"] {
        for rel in ["", "x", "/x", "x/y", "../x", "."] {
            let got = join(base.as_bytes(), rel.as_bytes());
            let want = Path::new(base).join(rel);
            assert_eq!(got, want.to_str().unwrap().as_bytes(), "{base} {rel}");
        }
    }
}

#[test]
fn a_path_is_looked_for_by_its_components() {
    let ps = vec![b"/proc".to_vec(), b"/run/user".to_vec()];
    assert!(is_among(b"/proc/", &ps));
    assert!(is_among(b"//run/./user", &ps));
    assert!(!is_among(b"/run", &ps));
    assert!(!is_among(b"proc", &ps));
    assert!(!is_among(b"/proc", &Vec::new()));
}
