use std::collections::HashMap;

use disksun::mounts::read_mounts;
use disksun::trash::{all_removed, info_dir, removals, trash_places, Measure, Meter};
use disksun::walk::{Entry, Kind, Meta};

const TABLE: &str = "/dev/a / ext4 rw\nproc /proc proc rw\n/dev/b /mnt/x ext4 rw\n";

fn places(xdg: Option<&str>, home: Option<&str>, uid: Option<u32>) -> Vec<String> {
    let bytes = |s: &str| s.as_bytes().to_vec();
    trash_places(xdg.map(bytes), home.map(bytes), uid, &read_mounts(TABLE))
        .into_iter()
        .map(|p| String::from_utf8(p).unwrap())
        .collect()
}

#[test]
fn the_trash_is_at_home_and_on_each_volume() {
    assert_eq!(
        places(None, Some("/home/u"), Some(1000)),
        vec![
            "/home/u/.local/share/Trash/files",
            "/.Trash/1000/files",
            "/.Trash-1000/files",
            "/mnt/x/.Trash/1000/files",
            "/mnt/x/.Trash-1000/files",
        ]
    );
    assert_eq!(places(Some("/data"), Some("/home/u"), None), vec!["/data/Trash/files"]);
    assert_eq!(places(Some("/data"), None, None), vec!["/data/Trash/files"]);
    assert!(places(None, None, None).is_empty());
}

fn entry(path: &str, kind: Kind) -> Entry {
    Entry { path: path.as_bytes().to_vec(), name: String::new(), kind }
}

fn file(blocks: u64) -> Kind {
    Kind::File(Some(Meta { nlink: 2, dev: 1, ino: 1, blocks }))
}

type Disk = HashMap<String, Vec<(String, Kind)>>;

fn list(disk: &Disk, path: &[u8]) -> Option<Vec<Entry>> {
    let p = std::str::from_utf8(path).unwrap();
    Some(disk.get(p)?.iter().map(|(n, k)| entry(&format!("{p}/{n}"), *k)).collect())
}

fn measure(disk: &Disk, dirs: &[&str]) -> u64 {
    let mut m = Meter::new(dirs.iter().map(|d| d.as_bytes().to_vec()).collect());
    loop {
        match m.next() {
            Measure::Read(p) => assert!(m.listed(list(disk, &p))),
            Measure::Done(n) => return n,
        }
    }
}

fn sample() -> Disk {
    let mut d: Disk = HashMap::new();
    d.insert(
        "/t/files".to_string(),
        vec![
            ("adir".to_string(), Kind::Dir),
            ("a.dat".to_string(), file(16)),
            ("link".to_string(), Kind::Symlink),
            ("odd".to_string(), Kind::Unknown),
        ],
    );
    d.insert(
        "/t/files/adir".to_string(),
        vec![("b.dat".to_string(), file(16)), ("more".to_string(), Kind::Dir)],
    );
    d.insert("/t/files/adir/more".to_string(), vec![("c".to_string(), file(1))]);
    d.insert("/t/info".to_string(), vec![("a.dat.trashinfo".to_string(), file(1))]);
    d.insert("/u/files".to_string(), vec![("d".to_string(), file(2))]);
    d
}

#[test]
fn the_trash_is_measured_without_following_links() {
    let d = sample();
    assert_eq!(measure(&d, &["/t/files"]), 33 * 512);
    assert_eq!(measure(&d, &["/t/files", "/u/files", "/gone"]), 35 * 512);
    assert_eq!(
        measure(&d, &["/t/files", "/u/files"]),
        measure(&d, &["/t/files"]) + measure(&d, &["/u/files"])
    );
    assert_eq!(measure(&d, &[]), 0);
}

#[test]
fn a_sum_past_64_bits_is_told_of() {
    let mut m = Meter::new(vec![b"/x".to_vec()]);
    assert!(matches!(m.next(), Measure::Read(_)));
    assert!(!m.listed(Some(vec![entry("/x/a", file(u64::MAX / 512)), entry("/x/b", file(1))])));
    let mut m = Meter::new(Vec::new());
    assert!(!m.listed(Some(vec![entry("/x/a", file(u64::MAX))])));
}

#[test]
fn emptying_clears_what_was_measured() {
    let mut d = sample();
    let files = list(&d, b"/t/files").unwrap();
    let infos = list(&d, &info_dir(b"/t")).unwrap();
    let plan = removals(&files, Some(b"/t".to_vec()), &infos);
    let got: Vec<(String, bool, bool)> = plan
        .iter()
        .map(|r| (String::from_utf8(r.path.clone()).unwrap(), r.whole, r.counts))
        .collect();
    let want = [
        ("/t/files/adir", true, true),
        ("/t/files/a.dat", false, true),
        ("/t/files/link", false, true),
        ("/t/files/odd", false, true),
        ("/t/info/a.dat.trashinfo", false, true),
        ("/t/directorysizes", false, false),
    ];
    assert_eq!(got.len(), want.len());
    for (g, w) in got.iter().zip(want) {
        assert_eq!((g.0.as_str(), g.1, g.2), w);
    }
    for (path, _, _) in got {
        let at = path.rfind('/').unwrap();
        if let Some(entries) = d.get_mut(&path[..at]) {
            entries.retain(|(n, _)| n != &path[at + 1..]);
        }
        d.remove(&path);
    }
    assert_eq!(measure(&d, &["/t/files"]), 0);
    assert!(d["/t/files"].is_empty() && d["/t/info"].is_empty());
}

#[test]
fn without_a_directory_around_it_only_the_contents_go() {
    let plan = removals(&vec![entry("a", Kind::Dir)], None, &vec![entry("i", file(1))]);
    assert_eq!(plan.len(), 1);
    assert!(plan[0].whole);
}

#[test]
fn a_missing_cache_is_no_failure() {
    let plan = removals(&vec![entry("/f/a", file(1))], Some(b"/r".to_vec()), &Vec::new());
    assert!(all_removed(&plan, &vec![true, false]));
    assert!(!all_removed(&plan, &vec![false, true]));
    assert!(all_removed(&Vec::new(), &Vec::new()));
}
