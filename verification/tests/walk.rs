use std::collections::HashMap;

use disksun::mounts::read_mounts;
use disksun::order::sort_by_size;
use disksun::tree::Node;
use disksun::walk::{build_cfg, Entry, Kind, Meta, Step, Walk, WalkCfg};

/// A disk in memory: the entries of each directory that can be read.
type Disk = HashMap<&'static str, Vec<(&'static str, Kind)>>;

fn file(blocks: u64) -> Kind {
    Kind::File(Some(Meta { nlink: 1, dev: 1, ino: blocks, blocks }))
}

fn link(ino: u64, dev: u64, blocks: u64) -> Kind {
    Kind::File(Some(Meta { nlink: 2, dev, ino, blocks }))
}

fn list(disk: &Disk, path: &str) -> Option<Vec<Entry>> {
    let entries = disk.get(path)?;
    Some(
        entries
            .iter()
            .map(|(name, kind)| Entry {
                path: format!("{}/{name}", path.trim_end_matches('/')).into_bytes(),
                name: name.to_string(),
                kind: *kind,
            })
            .collect(),
    )
}

/// Runs a walk; also the directories that it asked for.
fn run(disk: &Disk, cfg: WalkCfg, root: &str) -> (Node, Vec<String>, u64, u64) {
    let mut w = Walk::new(cfg, root.to_string());
    let mut asked = Vec::new();
    let mut listing = list(disk, root);
    loop {
        match w.listed(listing) {
            Step::Read(p) => {
                let p = String::from_utf8(p).unwrap();
                listing = list(disk, &p);
                asked.push(p);
            }
            Step::Done(n) => return (n, asked, w.files(), w.bytes()),
            Step::Overflow => panic!("too large"),
        }
    }
}

fn cfg(target: &str, cross: bool, table: &str) -> WalkCfg {
    build_cfg(target.as_bytes().to_vec(), cross, read_mounts(table))
}

fn shape(n: &Node) -> String {
    let kids: Vec<String> = n.children.iter().map(shape).collect();
    format!("{}{}:{}[{}]", n.name, if n.is_dir { "/" } else { "" }, n.size, kids.join(" "))
}

fn disk() -> Disk {
    let mut d: Disk = HashMap::new();
    d.insert(
        "/",
        vec![
            ("small", file(2)),
            ("proc", Kind::Dir),
            ("home", Kind::Dir),
            ("mnt", Kind::Dir),
            ("link", Kind::Symlink),
            ("odd", Kind::Unknown),
            ("gone", Kind::File(None)),
            ("big", file(100)),
        ],
    );
    d.insert("/proc", vec![("kcore", file(1 << 40))]);
    d.insert("/home", vec![("a", link(9, 1, 8)), ("b", link(9, 1, 8)), ("sub", Kind::Dir)]);
    d.insert("/home/sub", vec![("c", link(9, 1, 8)), ("d", link(9, 2, 8)), ("e", file(0))]);
    d.insert("/mnt", vec![("x", file(20))]);
    d
}

const TABLE: &str = "/dev/sda1 / ext4 rw\nproc /proc proc rw\n/dev/sdb1 /mnt ext4 rw\n";

#[test]
fn a_walk_adds_up_what_it_finds() {
    let (root, asked, files, bytes) = run(&disk(), cfg("/", true, TABLE), "/");
    assert_eq!(
        shape(&root),
        "//:70656[big:51200[] mnt/:10240[x:10240[]] home/:8192[a:4096[] sub/:4096[d:4096[] e:0[]]] \
         small:1024[]]"
    );
    assert_eq!(asked, vec!["/home", "/home/sub", "/mnt"]);
    assert_eq!(files, 6);
    assert_eq!(bytes, 70656);
}

#[test]
fn other_volumes_are_crossed_only_where_asked() {
    let (root, asked, _, _) = run(&disk(), cfg("/", false, TABLE), "/");
    assert_eq!(asked, vec!["/home", "/home/sub"]);
    assert_eq!(root.size, 70656 - 10240);
    // the target itself may be such a volume
    let (mnt, _, _, _) = run(&disk(), cfg("/mnt", false, TABLE), "/mnt");
    assert_eq!(shape(&mnt), "/mnt/:10240[x:10240[]]");
}

#[test]
fn virtual_file_systems_are_never_entered() {
    for cross in [false, true] {
        let (root, asked, _, _) = run(&disk(), cfg("/", cross, TABLE), "/");
        assert!(!asked.iter().any(|p| p == "/proc"));
        assert!(!root.children.iter().any(|c| c.name == "proc"));
    }
}

#[test]
fn a_directory_that_cannot_be_read_is_empty() {
    let mut d = disk();
    d.remove("/home/sub");
    let (root, _, _, _) = run(&d, cfg("/", false, TABLE), "/");
    assert_eq!(
        shape(&root),
        "//:56320[big:51200[] home/:4096[a:4096[] sub/:0[]] small:1024[]]"
    );
    let (none, asked, _, _) = run(&HashMap::new(), cfg("/x", false, ""), "/x");
    assert_eq!(shape(&none), "/x/:0[]");
    assert!(asked.is_empty());
}

#[test]
fn linked_files_count_once_per_device() {
    let (root, _, _, _) = run(&disk(), cfg("/home", false, TABLE), "/home");
    assert_eq!(shape(&root), "/home/:8192[a:4096[] sub/:4096[d:4096[] e:0[]]]");
}

#[test]
fn a_linked_file_counts_at_its_first_name_whatever_the_depth() {
    let mut d: Disk = HashMap::new();
    d.insert("/t", vec![("p", Kind::Dir), ("q", Kind::Dir), ("z", link(7, 1, 8)), ("y", file(2))]);
    d.insert("/t/p", vec![("deep", Kind::Dir), ("v", link(7, 1, 8)), ("u", link(5, 1, 4))]);
    d.insert("/t/p/deep", vec![("w", link(7, 1, 8)), ("x", file(1))]);
    d.insert("/t/q", vec![("s", link(5, 1, 4)), ("r", link(6, 1, 2)), ("o", file(0))]);
    let (root, _, files, bytes) = run(&d, cfg("/t", false, ""), "/t");
    assert_eq!(
        shape(&root),
        "/t/:8704[p/:6656[deep/:4608[w:4096[] x:512[]] u:2048[]] q/:1024[r:1024[] o:0[]] y:1024[]]"
    );
    // three files of one name, and three of several
    assert_eq!(files, 6);
    assert_eq!(bytes, root.size);
}

#[test]
fn directories_add_up_to_their_parents() {
    fn check(n: &Node) {
        if n.is_dir {
            assert_eq!(n.size, n.children.iter().map(|c| c.size).sum::<u64>());
            assert!(n.children.windows(2).all(|w| w[0].size >= w[1].size));
        } else {
            assert!(n.children.is_empty());
        }
        n.children.iter().for_each(check);
    }
    check(&run(&disk(), cfg("/", true, TABLE), "/").0);
}

#[test]
fn the_progress_ends_at_what_the_tree_holds() {
    fn count(n: &Node) -> u64 {
        if n.is_dir {
            n.children.iter().map(count).sum()
        } else {
            1
        }
    }
    for cross in [false, true] {
        let (root, _, files, bytes) = run(&disk(), cfg("/", cross, TABLE), "/");
        assert_eq!(files, count(&root));
        assert_eq!(bytes, root.size);
    }
}

#[test]
fn a_size_past_64_bits_is_told() {
    let mut d: Disk = HashMap::new();
    d.insert("/", vec![("a", file(u64::MAX / 512)), ("b", file(1))]);
    let mut w = Walk::new(cfg("/", false, ""), "/".to_string());
    assert!(matches!(w.listed(list(&d, "/")), Step::Overflow));
    d.insert("/", vec![("a", file(u64::MAX))]);
    let mut w = Walk::new(cfg("/", false, ""), "/".to_string());
    assert!(matches!(w.listed(list(&d, "/")), Step::Overflow));
}

#[test]
fn sorting_is_by_size_and_keeps_equals_in_order() {
    let node = |name: &str, size: u64| Node {
        name: name.to_string(),
        size,
        is_dir: false,
        children: Vec::new(),
    };
    let mut v = Vec::new();
    let mut want = Vec::new();
    for i in 0..100u64 {
        let size = (i * 37) % 10;
        v.push(node(&i.to_string(), size));
        want.push((size, i.to_string()));
    }
    want.sort_by(|a, b| b.0.cmp(&a.0));
    let got: Vec<(u64, String)> =
        sort_by_size(v).into_iter().map(|n| (n.size, n.name)).collect();
    assert_eq!(got, want);
    assert!(sort_by_size(Vec::new()).is_empty());
}
