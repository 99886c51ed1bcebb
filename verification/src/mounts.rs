//! Mount points: which are worth scanning, and which are skipped.

use vstd::prelude::*;
use vstd::slice::slice_subrange;
use vstd::slice::slice_to_vec;
use vstd::string::*;

use crate::paths;
use crate::text;

verus! {

/// Virtual and pseudo file systems, never worth scanning.
pub open spec fn named_virtual(t: Seq<char>) -> bool {
    ||| t == "proc"@
    ||| t == "sysfs"@
    ||| t == "devtmpfs"@
    ||| t == "devpts"@
    ||| t == "tmpfs"@
    ||| t == "ramfs"@
    ||| t == "cgroup"@
    ||| t == "cgroup2"@
    ||| t == "bpf"@
    ||| t == "securityfs"@
    ||| t == "debugfs"@
    ||| t == "tracefs"@
    ||| t == "fusectl"@
    ||| t == "configfs"@
    ||| t == "mqueue"@
    ||| t == "hugetlbfs"@
    ||| t == "pstore"@
    ||| t == "efivarfs"@
    ||| t == "autofs"@
    ||| t == "binfmt_misc"@
    ||| t == "rpc_pipefs"@
    ||| t == "overlay"@
    ||| t == "squashfs"@
    ||| t == "nsfs"@
    ||| t == "selinuxfs"@
}

/// File systems that are always skipped: virtual ones, and those of a network
/// or a user process.
pub open spec fn virtual_fs(t: Seq<char>) -> bool {
    ||| named_virtual(t)
    ||| text::has_prefix(t, "fuse"@)
    ||| text::has_prefix(t, "nfs"@)
    ||| text::has_prefix(t, "cifs"@)
    ||| t == "9p"@
    ||| t == "smb3"@
}

fn is_named_virtual(t: &[char]) -> (r: bool)
    ensures
        r == named_virtual(t@),
{
    text::same(t, "proc")
        || text::same(t, "sysfs")
        || text::same(t, "devtmpfs")
        || text::same(t, "devpts")
        || text::same(t, "tmpfs")
        || text::same(t, "ramfs")
        || text::same(t, "cgroup")
        || text::same(t, "cgroup2")
        || text::same(t, "bpf")
        || text::same(t, "securityfs")
        || text::same(t, "debugfs")
        || text::same(t, "tracefs")
        || text::same(t, "fusectl")
        || text::same(t, "configfs")
        || text::same(t, "mqueue")
        || text::same(t, "hugetlbfs")
        || text::same(t, "pstore")
        || text::same(t, "efivarfs")
        || text::same(t, "autofs")
        || text::same(t, "binfmt_misc")
        || text::same(t, "rpc_pipefs")
        || text::same(t, "overlay")
        || text::same(t, "squashfs")
        || text::same(t, "nsfs")
        || text::same(t, "selinuxfs")
}

fn is_virtual(t: &[char]) -> (r: bool)
    ensures
        r == virtual_fs(t@),
{
    is_named_virtual(t) || text::starts_with(t, "fuse") || text::starts_with(t, "nfs")
        || text::starts_with(t, "cifs") || text::same(t, "9p") || text::same(t, "smb3")
}

pub fn is_virtual_fs(ty: &str) -> (r: bool)
    ensures
        r == virtual_fs(ty@),
{
    let t = text::chars_of(ty);
    is_virtual(t.as_slice())
}

/// A mounted file system.
pub struct Mount {
    pub point: Vec<u8>,
    pub fstype: String,
    /// Backed by a block device, and so worth offering and scanning.
    pub real: bool,
}

/// What a [`Mount`] stands for.
pub ghost struct MountV {
    pub point: Seq<u8>,
    pub fstype: Seq<char>,
    pub real: bool,
}

impl View for Mount {
    type V = MountV;

    open spec fn view(&self) -> MountV {
        MountV { point: self.point@, fstype: self.fstype@, real: self.real }
    }
}

pub open spec fn mount_views(ms: Seq<Mount>) -> Seq<MountV> {
    Seq::new(ms.len(), |i: int| ms[i]@)
}

// ------------------------------------------------------------ the mount table

/// How many characters at the start are spaces, or are none.
pub open spec fn run(s: Seq<char>, spaces: bool) -> int
    decreases s.len(),
{
    if s.len() == 0 || text::is_space(s[0]) != spaces {
        0
    } else {
        1 + run(s.skip(1), spaces)
    }
}

fn find_run(s: &[char], from: usize, spaces: bool) -> (r: usize)
    requires
        from <= s@.len(),
    ensures
        from <= r <= s@.len(),
        r == from + run(s@.skip(from as int), spaces),
{
    let mut i = from;
    while i < s.len() && text::space(s[i]) == spaces
        invariant
            from <= i <= s@.len(),
            from + run(s@.skip(from as int), spaces) == i + run(s@.skip(i as int), spaces),
        decreases s@.len() - i,
    {
        proof {
            assert(s@.skip(i as int).skip(1) == s@.skip(i + 1));
        }
        i = i + 1;
    }
    i
}

/// The first word of a line, and what follows it.
pub open spec fn word(s: Seq<char>) -> Option<(Seq<char>, Seq<char>)> {
    let t = s.skip(run(s, true));
    if t.len() == 0 {
        None
    } else {
        Some((t.take(run(t, false)), t.skip(run(t, false))))
    }
}

fn find_word(s: &[char], from: usize) -> (r: Option<(usize, usize)>)
    requires
        from <= s@.len(),
    ensures
        match r {
            None => word(s@.skip(from as int)) is None,
            Some((i, j)) => {
                &&& from <= i <= j <= s@.len()
                &&& word(s@.skip(from as int)) == Some(
                    (s@.subrange(i as int, j as int), s@.skip(j as int)),
                )
            },
        },
{
    let i = find_run(s, from, true);
    let ghost t = s@.skip(from as int).skip(i - from);
    proof {
        assert(t == s@.skip(i as int));
    }
    if i == s.len() {
        return None;
    }
    let j = find_run(s, i, false);
    proof {
        assert(t.take(j - i) == s@.subrange(i as int, j as int));
        assert(t.skip(j - i) == s@.skip(j as int));
    }
    Some((i, j))
}

/// How the mount table writes a space.
pub open spec fn octal_space() -> Seq<char> {
    seq!['\\', '0', '4', '0']
}

/// A mount point with its spaces.
pub open spec fn with_spaces(s: Seq<char>) -> Seq<char>
    decreases s.len(),
{
    if s.len() == 0 {
        seq![]
    } else if text::has_prefix(s, octal_space()) {
        seq![' '] + with_spaces(s.skip(4))
    } else {
        seq![s[0]] + with_spaces(s.skip(1))
    }
}

fn spaced(s: &[char]) -> (r: String)
    ensures
        r@ == with_spaces(s@),
{
    let mut out = String::new();
    let mut i: usize = 0;
    proof {
        assert(s@.skip(0) == s@);
    }
    while i < s.len()
        invariant
            i <= s@.len(),
            out@ + with_spaces(s@.skip(i as int)) == with_spaces(s@),
        decreases s@.len() - i,
    {
        let ghost t = s@.skip(i as int);
        let hit = s.len() - i >= 4 && s[i] == '\\' && s[i + 1] == '0' && s[i + 2] == '4' && s[i + 3]
            == '0';
        proof {
            if t.len() >= 4 {
                let p = t.take(4);
                assert(p[0] == t[0] && p[1] == t[1] && p[2] == t[2] && p[3] == t[3]);
                if hit {
                    assert(p == octal_space());
                } else if p == octal_space() {
                    assert(p[0] == '\\' && p[1] == '0' && p[2] == '4' && p[3] == '0');
                }
            }
            assert(hit == text::has_prefix(t, octal_space()));
        }
        if hit {
            proof {
                assert(t.skip(4) == s@.skip(i + 4));
            }
            out.push(' ');
            i = i + 4;
        } else {
            proof {
                assert(t.skip(1) == s@.skip(i + 1));
            }
            out.push(s[i]);
            i = i + 1;
        }
    }
    proof {
        assert(s@.skip(s@.len() as int) == Seq::<char>::empty());
    }
    out
}

/// What a line of the mount table says: device, mount point and type are its
/// first three words.
pub open spec fn mount_of(line: Seq<char>) -> Option<MountV> {
    match word(line) {
        None => None,
        Some((dev, l1)) => match word(l1) {
            None => None,
            Some((point, l2)) => match word(l2) {
                None => None,
                Some((ty, _)) => Some(
                    MountV {
                        point: vstd::utf8::encode_utf8(with_spaces(point)),
                        fstype: ty,
                        real: !virtual_fs(ty) && text::has_prefix(dev, "/dev/"@),
                    },
                ),
            },
        },
    }
}

/// What the lines of the mount table say.
pub open spec fn mounts_of(ls: Seq<Seq<char>>) -> Seq<MountV>
    decreases ls.len(),
{
    if ls.len() == 0 {
        seq![]
    } else {
        match mount_of(ls[0]) {
            Some(m) => seq![m] + mounts_of(ls.skip(1)),
            None => mounts_of(ls.skip(1)),
        }
    }
}

fn read_mount(l: &[char]) -> (r: Option<Mount>)
    ensures
        match r {
            Some(m) => mount_of(l@) == Some(m@),
            None => mount_of(l@) is None,
        },
{
    proof {
        assert(l@.skip(0) == l@);
    }
    let (a, b) = match find_word(l, 0) {
        None => {
            return None;
        },
        Some(w) => w,
    };
    let (c, d) = match find_word(l, b) {
        None => {
            return None;
        },
        Some(w) => w,
    };
    let (e, f) = match find_word(l, d) {
        None => {
            return None;
        },
        Some(w) => w,
    };
    let dev = slice_subrange(l, a, b);
    let ty = slice_subrange(l, e, f);
    let point = spaced(slice_subrange(l, c, d));
    let backed = !is_virtual(ty) && text::starts_with(dev, "/dev/");
    Some(Mount { point: point.as_str().as_bytes_vec(), fstype: text::string_of(ty), real: backed })
}

/// Reads the mount table.
pub fn read_mounts(txt: &str) -> (r: Vec<Mount>)
    ensures
        mount_views(r@) == mounts_of(text::lines(txt@)),
{
    let mut out: Vec<Mount> = Vec::new();
    let mut cur: Vec<char> = Vec::new();
    let ghost all = mounts_of(text::lines(txt@));
    proof {
        assert(txt@.skip(0) == txt@);
        assert(cur@ == Seq::<char>::empty());
        assert(mount_views(out@) + all == all);
    }
    for c in it: txt.chars()
        invariant
            it.seq() == txt@,
            all == mounts_of(text::lines(txt@)),
            mount_views(out@) + mounts_of(text::lines_from(txt@.skip(it.index() as int), cur@))
                == all,
    {
        let ghost rest = txt@.skip(it.index() as int);
        proof {
            assert(rest[0] == c);
            assert(rest.skip(1) == txt@.skip(it.index() as int + 1));
        }
        if c == '\n' {
            let ghost line = text::strip_cr(cur@);
            let ghost later = text::lines_from(rest.skip(1), seq![]);
            if cur.len() > 0 && cur[cur.len() - 1] == '\r' {
                let _ = cur.pop();
            }
            proof {
                assert(cur@ == line);
                assert((seq![line] + later).skip(1) == later);
                assert((seq![line] + later)[0] == line);
            }
            let ghost before = mount_views(out@);
            if let Some(m) = read_mount(cur.as_slice()) {
                let ghost v = m@;
                out.push(m);
                proof {
                    assert(mount_views(out@) == before.push(v));
                    assert(before + (seq![v] + mounts_of(later)) == before.push(v) + mounts_of(
                        later,
                    ));
                }
            }
            cur = Vec::new();
        } else {
            cur.push(c);
        }
    }
    proof {
        assert(txt@.skip(txt@.len() as int) == Seq::<char>::empty());
        assert(seq![cur@].skip(1) == Seq::<Seq<char>>::empty());
        assert(mounts_of(Seq::<Seq<char>>::empty()) == Seq::<MountV>::empty());
    }
    let ghost before = mount_views(out@);
    if cur.len() > 0 {
        if let Some(m) = read_mount(cur.as_slice()) {
            let ghost v = m@;
            out.push(m);
            proof {
                assert(mount_views(out@) == before.push(v));
                assert(before + (seq![v] + Seq::<MountV>::empty()) == before.push(v));
            }
        } else {
            proof {
                assert(before + Seq::<MountV>::empty() == before);
            }
        }
    } else {
        proof {
            assert(before + Seq::<MountV>::empty() == before);
        }
    }
    out
}

// ------------------------------------------------------------ the two sets

/// The points of the real mounts, or of the others, each path once.
pub open spec fn points(ms: Seq<MountV>, backed: bool) -> Seq<Seq<u8>>
    decreases ms.len(),
{
    if ms.len() == 0 {
        seq![]
    } else {
        let front = points(ms.drop_last(), backed);
        let m = ms.last();
        if m.real == backed && !paths::among(m.point, front) {
            front.push(m.point)
        } else {
            front
        }
    }
}

/// Splits mounts into the points that are always skipped and those of real
/// file systems.
pub fn mount_sets(mounts: Vec<Mount>) -> (r: (Vec<Vec<u8>>, Vec<Vec<u8>>))
    ensures
        paths::views(r.0@) == points(mount_views(mounts@), false),
        paths::views(r.1@) == points(mount_views(mounts@), true),
{
    let mut virtual_pts: Vec<Vec<u8>> = Vec::new();
    let mut real_pts: Vec<Vec<u8>> = Vec::new();
    let ghost ms = mount_views(mounts@);
    proof {
        assert(ms.take(0) == Seq::<MountV>::empty());
        assert(paths::views(virtual_pts@) == Seq::<Seq<u8>>::empty());
        assert(paths::views(real_pts@) == Seq::<Seq<u8>>::empty());
    }
    for i in 0..mounts.len()
        invariant
            ms == mount_views(mounts@),
            paths::views(virtual_pts@) == points(ms.take(i as int), false),
            paths::views(real_pts@) == points(ms.take(i as int), true),
    {
        let m = &mounts[i];
        proof {
            assert(ms.take(i + 1).drop_last() == ms.take(i as int));
            assert(ms.take(i + 1).last() == m@);
        }
        if m.real {
            if !paths::is_among(m.point.as_slice(), &real_pts) {
                let ghost before = paths::views(real_pts@);
                real_pts.push(slice_to_vec(m.point.as_slice()));
                proof {
                    assert(paths::views(real_pts@) == before.push(m.point@));
                }
            }
        } else {
            if !paths::is_among(m.point.as_slice(), &virtual_pts) {
                let ghost before = paths::views(virtual_pts@);
                virtual_pts.push(slice_to_vec(m.point.as_slice()));
                proof {
                    assert(paths::views(virtual_pts@) == before.push(m.point@));
                }
            }
        }
    }
    proof {
        assert(ms.take(ms.len() as int) == ms);
    }
    (virtual_pts, real_pts)
}

/// A path is in a set where some mount of its kind has it, and nowhere twice.
pub proof fn law_mount_sets(ms: Seq<MountV>, backed: bool)
    ensures
        forall|p: Seq<u8>|
            paths::among(p, points(ms, backed)) <==> exists|i: int|
                0 <= i < ms.len() && (#[trigger] ms[i]).real == backed && paths::same_path(
                    p,
                    ms[i].point,
                ),
        forall|i: int, j: int|
            0 <= i < j < points(ms, backed).len() ==> !paths::same_path(
                #[trigger] points(ms, backed)[i],
                #[trigger] points(ms, backed)[j],
            ),
    decreases ms.len(),
{
    if ms.len() > 0 {
        let front = ms.drop_last();
        let m = ms.last();
        let old_pts = points(front, backed);
        let pts = points(ms, backed);
        law_mount_sets(front, backed);
        assert forall|p: Seq<u8>| paths::among(p, pts) <==> exists|i: int|
            0 <= i < ms.len() && (#[trigger] ms[i]).real == backed && paths::same_path(
                p,
                ms[i].point,
            ) by {
            if paths::among(p, pts) {
                let k = choose|k: int| 0 <= k < pts.len() && paths::same_path(p, #[trigger] pts[k]);
                if k < old_pts.len() {
                    assert(pts[k] == old_pts[k]);
                    assert(paths::among(p, old_pts));
                    let i = choose|i: int|
                        0 <= i < front.len() && (#[trigger] front[i]).real == backed
                            && paths::same_path(p, front[i].point);
                    assert(ms[i] == front[i]);
                } else {
                    assert(ms[ms.len() - 1].real == backed);
                }
            }
            if exists|i: int|
                0 <= i < ms.len() && (#[trigger] ms[i]).real == backed && paths::same_path(
                    p,
                    ms[i].point,
                ) {
                let i = choose|i: int|
                    0 <= i < ms.len() && (#[trigger] ms[i]).real == backed && paths::same_path(
                        p,
                        ms[i].point,
                    );
                if i < front.len() {
                    assert(front[i] == ms[i]);
                    assert(paths::among(p, old_pts));
                    let k = choose|k: int|
                        0 <= k < old_pts.len() && paths::same_path(p, #[trigger] old_pts[k]);
                    assert(pts[k] == old_pts[k]);
                } else if paths::among(m.point, old_pts) {
                    let k = choose|k: int|
                        0 <= k < old_pts.len() && paths::same_path(m.point, #[trigger] old_pts[k]);
                    assert(pts[k] == old_pts[k]);
                } else {
                    assert(pts[old_pts.len() as int] == m.point);
                }
            }
        }
        assert forall|i: int, j: int| 0 <= i < j < pts.len() implies !paths::same_path(
            #[trigger] pts[i],
            #[trigger] pts[j],
        ) by {
            assert(pts[i] == old_pts[i]);
            if j < old_pts.len() {
                assert(pts[j] == old_pts[j]);
            } else {
                assert(pts[j] == m.point);
            }
        }
    }
}

} // verus!
