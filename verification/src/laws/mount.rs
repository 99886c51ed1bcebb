//! What the mount table says.

use vstd::prelude::*;

use crate::mounts;
use crate::mounts::MountV;
use crate::paths;
use crate::text;
use crate::walk;
use crate::walk::CfgV;
use crate::walk::EntryV;

verus! {

/// A run of characters of one kind goes on to the first of the other.
proof fn lemma_run(a: Seq<char>, b: Seq<char>, spaces: bool)
    requires
        forall|i: int| 0 <= i < a.len() ==> text::is_space(#[trigger] a[i]) == spaces,
        b.len() > 0 ==> text::is_space(b[0]) != spaces,
    ensures
        mounts::run(a + b, spaces) == a.len(),
    decreases a.len(),
{
    let s = a + b;
    if a.len() == 0 {
        assert(s =~= b);
    } else {
        assert(s[0] == a[0]);
        assert(s.skip(1) =~= a.skip(1) + b);
        assert forall|i: int| 0 <= i < a.skip(1).len() implies text::is_space(
            #[trigger] a.skip(1)[i],
        ) == spaces by {
            assert(a.skip(1)[i] == a[i + 1]);
        }
        lemma_run(a.skip(1), b, spaces);
    }
}

/// All white space.
spec fn blank(s: Seq<char>) -> bool {
    forall|i: int| 0 <= i < s.len() ==> text::is_space(#[trigger] s[i])
}

/// Some characters, none of them white space.
spec fn solid(s: Seq<char>) -> bool {
    s.len() > 0 && forall|i: int| 0 <= i < s.len() ==> !text::is_space(#[trigger] s[i])
}

/// Nothing, or what begins with white space.
spec fn apart(s: Seq<char>) -> bool {
    s.len() > 0 ==> text::is_space(s[0])
}

proof fn lemma_word(b: Seq<char>, w: Seq<char>, rest: Seq<char>)
    requires
        blank(b),
        solid(w),
        apart(rest),
    ensures
        mounts::word(b + w + rest) == Some((w, rest)),
{
    let s = b + w + rest;
    let t = w + rest;
    assert(s =~= b + t);
    assert(t[0] == w[0]);
    lemma_run(b, t, true);
    lemma_run(w, rest, false);
    assert(s.skip(b.len() as int) =~= t);
    assert(t.take(w.len() as int) =~= w);
    assert(t.skip(w.len() as int) =~= rest);
}

proof fn lemma_no_word(b: Seq<char>)
    requires
        blank(b),
    ensures
        mounts::word(b) is None,
{
    let none = Seq::<char>::empty();
    lemma_run(b, none, true);
    assert(b + none =~= b);
    assert(b.skip(b.len() as int).len() == 0);
}

/// A line of the table names a device, a mount point and the type of a file
/// system, with white space around each. It is a volume on a block device if
/// and only if the device begins with `/dev/` and the type is none of the
/// virtual ones, nor one of a network or of a user process.
pub proof fn law_mount_line(
    b0: Seq<char>,
    dev: Seq<char>,
    b1: Seq<char>,
    point: Seq<char>,
    b2: Seq<char>,
    ty: Seq<char>,
    rest: Seq<char>,
)
    requires
        forall|i: int| 0 <= i < b0.len() ==> text::is_space(#[trigger] b0[i]),
        dev.len() > 0,
        forall|i: int| 0 <= i < dev.len() ==> !text::is_space(#[trigger] dev[i]),
        b1.len() > 0,
        forall|i: int| 0 <= i < b1.len() ==> text::is_space(#[trigger] b1[i]),
        point.len() > 0,
        forall|i: int| 0 <= i < point.len() ==> !text::is_space(#[trigger] point[i]),
        b2.len() > 0,
        forall|i: int| 0 <= i < b2.len() ==> text::is_space(#[trigger] b2[i]),
        ty.len() > 0,
        forall|i: int| 0 <= i < ty.len() ==> !text::is_space(#[trigger] ty[i]),
        rest.len() > 0 ==> text::is_space(rest[0]),
    ensures
        mounts::mount_of(b0 + dev + b1 + point + b2 + ty + rest) matches Some(m) && {
            &&& m.point == vstd::utf8::encode_utf8(mounts::with_spaces(point))
            &&& m.fstype == ty
            &&& m.real <==> {
                &&& dev.len() >= 5 && dev.take(5) == seq!['/', 'd', 'e', 'v', '/']
                &&& !(ty.len() >= 4 && ty.take(4) == seq!['f', 'u', 's', 'e'])
                &&& !(ty.len() >= 3 && ty.take(3) == seq!['n', 'f', 's'])
                &&& !(ty.len() >= 4 && ty.take(4) == seq!['c', 'i', 'f', 's'])
                &&& ty != "9p"@ && ty != "smb3"@
                &&& ty != "proc"@ && ty != "sysfs"@ && ty != "devtmpfs"@ && ty != "devpts"@
                &&& ty != "tmpfs"@ && ty != "ramfs"@ && ty != "cgroup"@ && ty != "cgroup2"@
                &&& ty != "bpf"@ && ty != "securityfs"@ && ty != "debugfs"@ && ty != "tracefs"@
                &&& ty != "fusectl"@ && ty != "configfs"@ && ty != "mqueue"@
                &&& ty != "hugetlbfs"@ && ty != "pstore"@ && ty != "efivarfs"@
                &&& ty != "autofs"@ && ty != "binfmt_misc"@ && ty != "rpc_pipefs"@
                &&& ty != "overlay"@ && ty != "squashfs"@ && ty != "nsfs"@
                &&& ty != "selinuxfs"@
            }
        },
{
    let l2 = b2 + ty + rest;
    let l1 = b1 + point + l2;
    let l0 = b0 + dev + l1;
    assert(b0 + dev + b1 + point + b2 + ty + rest =~= l0);
    assert(l2[0] == b2[0]);
    assert(l1[0] == b1[0]);
    lemma_word(b0, dev, l1);
    lemma_word(b1, point, l2);
    lemma_word(b2, ty, rest);
    reveal_strlit("/dev/");
    reveal_strlit("fuse");
    reveal_strlit("nfs");
    reveal_strlit("cifs");
    assert("/dev/"@ =~= seq!['/', 'd', 'e', 'v', '/']);
    assert("fuse"@ =~= seq!['f', 'u', 's', 'e']);
    assert("nfs"@ =~= seq!['n', 'f', 's']);
    assert("cifs"@ =~= seq!['c', 'i', 'f', 's']);
}

/// A line of fewer than three words names no mount.
pub proof fn law_short_line(
    b0: Seq<char>,
    dev: Seq<char>,
    b1: Seq<char>,
    point: Seq<char>,
    b2: Seq<char>,
)
    requires
        forall|i: int| 0 <= i < b0.len() ==> text::is_space(#[trigger] b0[i]),
        dev.len() > 0,
        forall|i: int| 0 <= i < dev.len() ==> !text::is_space(#[trigger] dev[i]),
        forall|i: int| 0 <= i < b1.len() ==> text::is_space(#[trigger] b1[i]),
        point.len() > 0,
        forall|i: int| 0 <= i < point.len() ==> !text::is_space(#[trigger] point[i]),
        forall|i: int| 0 <= i < b2.len() ==> text::is_space(#[trigger] b2[i]),
    ensures
        mounts::mount_of(b0) is None,
        mounts::mount_of(b0 + dev + b1) is None,
        b1.len() > 0 ==> mounts::mount_of(b0 + dev + b1 + point + b2) is None,
{
    lemma_no_word(b0);
    lemma_no_word(b1);
    lemma_no_word(b2);
    lemma_word(b0, dev, b1);
    lemma_word(b1, point, b2);
    if b1.len() > 0 {
        let l1 = b1 + point + b2;
        assert(b0 + dev + b1 + point + b2 =~= b0 + dev + l1);
        assert(l1[0] == b1[0]);
        lemma_word(b0, dev, l1);
    }
}

/// The table is read line by line, and what a line names is in it once, in
/// order, however long the table is.
pub proof fn law_mount_table(a: Seq<Seq<char>>, b: Seq<Seq<char>>, l: Seq<char>)
    ensures
        mounts::mounts_of(a + b) == mounts::mounts_of(a) + mounts::mounts_of(b),
        mounts::mounts_of(seq![l]) == match mounts::mount_of(l) {
            Some(m) => seq![m],
            None => seq![],
        },
        mounts::mounts_of(Seq::<Seq<char>>::empty()).len() == 0,
    decreases a.len(),
{
    let none = Seq::<MountV>::empty();
    assert(seq![l].skip(1) =~= Seq::<Seq<char>>::empty());
    assert(mounts::mounts_of(seq![l].skip(1)) == none);
    if let Some(m) = mounts::mount_of(l) {
        assert(seq![m] + none =~= seq![m]);
    }
    if a.len() == 0 {
        assert(a + b =~= b);
        assert(none + mounts::mounts_of(b) =~= mounts::mounts_of(b));
    } else {
        assert((a + b).skip(1) =~= a.skip(1) + b);
        law_mount_table(a.skip(1), b, l);
        if let Some(m) = mounts::mount_of(a[0]) {
            let x = mounts::mounts_of(a.skip(1));
            let y = mounts::mounts_of(b);
            assert(seq![m] + (x + y) =~= (seq![m] + x) + y);
        }
    }
}

/// A mount that a line names is in the table.
pub proof fn law_mount_is_read(ls: Seq<Seq<char>>, i: int)
    requires
        0 <= i < ls.len(),
        mounts::mount_of(ls[i]) is Some,
    ensures
        mounts::mounts_of(ls).contains(mounts::mount_of(ls[i])->0),
{
    let a = ls.take(i);
    let b = ls.skip(i + 1);
    assert(ls =~= a + (seq![ls[i]] + b));
    law_mount_table(a, seq![ls[i]] + b, ls[i]);
    law_mount_table(seq![ls[i]], b, ls[i]);
    let n = mounts::mounts_of(a).len() as int;
    assert(mounts::mounts_of(ls)[n] == mounts::mount_of(ls[i])->0);
}

/// A space in a mount point is written as `\040`; all else is as it is.
pub proof fn law_spaces(a: Seq<char>, b: Seq<char>)
    ensures
        mounts::with_spaces(a + seq!['\\', '0', '4', '0'] + b) == mounts::with_spaces(a).push(' ')
            + mounts::with_spaces(b),
    decreases a.len(),
{
    let o = seq!['\\', '0', '4', '0'];
    let s = a + o + b;
    if a.len() == 0 {
        assert(s =~= o + b);
        assert(s.take(4) =~= mounts::octal_space());
        assert(s.skip(4) =~= b);
        assert(mounts::with_spaces(a).push(' ') =~= seq![' ']);
    } else if text::has_prefix(a, mounts::octal_space()) {
        assert(s.take(4) =~= a.take(4));
        assert(s.skip(4) =~= a.skip(4) + o + b);
        law_spaces(a.skip(4), b);
        let x = mounts::with_spaces(a.skip(4));
        let y = mounts::with_spaces(b);
        assert(seq![' '] + (x.push(' ') + y) =~= (seq![' '] + x).push(' ') + y);
    } else {
        let p = mounts::octal_space();
        if text::has_prefix(s, p) {
            let q = s.take(4);
            assert(q[0] == s[0] && q[1] == s[1] && q[2] == s[2] && q[3] == s[3]);
            if a.len() < 4 {
                assert(s[a.len() as int] == o[0]);
            } else {
                assert(a.take(4) =~= q);
            }
            assert(false);
        }
        assert(s[0] == a[0]);
        assert(s.skip(1) =~= a.skip(1) + o + b);
        law_spaces(a.skip(1), b);
        let x = mounts::with_spaces(a.skip(1));
        let y = mounts::with_spaces(b);
        assert(seq![a[0]] + (x.push(' ') + y) =~= (seq![a[0]] + x).push(' ') + y);
    }
}

/// Where `\040` does not stand, nothing changes.
pub proof fn law_no_spaces(s: Seq<char>)
    requires
        forall|i: int|
            0 <= i && i + 4 <= s.len() && #[trigger] s[i] == '\\' ==> !(s[i + 1] == '0' && s[i + 2]
                == '4' && s[i + 3] == '0'),
    ensures
        mounts::with_spaces(s) == s,
    decreases s.len(),
{
    if s.len() > 0 {
        if s.len() >= 4 {
            let q = s.take(4);
            assert(q[0] == s[0] && q[1] == s[1] && q[2] == s[2] && q[3] == s[3]);
            assert(s[0] == '\\' ==> !(s[1] == '0' && s[2] == '4' && s[3] == '0'));
        }
        let r = s.skip(1);
        assert forall|i: int| 0 <= i && i + 4 <= r.len() && #[trigger] r[i] == '\\' implies !(r[i
            + 1] == '0' && r[i + 2] == '4' && r[i + 3] == '0') by {
            assert(r[i] == s[i + 1]);
        }
        law_no_spaces(r);
        assert(seq![s[0]] + r =~= s);
    }
}

/// A path is among others where it is the same as one of them.
pub proof fn law_among(p: Seq<u8>, ps: Seq<Seq<u8>>)
    ensures
        paths::among(p, ps) <==> exists|i: int|
            0 <= i < ps.len() && paths::same_path(p, #[trigger] ps[i]),
{
}

/// Which types of file systems are virtual, or of a network or a user process.
pub proof fn law_virtual_type(ty: Seq<char>)
    ensures
        mounts::virtual_fs(ty) <==> {
            ||| ty.len() >= 4 && ty.take(4) == seq!['f', 'u', 's', 'e']
            ||| ty.len() >= 3 && ty.take(3) == seq!['n', 'f', 's']
            ||| ty.len() >= 4 && ty.take(4) == seq!['c', 'i', 'f', 's']
            ||| ty == "9p"@ || ty == "smb3"@
            ||| ty == "proc"@ || ty == "sysfs"@ || ty == "devtmpfs"@ || ty == "devpts"@
            ||| ty == "tmpfs"@ || ty == "ramfs"@ || ty == "cgroup"@ || ty == "cgroup2"@
            ||| ty == "bpf"@ || ty == "securityfs"@ || ty == "debugfs"@ || ty == "tracefs"@
            ||| ty == "fusectl"@ || ty == "configfs"@ || ty == "mqueue"@
            ||| ty == "hugetlbfs"@ || ty == "pstore"@ || ty == "efivarfs"@
            ||| ty == "autofs"@ || ty == "binfmt_misc"@ || ty == "rpc_pipefs"@
            ||| ty == "overlay"@ || ty == "squashfs"@ || ty == "nsfs"@
            ||| ty == "selinuxfs"@
        },
{
    reveal_strlit("fuse");
    reveal_strlit("nfs");
    reveal_strlit("cifs");
    assert("fuse"@ =~= seq!['f', 'u', 's', 'e']);
    assert("nfs"@ =~= seq!['n', 'f', 's']);
    assert("cifs"@ =~= seq!['c', 'i', 'f', 's']);
}

/// A directory where something is mounted is left out of a scan if and only if
/// what is mounted there is no volume, or another volume than the target while
/// the scan does not cross volumes.
pub proof fn law_mounted(ms: Seq<MountV>, target: Seq<u8>, cross_real: bool, e: EntryV)
    requires
        e.kind is Dir,
    ensures
        ({
            let cfg = CfgV {
                target,
                virtual_pts: mounts::points(ms, false),
                real_pts: mounts::points(ms, true),
                cross_real,
            };
            let skipped = {
                ||| exists|i: int|
                    0 <= i < ms.len() && !(#[trigger] ms[i]).real && paths::same_path(
                        e.path,
                        ms[i].point,
                    )
                ||| {
                    &&& !cross_real
                    &&& !paths::same_path(e.path, target)
                    &&& exists|i: int|
                        0 <= i < ms.len() && (#[trigger] ms[i]).real && paths::same_path(
                            e.path,
                            ms[i].point,
                        )
                }
            };
            forall|seen: Set<(u64, u64)>|
                if skipped {
                    #[trigger] walk::verdict(cfg, e, seen) is Skip
                } else {
                    walk::verdict(cfg, e, seen) is Descend
                }
        }),
{
    mounts::law_mount_sets(ms, false);
    mounts::law_mount_sets(ms, true);
    let virt = mounts::points(ms, false);
    let volumes = mounts::points(ms, true);
    if exists|i: int|
        0 <= i < ms.len() && !(#[trigger] ms[i]).real && paths::same_path(e.path, ms[i].point) {
        let i = choose|i: int|
            0 <= i < ms.len() && !(#[trigger] ms[i]).real && paths::same_path(
                e.path,
                ms[i].point,
            );
        assert(ms[i].real == false);
        assert(paths::among(e.path, virt));
    }
    if paths::among(e.path, virt) {
        let i = choose|i: int|
            0 <= i < ms.len() && (#[trigger] ms[i]).real == false && paths::same_path(
                e.path,
                ms[i].point,
            );
        assert(!ms[i].real);
    }
    if exists|i: int|
        0 <= i < ms.len() && (#[trigger] ms[i]).real && paths::same_path(e.path, ms[i].point) {
        let i = choose|i: int|
            0 <= i < ms.len() && (#[trigger] ms[i]).real && paths::same_path(e.path, ms[i].point);
        assert(ms[i].real == true);
        assert(paths::among(e.path, volumes));
    }
    if paths::among(e.path, volumes) {
        let i = choose|i: int|
            0 <= i < ms.len() && (#[trigger] ms[i]).real == true && paths::same_path(
                e.path,
                ms[i].point,
            );
        assert(ms[i].real);
    }
}

} // verus!
