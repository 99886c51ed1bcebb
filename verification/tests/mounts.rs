use disksun::mounts::{is_virtual_fs, mount_sets, read_mounts};

const TABLE: &str = "/dev/nvme0n1p2 / ext4 rw,relatime 0 0\n\
proc /proc proc rw 0 0\n\
\n\
short line\n\
tmpfs /run tmpfs rw 0 0\n\
/dev/sda1 /mnt/My\\040Disk\\040 vfat rw 0 0\r\n\
  host:/x\t/net   nfs4 rw\n\
/dev/fuse /run/user/doc fuse.portal rw 0 0\n\
tank /tank zfs rw 0 0\n";

#[test]
fn pseudo_and_network_file_systems_are_virtual() {
    for t in [
        "proc", "sysfs", "devtmpfs", "devpts", "tmpfs", "ramfs", "cgroup", "cgroup2", "bpf",
        "securityfs", "debugfs", "tracefs", "fusectl", "configfs", "mqueue", "hugetlbfs", "pstore",
        "efivarfs", "autofs", "binfmt_misc", "rpc_pipefs", "overlay", "squashfs", "nsfs",
        "selinuxfs", "fuse", "fuse.sshfs", "fuseblk", "nfs", "nfs4", "nfsd", "cifs", "cifsx", "9p",
        "smb3",
    ] {
        assert!(is_virtual_fs(t), "{t}");
    }
    for t in ["", "ext4", "btrfs", "xfs", "vfat", "zfs", "9pfs", "smb3x", "proc2", "tmp", "fus"] {
        assert!(!is_virtual_fs(t), "{t}");
    }
}

#[test]
fn the_mount_table_is_read_line_by_line() {
    let ms = read_mounts(TABLE);
    let got: Vec<(String, String, bool)> = ms
        .iter()
        .map(|m| (String::from_utf8(m.point.clone()).unwrap(), m.fstype.clone(), m.real))
        .collect();
    let want = [
        ("/", "ext4", true),
        ("/proc", "proc", false),
        ("/run", "tmpfs", false),
        ("/mnt/My Disk ", "vfat", true),
        ("/net", "nfs4", false),
        ("/run/user/doc", "fuse.portal", false),
        ("/tank", "zfs", false),
    ];
    assert_eq!(got.len(), want.len());
    for (g, w) in got.iter().zip(want) {
        assert_eq!((g.0.as_str(), g.1.as_str(), g.2), w);
    }
    assert!(read_mounts("").is_empty());
}

#[test]
fn mount_points_part_into_virtual_and_real() {
    let (virt, real) = mount_sets(read_mounts(TABLE));
    let text = |v: Vec<Vec<u8>>| -> Vec<String> {
        v.into_iter().map(|p| String::from_utf8(p).unwrap()).collect()
    };
    assert_eq!(text(real), vec!["/", "/mnt/My Disk "]);
    assert_eq!(text(virt), vec!["/proc", "/run", "/net", "/run/user/doc", "/tank"]);
}
