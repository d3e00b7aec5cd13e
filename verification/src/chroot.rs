//! The mounts that make a snapshot usable as a chroot.
//!
//! The snapshot is bind-mounted onto itself, then the host's `/dev`, `/etc`,
//! `/home`, `/proc`, `/root`, `/run`, `/sys`, `/tmp` and `/var` are mounted
//! into it, the EFI variables on EFI systems, and `/etc/resolv.conf` last.
//! Unmounting goes in the reverse order.
use vstd::prelude::*;
use crate::error::around;

verus! {

/// How a directory is mounted.
#[derive(PartialEq, Eq, Structural, Debug, Clone, Copy)]
pub enum MountKind {
    /// A bind mount that does not propagate back (`MS_BIND | MS_SLAVE`).
    Bind,
    /// A recursive bind mount that does not propagate back
    /// (`MS_BIND | MS_REC | MS_SLAVE`).
    RecursiveBind,
    /// A fresh mount without set-user-id, executables or devices
    /// (`MS_NOSUID | MS_NOEXEC | MS_NODEV`).
    Restricted,
}

/// One mount: what is mounted where, with which file system type.
#[derive(Debug)]
pub struct ChrootMount {
    pub source: String,
    pub target: String,
    pub fstype: String,
    pub kind: MountKind,
}

/// The host directories mounted into a chroot, with their file system types
/// and kinds, in mounting order, before the EFI variables.
pub open spec fn host_mounts() -> Seq<(Seq<char>, Seq<char>, MountKind)> {
    seq![
        ("/dev"@, "btrfs"@, MountKind::Bind),
        ("/etc"@, "btrfs"@, MountKind::Bind),
        ("/home"@, "btrfs"@, MountKind::Bind),
        ("/proc"@, "proc"@, MountKind::Restricted),
        ("/root"@, "btrfs"@, MountKind::Bind),
        ("/run"@, "tmpfs"@, MountKind::RecursiveBind),
        ("/sys"@, "sysfs"@, MountKind::Bind),
        ("/tmp"@, "tmpfs"@, MountKind::RecursiveBind),
        ("/var"@, "btrfs"@, MountKind::Bind),
    ]
}

/// The mounts of a chroot at `root`, in order: `root` onto itself, the
/// host directories, the EFI variables when `efi`, and the resolver
/// configuration.
pub open spec fn chroot_mount_list(root: Seq<char>, efi: bool) -> Seq<(Seq<char>, Seq<char>, Seq<char>, MountKind)> {
    let hosts = host_mounts().map_values(|m: (Seq<char>, Seq<char>, MountKind)| (m.0, root + m.0, m.1, m.2));
    let efivars = if efi {
        seq![("/sys/firmware/efi/efivars"@, root + "/sys/firmware/efi/efivars"@, "efivarfs"@, MountKind::RecursiveBind)]
    } else {
        Seq::empty()
    };
    seq![(root, root, "btrfs"@, MountKind::Bind)] + hosts + efivars + seq![
        ("/etc/resolv.conf"@, root + "/etc/resolv.conf"@, "btrfs"@, MountKind::Bind),
    ]
}

/// The view of a mount.
pub open spec fn mount_view(m: ChrootMount) -> (Seq<char>, Seq<char>, Seq<char>, MountKind) {
    (m.source@, m.target@, m.fstype@, m.kind)
}

fn text(s: &str) -> (r: String)
    ensures
        r@ == s@,
{
    let v = crate::text::chars_of(s);
    crate::text::string_of(v.as_slice())
}

fn host(root: &str, dir: &str, fstype: &str, kind: MountKind) -> (m: ChrootMount)
    ensures
        mount_view(m) == (dir@, root@ + dir@, fstype@, kind),
{
    proof { reveal_strlit(""); }
    ChrootMount { source: text(dir), target: around(root, dir, ""), fstype: text(fstype), kind }
}

/// The root of the chroot of snapshot `i`; `chr` is `chr` for a chroot copy.
pub fn chroot_root(i: &str, chr: &str) -> (r: String)
    ensures
        r@ == "/.snapshots/rootfs/snapshot-"@ + chr@ + i@,
{
    let a = around("/.snapshots/rootfs/snapshot-", chr, "");
    proof { reveal_strlit(""); }
    around(a.as_str(), i, "")
}

/// The mounts of a chroot at `root`, in mounting order.
pub fn chroot_mounts(root: &str, efi: bool) -> (r: Vec<ChrootMount>)
    ensures
        r@.map_values(|m: ChrootMount| mount_view(m)) == chroot_mount_list(root@, efi),
{
    let mut r: Vec<ChrootMount> = Vec::new();
    r.push(ChrootMount { source: text(root), target: text(root), fstype: text("btrfs"), kind: MountKind::Bind });
    r.push(host(root, "/dev", "btrfs", MountKind::Bind));
    r.push(host(root, "/etc", "btrfs", MountKind::Bind));
    r.push(host(root, "/home", "btrfs", MountKind::Bind));
    r.push(host(root, "/proc", "proc", MountKind::Restricted));
    r.push(host(root, "/root", "btrfs", MountKind::Bind));
    r.push(host(root, "/run", "tmpfs", MountKind::RecursiveBind));
    r.push(host(root, "/sys", "sysfs", MountKind::Bind));
    r.push(host(root, "/tmp", "tmpfs", MountKind::RecursiveBind));
    r.push(host(root, "/var", "btrfs", MountKind::Bind));
    if efi {
        r.push(host(root, "/sys/firmware/efi/efivars", "efivarfs", MountKind::RecursiveBind));
    }
    r.push(host(root, "/etc/resolv.conf", "btrfs", MountKind::Bind));
    assert(r@.map_values(|m: ChrootMount| mount_view(m)) =~= chroot_mount_list(root@, efi));
    r
}


/// Whether the mount of `source` is detached lazily when unmounted: all but
/// the resolver configuration, the EFI variables and `/var`.
pub open spec fn detached(source: Seq<char>) -> bool {
    source != "/etc/resolv.conf"@ && source != "/sys/firmware/efi/efivars"@ && source != "/var"@
}

/// What unmounting a chroot at `root` does, in order: the mounts in the
/// reverse of their mounting order, each target with whether it is detached.
pub open spec fn chroot_umount_list(root: Seq<char>, efi: bool) -> Seq<(Seq<char>, bool)> {
    chroot_mount_list(root, efi).reverse().map_values(
        |m: (Seq<char>, Seq<char>, Seq<char>, MountKind)| (m.1, detached(m.0)),
    )
}

/// The unmounts of a chroot at `root`, in order.
pub fn chroot_umounts(root: &str, efi: bool) -> (r: Vec<(String, bool)>)
    ensures
        r@.map_values(|u: (String, bool)| (u.0@, u.1)) == chroot_umount_list(root@, efi),
{
    let mounts = chroot_mounts(root, efi);
    let ghost ms = mounts@.map_values(|m: ChrootMount| mount_view(m));
    let ghost target = chroot_umount_list(root@, efi);
    let resolv = crate::text::chars_of("/etc/resolv.conf");
    let efivars = crate::text::chars_of("/sys/firmware/efi/efivars");
    let var = crate::text::chars_of("/var");
    let mut r: Vec<(String, bool)> = Vec::new();
    let mut k = mounts.len();
    while k > 0
        invariant
            k <= mounts@.len(),
            ms == mounts@.map_values(|m: ChrootMount| mount_view(m)),
            ms == chroot_mount_list(root@, efi),
            target == chroot_umount_list(root@, efi),
            resolv@ == "/etc/resolv.conf"@,
            efivars@ == "/sys/firmware/efi/efivars"@,
            var@ == "/var"@,
            r@.len() == mounts@.len() - k,
            forall|j: int| 0 <= j < r@.len() ==> #[trigger] r@[j].0@ == target[j].0 && r@[j].1 == target[j].1,
        decreases k,
    {
        let m = &mounts[k - 1];
        let src = crate::text::chars_of(m.source.as_str());
        let keep = crate::config::vec_eq(&src, &resolv) || crate::config::vec_eq(&src, &efivars)
            || crate::config::vec_eq(&src, &var);
        let ghost before = r@;
        r.push((text(m.target.as_str()), !keep));
        proof {
            assert(ms[k - 1] == mount_view(mounts@[k - 1]));
            assert(target[before.len() as int] == (ms[k - 1].1, detached(ms[k - 1].0)));
            assert forall|j: int| 0 <= j < r@.len() implies #[trigger] r@[j].0@ == target[j].0 && r@[j].1 == target[j].1 by {
                if j < before.len() {
                    assert(r@[j] == before[j]);
                }
            }
        }
        k = k - 1;
    }
    assert(r@.map_values(|u: (String, bool)| (u.0@, u.1)) =~= target);
    r
}

} // verus!
