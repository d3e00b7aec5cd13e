use ash::boot::{
    boot_commands, boot_tmp, fstab_make_writable, grub_entry, mark_last_booted, mutable_dir_fstab,
    recovery_cfg, snap_number, switch_entry, switch_fstab, switch_grub_cfg,
};

const FSTAB: &str = "UUID=1 / btrfs subvol=@.snapshots_arch/rootfs/snapshot-deploy,compress=zstd,noatime,ro 0 0\nUUID=1 /boot btrfs subvol=@boot_arch,ro 0 0\n";

const GRUB: &str = "set default=0\n### BEGIN /etc/grub.d/10_linux ###\nmenuentry 'Arch Linux snapshot 4' {\n\tlinux /@.snapshots_arch/rootfs/snapshot-deploy/boot/vmlinuz\n}\nmenuentry 'other' {\n}\n### END /etc/grub.d/10_linux ###";

#[test]
fn mutable_snapshot_mounts_root_read_write() {
    let r = fstab_make_writable(FSTAB, "deploy");
    assert_eq!(r, "UUID=1 / btrfs subvol=@.snapshots_arch/rootfs/snapshot-deploy,compress=zstd,noatime 0 0\nUUID=1 /boot btrfs subvol=@boot_arch,ro 0 0\n");
    assert_eq!(fstab_make_writable(FSTAB, "deploy-aux"), FSTAB);
}

#[test]
fn mutable_directories_become_bind_mounts() {
    let dirs = vec!["var/lib/docker".to_string(), "opt".to_string()];
    assert_eq!(
        mutable_dir_fstab("5", &dirs, false),
        "/.snapshots/mutable_dirs/snapshot-5/var/lib/docker /var/lib/docker none defaults,bind 0 0\n/.snapshots/mutable_dirs/snapshot-5/opt /opt none defaults,bind 0 0\n"
    );
    assert_eq!(
        mutable_dir_fstab("5", &vec!["srv".to_string()], true),
        "/.snapshots/mutable_dirs/srv /srv none defaults,bind 0 0\n"
    );
    assert_eq!(mutable_dir_fstab("5", &vec![], true), "");
}

#[test]
fn switching_slots_rewrites_paths() {
    let fstab = "a @.snapshots_arch/boot/boot-deploy b @.snapshots_arch/etc/etc-deploy c @.snapshots_arch/rootfs/snapshot-deploy";
    assert_eq!(
        switch_fstab(fstab, "_arch", "deploy", "deploy-aux"),
        "a @.snapshots_arch/boot/boot-deploy-aux b @.snapshots_arch/etc/etc-deploy-aux c @.snapshots_arch/rootfs/snapshot-deploy-aux"
    );
    assert_eq!(
        switch_grub_cfg("root=@.snapshots_arch/rootfs/snapshot-deploy-aux x", "_arch", "deploy-aux", "deploy"),
        "root=@.snapshots_arch/rootfs/snapshot-deploy x"
    );
}

#[test]
fn snap_file_number() {
    assert_eq!(snap_number(" 12 \n"), "12");
    assert_eq!(snap_number("3"), "3");
}

#[test]
fn first_linux_entry_is_extracted() {
    assert_eq!(
        grub_entry(GRUB),
        "\nmenuentry 'Arch Linux snapshot 4' {\n\tlinux /@.snapshots_arch/rootfs/snapshot-deploy/boot/vmlinuz}\n### END /etc/grub.d/41_custom ###"
    );
    assert_eq!(grub_entry("no marker here\n}"), "");
}

#[test]
fn recovery_entry_is_moved_and_renamed() {
    let g = grub_entry(GRUB);
    let s = switch_entry(&g);
    assert!(s.contains("snapshot-deploy-aux/boot"));
    let named = mark_last_booted(&s, "Arch Linux", "4");
    assert_eq!(
        named,
        "\nmenuentry 'Arch Linux last booted deployment (snapshot 4)  {\n\tlinux /@.snapshots_arch/rootfs/snapshot-deploy-aux/boot/vmlinuz}\n### END /etc/grub.d/41_custom ###"
    );
    assert_eq!(switch_entry("x snapshot-deploy-aux y"), "x snapshot-deploy y");
    assert_eq!(mark_last_booted("no name", "Arch", "1"), "no name");
}

#[test]
fn recovery_entry_replaces_the_last_line() {
    assert_eq!(recovery_cfg("a\nb\nc\n", "ENTRY"), "a\nb\n\nENTRY");
    assert_eq!(recovery_cfg("only", "E"), "\n\nE");
}

#[test]
fn boot_update_slot() {
    assert_eq!(boot_tmp("deploy", false), "deploy");
    assert_eq!(boot_tmp("deploy", true), "deploy-secondary");
    assert_eq!(boot_tmp("deploy-aux-secondary", true), "deploy-aux");
}

#[test]
fn boot_update_commands() {
    let c = boot_commands("/dev/sda2", "grub", "5", "deploy-aux", "Arch Linux");
    assert_eq!(c[0], "grub-mkconfig /dev/sda2 -o /boot/grub/grub.cfg");
    assert_eq!(c[1], "sed -i 's|snapshot-chr5|snapshot-deploy-aux|g' /boot/grub/grub.cfg");
    assert_eq!(c[2], "sed -i '0,\\|Arch Linux| s||Arch Linux snapshot 5|' /boot/grub/grub.cfg");
}

#[test]
fn recovery_file_for_the_last_booted_deployment() {
    let cfg = "### BEGIN /etc/grub.d/10_linux ###\nmenuentry 'Arch snapshot 2' {\n}\nlast line";
    assert!(ash::boot::can_write_recovery(cfg, "Arch"));
    assert_eq!(
        ash::boot::recovery_grub(cfg, "Arch", "2"),
        "### BEGIN /etc/grub.d/10_linux ###\nmenuentry 'Arch snapshot 2' {\n}\n\n\nmenuentry 'Arch last booted deployment (snapshot 2)  {}\n### END /etc/grub.d/41_custom ###"
    );
    assert!(!ash::boot::can_write_recovery("### BEGIN /etc/grub.d/10_linux ###\nmenuentry 'Arch' {\n}", "Arch"));
    assert!(!ash::boot::can_write_recovery("", "Arch"));
}

#[test]
fn deployed_mount_table() {
    let fstab = "UUID=1 / btrfs subvol=@.snapshots/rootfs/snapshot-deploy-aux,ro 0 0\n";
    let dirs = vec!["opt".to_string()];
    let shared = vec!["srv".to_string()];
    assert_eq!(
        ash::boot::deployed_fstab(fstab, "4", "deploy-aux", true, &dirs, &shared),
        "UUID=1 / btrfs subvol=@.snapshots/rootfs/snapshot-deploy-aux 0 0\n/.snapshots/mutable_dirs/snapshot-4/opt /opt none defaults,bind 0 0\n/.snapshots/mutable_dirs/srv /srv none defaults,bind 0 0\n"
    );
    assert_eq!(ash::boot::deployed_fstab(fstab, "4", "deploy-aux", false, &vec![], &vec![]), fstab);
}
