use ash::recovery::{menu_entry, recovery_entry, recovery_mode_cfg, recovery_mode_possible, strip_recovery, title_found};

const SLOT: &str = "### BEGIN /etc/grub.d/10_linux ###\nfunction x {\n}\nmenuentry 'AshOS Linux' --class ashos {\n\tlinux /@.snapshots_linux/rootfs/snapshot-deploy/boot/vmlinuz\n}\n";

#[test]
fn first_menu_entry_after_the_marker() {
    assert_eq!(
        menu_entry(SLOT),
        "\nmenuentry 'AshOS Linux' --class ashos {\n\tlinux /@.snapshots_linux/rootfs/snapshot-deploy/boot/vmlinuz}\n### END /etc/grub.d/41_custom ###"
    );
    assert_eq!(menu_entry("no marker"), "");
}

#[test]
fn old_recovery_entry_is_dropped() {
    let cfg = "a\nmenuentry 'Recovery Mode' {\nlinux x\n}\nb\n### END /etc/grub.d/41_custom ###";
    assert_eq!(strip_recovery(cfg), "\na\nb\n");
    // Lines before the entry keep their characters, lines after it are kept.
    let cfg = "}\nx\nmenuentry 'Recovery Mode' {\nx\n}\nc\nmenuentry 'Recovery Mode' {";
    assert_eq!(strip_recovery(cfg), "\n}\nx\nc\nmenuentry 'Recovery Mode' {");
    assert_eq!(strip_recovery("x\n### END /etc/grub.d/41_custom ###\ny"), "\nx\n\ny");
}

#[test]
fn entry_becomes_the_recovery_entry() {
    let g = menu_entry(SLOT);
    assert!(title_found(&g));
    assert_eq!(
        recovery_entry(&g, "deploy", "deploy-aux"),
        "\nmenuentry 'Recovery Mode' --class ashos {\n\tlinux /@.snapshots_linux/rootfs/snapshot-deploy-aux/boot/vmlinuz}\n### END /etc/grub.d/41_custom ###"
    );
    assert!(!title_found("no quotes"));
    assert!(!title_found(""));
}

#[test]
fn recovery_configuration() {
    assert!(recovery_mode_possible(SLOT));
    let r = recovery_mode_cfg("top\n### END /etc/grub.d/41_custom ###", SLOT, "deploy", "deploy-aux");
    assert_eq!(
        r,
        "\ntop\n\nmenuentry 'Recovery Mode' --class ashos {\n\tlinux /@.snapshots_linux/rootfs/snapshot-deploy-aux/boot/vmlinuz}\n### END /etc/grub.d/41_custom ###"
    );
}
