use ash::config::{aur_check, comment_after_hash, mutable_dirs, snapshot_config_get};
use ash::deploy::{
    check_update, chroot_check, deploy_check, find_new, get_aux_tmp, get_current_snapshot, get_distro_suffix,
    get_next_snapshot, get_tmp, live_unlock, rollback, upstate_text,
};

const MOUNTS_AUX: &str = "/dev/sda2 / btrfs rw,relatime,subvol=/@.snapshots_arch/rootfs/snapshot-deploy-aux 0 0\n/dev/sda2 /.snapshots btrfs rw 0 0\n";

#[test]
fn aux_tmp_swaps_deploy_and_deploy_aux() {
    assert_eq!(get_aux_tmp("deploy".to_string(), false), "deploy-aux");
    assert_eq!(get_aux_tmp("deploy-aux".to_string(), false), "deploy");
    assert_eq!(get_aux_tmp("deploy-secondary".to_string(), false), "deploy-aux-secondary");
    assert_eq!(get_aux_tmp("deploy-aux-secondary".to_string(), false), "deploy-secondary");
}

#[test]
fn aux_tmp_with_secondary_swaps_the_variant() {
    assert_eq!(get_aux_tmp("deploy".to_string(), true), "deploy-secondary");
    assert_eq!(get_aux_tmp("deploy-secondary".to_string(), true), "deploy");
    assert_eq!(get_aux_tmp("deploy-aux".to_string(), true), "deploy-aux-secondary");
    assert_eq!(get_aux_tmp("deploy-aux-secondary".to_string(), true), "deploy-aux");
}

#[test]
fn running_slot_from_mount_table() {
    assert_eq!(get_tmp(MOUNTS_AUX), "deploy-aux");
    assert_eq!(get_tmp("/dev/sda2 / btrfs rw,subvol=/@.snapshots/rootfs/snapshot-deploy 0 0\n"), "deploy");
    assert_eq!(get_tmp("/dev/sda2 / btrfs subvol=snapshot-deploy-aux-secondary 0 0\n"), "deploy-aux-secondary");
    assert_eq!(get_tmp("/dev/sda2 / btrfs subvol=snapshot-deploy-secondary 0 0\n"), "deploy-secondary");
    // Only root mounts count.
    assert_eq!(get_tmp("/dev/sda2 /home btrfs subvol=snapshot-deploy-aux 0 0\n"), "deploy");
}

#[test]
fn chroot_detection() {
    assert!(!chroot_check(MOUNTS_AUX));
    assert!(chroot_check("/dev/sda2 / btrfs rw 0 0\n"));
}

#[test]
fn distro_suffix() {
    assert_eq!(get_distro_suffix("arch_ashos"), Some("_arch".to_string()));
    assert_eq!(get_distro_suffix("ashos"), Some("_ashos".to_string()));
    assert_eq!(get_distro_suffix("arch"), None);
}

#[test]
fn current_and_next_snapshot() {
    assert_eq!(get_current_snapshot("12\n"), "12");
    assert_eq!(get_next_snapshot(Some("  7 \n")), "7");
    assert_eq!(get_next_snapshot(None), "");
}

#[test]
fn find_new_takes_the_smallest_free_number() {
    let existing = vec![
        "/.snapshots/rootfs/snapshot-0".to_string(),
        "/.snapshots/rootfs/snapshot-1".to_string(),
        "/.snapshots/etc/etc-2".to_string(),
        "/.snapshots/boot/boot-4".to_string(),
        "/.snapshots/rootfs/snapshot-deploy".to_string(),
    ];
    assert_eq!(find_new(&existing), 3);
    assert_eq!(find_new(&vec![]), 1);
}

#[test]
fn update_state_file() {
    let st = check_update("1 \nMon Jan  1 00:00:00 UTC 2024\n").unwrap();
    assert!(st.failed);
    assert!(!st.succeeded);
    assert_eq!(st.date, "Mon Jan  1 00:00:00 UTC 2024");
    assert!(check_update("0 \n").is_none());
}

#[test]
fn update_state_round_trip() {
    let text = upstate_text(true, "Tue Feb  6 10:00:00 UTC 2024\n");
    assert_eq!(text, "0 \nTue Feb  6 10:00:00 UTC 2024\n");
    let st = check_update(&text).unwrap();
    assert!(st.succeeded && !st.failed);
    assert_eq!(st.date, "Tue Feb  6 10:00:00 UTC 2024");
    let st = check_update(&upstate_text(false, "d\n")).unwrap();
    assert!(st.failed && !st.succeeded);
}

#[test]
fn rollback_plan() {
    let existing = vec!["/.snapshots/rootfs/snapshot-1".to_string(), "/.snapshots/etc/etc-2".to_string()];
    let plan = rollback(MOUNTS_AUX, &existing);
    assert_eq!(plan.source, "deploy-aux");
    assert_eq!(plan.number, 3);
    assert_eq!(plan.description, "clone of deploy-aux. rollback ");
}

#[test]
fn live_unlock_enters_the_running_slot() {
    assert_eq!(live_unlock(MOUNTS_AUX), "/.snapshots/rootfs/snapshot-deploy-aux");
}

#[test]
fn comments_are_cut() {
    assert_eq!(comment_after_hash("aur::True # enable"), "aur::True ");
    assert_eq!(comment_after_hash("plain"), "plain");
}

#[test]
fn config_defaults_without_file() {
    let c = snapshot_config_get(None);
    assert_eq!(c.get("aur"), Some("False".to_string()));
    assert_eq!(c.get("mutable_dirs"), Some(String::new()));
    assert!(!aur_check(&c));
    assert_eq!(c.get("other"), None);
}

#[test]
fn config_later_lines_win() {
    let c = snapshot_config_get(Some("aur::False\n# aur::False\naur::True\nmutable_dirs::/opt,/srv::/data, ,/var/x\n"));
    assert_eq!(c.get("aur"), Some("True".to_string()));
    assert!(aur_check(&c));
    assert_eq!(mutable_dirs(&c, "mutable_dirs"), vec!["/opt", "/srv", "/data", "/var/x"]);
    assert_eq!(mutable_dirs(&c, "mutable_dirs_shared"), Vec::<String>::new());
}

#[test]
fn config_values_keep_blanks_before_comments() {
    let c = snapshot_config_get(Some("aur::True  # yes\nkey::a::b\n"));
    assert_eq!(c.get("aur"), Some("True  ".to_string()));
    assert_eq!(c.get("key"), Some("a::b".to_string()));
}

#[test]
fn deploy_needs_the_snapshot() {
    assert!(deploy_check("4", true).is_ok());
    let e = deploy_check("4", false).unwrap_err();
    assert_eq!(e.message, "Cannot deploy as snapshot 4 doesn't exist.");
    assert_eq!(e.kind, ash::error::ErrorKind::NotFound);
}

#[test]
fn slot_switches_commute() {
    for t in ["deploy", "deploy-aux", "deploy-secondary", "deploy-aux-secondary"] {
        let a = get_aux_tmp(get_aux_tmp(t.to_string(), true), false);
        let b = get_aux_tmp(get_aux_tmp(t.to_string(), false), true);
        assert_eq!(a, b);
    }
    assert_eq!(get_aux_tmp(get_aux_tmp("deploy".to_string(), true), false), "deploy-aux-secondary");
}
