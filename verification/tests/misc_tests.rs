use ash::chroot::{chroot_mounts, chroot_root, chroot_umounts, MountKind};
use ash::clock::{date_argument, date_header, words_of};
use ash::config::snapshot_config_get;
use ash::error::change_guard;
use ash::ops::{
    delete_check, fixdb, immutability_disable, install, is_temporary, profile_label,
    reset_order, reset_script, snapshot_number, triage, upgrade, Route, Step,
};

#[test]
fn response_date_header() {
    let headers = "HTTP/2 301\r\nlocation: https://www.google.com/\r\ndate: Mon, 01 Jan 2024 12:34:56 GMT\r\n\r\n";
    let line = date_header(headers).unwrap();
    assert_eq!(line, "date: Mon, 01 Jan 2024 12:34:56 GMT");
    let words = words_of(&line);
    assert_eq!(words, vec!["date:", "Mon,", "01", "Jan", "2024", "12:34:56", "GMT"]);
    assert_eq!(date_argument(&words), "\"(01 Jan 2024 12:34:56)Z\"");
    assert!(date_header("HTTP/2 200\r\n\r\n").is_none());
}

#[test]
fn words_split_at_runs_of_blanks() {
    assert_eq!(words_of("  a \t b\nc  "), vec!["a", "b", "c"]);
    assert_eq!(words_of("   "), Vec::<String>::new());
}

#[test]
fn chroot_mount_table() {
    let root = chroot_root("5", "chr");
    assert_eq!(root, "/.snapshots/rootfs/snapshot-chr5");
    let m = chroot_mounts(&root, true);
    assert_eq!(m.len(), 12);
    assert_eq!(m[0].source, root);
    assert_eq!(m[0].target, root);
    assert_eq!(m[4].source, "/proc");
    assert_eq!(m[4].target, "/.snapshots/rootfs/snapshot-chr5/proc");
    assert_eq!(m[4].fstype, "proc");
    assert_eq!(m[4].kind, MountKind::Restricted);
    assert_eq!(m[10].target, "/.snapshots/rootfs/snapshot-chr5/sys/firmware/efi/efivars");
    assert_eq!(m[11].source, "/etc/resolv.conf");
    assert_eq!(chroot_mounts(&root, false).len(), 11);
}

#[test]
fn chroot_unmount_order() {
    let u = chroot_umounts("/r", false);
    assert_eq!(u.len(), 11);
    assert_eq!(u[0], ("/r/etc/resolv.conf".to_string(), false));
    assert_eq!(u[1], ("/r/var".to_string(), false));
    assert_eq!(u[2], ("/r/tmp".to_string(), true));
    assert_eq!(u[10], ("/r".to_string(), true));
}

#[test]
fn request_routes() {
    let pkgs = vec!["vim".to_string()];
    let none: Vec<String> = vec![];
    assert_eq!(triage("3", "4", false, "gnome", &pkgs, ""), Route::Profile);
    assert_eq!(triage("3", "4", false, "", &pkgs, "mine"), Route::Packages);
    assert_eq!(triage("3", "4", false, "", &none, "mine"), Route::UserProfile);
    assert_eq!(triage("3", "4", false, "", &none, ""), Route::Nothing);
    assert_eq!(triage("3", "4", true, "", &pkgs, ""), Route::NotCurrent);
    assert_eq!(triage("4", "4", true, "", &pkgs, ""), Route::LivePackages);
    assert_eq!(triage("4", "4", true, "kde", &pkgs, ""), Route::LiveProfile);
    assert_eq!(profile_label("gnome", ""), "gnome");
    assert_eq!(profile_label("gnome", "/tmp/p.conf"), "/tmp/p.conf");
}

#[test]
fn temporary_subvolumes() {
    assert!(is_temporary("/.snapshots/rootfs/snapshot-chr4"));
    assert!(is_temporary("/.snapshots/etc/etc-chr4"));
    assert!(is_temporary("/.snapshots/boot/boot-chr4"));
    assert!(!is_temporary("/.snapshots/rootfs/snapshot-4"));
}

#[test]
fn reset_plan() {
    assert_eq!(
        reset_script("7"),
        "#!/bin/sh\n/usr/sbin/ash del -q -n -s 7\ncp /etc/rc.local.bak /etc/rc.local\nexit 0\nexit 0"
    );
    assert_eq!(reset_order(&vec![4, 0, 2, 3, 1], "2"), vec![4, 3, 1]);
    assert_eq!(reset_order(&vec![], "2"), Vec::<u32>::new());
    // A snapshot numbered above the count of snapshots is deleted too.
    assert_eq!(reset_order(&vec![0, 3, 7], "7"), vec![3]);
    assert_eq!(reset_order(&vec![0, 3, 7, 12], "2"), vec![3, 7, 12]);
}

#[test]
fn snapshot_numbers_from_paths() {
    assert_eq!(snapshot_number("/.snapshots/rootfs/snapshot-12"), Some(12));
    assert_eq!(snapshot_number("/.snapshots/rootfs/snapshot-0"), Some(0));
    assert_eq!(snapshot_number("/.snapshots/rootfs/snapshot-deploy"), None);
    assert_eq!(snapshot_number("/.snapshots/rootfs/snapshot-deploy-aux"), None);
    assert_eq!(snapshot_number("/.snapshots/rootfs/snapshot-chr3"), None);
    assert_eq!(snapshot_number("/.snapshots/rootfs/snapshot-3x"), None);
    assert_eq!(snapshot_number("/.snapshots/rootfs/snapshot-03"), None);
    assert_eq!(snapshot_number("/.snapshots/etc/etc-3"), None);
}

#[test]
fn base_snapshot_is_protected_everywhere() {
    assert!(change_guard("install", "0", true, false).is_err());
    assert!(matches!(install("0", true, false, None), Step::Refuse(_)));
    assert!(matches!(upgrade("0", false, true, false, None), Step::Refuse(_)));
    assert!(delete_check("0", true, true, "1", "2").is_err());
    assert!(immutability_disable("0", true, false).is_err());
    assert!(fixdb("0", true, false, "1", false).is_err());
}

#[test]
fn chroot_changes_are_kept_only_after_exit_zero() {
    assert!(ash::ops::keep_chroot_changes(Some(0)));
    assert!(!ash::ops::keep_chroot_changes(Some(1)));
    assert!(!ash::ops::keep_chroot_changes(None));
}

#[test]
fn commit_keeps_mutability() {
    let p = ash::ops::commit_plan("5", true);
    assert_eq!(p.source, "chr5");
    assert!(!p.read_only);
    assert!(ash::ops::commit_plan("5", false).read_only);
}
