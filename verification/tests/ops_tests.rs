use ash::cloning::{clone_recursive, CloneStep};
use ash::error::{change_guard, ErrorKind};
use ash::fstree::fstree;
use ash::ops::{
    answer_of, clone_description, command_failed, delete_check, delete_prompt, fixdb, fixdb_commands,
    fixdb_next, fixdb_shell, hollow, FixNext, immutability_disable, immutability_enable, immutable_desc, install, mutable_desc,
    uninstall, upgrade, yes_no_answer, Step,
};

fn refused(s: Step) -> (ErrorKind, String) {
    match s {
        Step::Refuse(e) => (e.kind, e.message),
        other => panic!("expected a refusal, got {:?}", other),
    }
}

#[test]
fn guard_order() {
    let e = change_guard("install", "7", false, true).unwrap_err();
    assert_eq!(e.kind, ErrorKind::NotFound);
    assert_eq!(e.message, "Cannot install as snapshot 7 doesn't exist.");
    let e = change_guard("install", "7", true, true).unwrap_err();
    assert_eq!(e.kind, ErrorKind::Unsupported);
    assert_eq!(e.message, "Snapshot 7 appears to be in use. If you're certain it's not in use, clear lock with 'ash unlock 7'.");
    let e = change_guard("install", "0", true, false).unwrap_err();
    assert_eq!(e.message, "Changing base snapshot is not allowed.");
    assert!(change_guard("install", "7", true, false).is_ok());
}

#[test]
fn install_steps() {
    assert!(matches!(install("3", true, false, None), Step::Run));
    let (k, m) = refused(install("3", false, false, None));
    assert_eq!(k, ErrorKind::NotFound);
    assert_eq!(m, "Cannot install as snapshot 3 doesn't exist.");
    assert!(matches!(install("3", true, false, Some(true)), Step::Commit));
    match install("3", true, false, Some(false)) {
        Step::Discard(e) => {
            assert_eq!(e.kind, ErrorKind::Interrupted);
            assert_eq!(e.message, "Install failed and changes discarded.");
        }
        other => panic!("unexpected {:?}", other),
    }
}

#[test]
fn uninstall_failure_is_reported() {
    let (_, m) = refused(uninstall("0", true, false, None));
    assert_eq!(m, "Changing base snapshot is not allowed.");
    match uninstall("3", true, false, Some(false)) {
        Step::DiscardQuietly(m) => assert_eq!(m, "Remove failed and changes discarded."),
        other => panic!("unexpected {:?}", other),
    }
}

#[test]
fn base_upgrade_needs_baseup() {
    let (_, m) = refused(upgrade("0", false, true, false, None));
    assert_eq!(m, "Changing base snapshot is not allowed.");
    assert!(matches!(upgrade("0", true, true, false, None), Step::Run));
    let (_, m) = refused(upgrade("5", false, false, false, None));
    assert_eq!(m, "Cannot upgrade as snapshot 5 doesn't exist.");
    match upgrade("5", false, true, false, Some(false)) {
        Step::Discard(e) => assert_eq!(e.message, "Upgrade failed and changes discarded."),
        other => panic!("unexpected {:?}", other),
    }
}

#[test]
fn hollow_steps() {
    assert_eq!(
        hollow("4", true, false, None).unwrap(),
        "Snapshot 4 is now hollow! Whenever done, type yes to deploy and no to discard"
    );
    match hollow("4", true, false, Some(false)) {
        Err(Step::Discard(e)) => assert_eq!(e.message, "No changes applied on snapshot 4."),
        other => panic!("unexpected {:?}", other),
    }
    match hollow("4", false, false, None) {
        Err(Step::Refuse(e)) => assert_eq!(e.message, "Cannot make hollow as snapshot 4 doesn't exist."),
        other => panic!("unexpected {:?}", other),
    }
}

#[test]
fn mutability_checks() {
    assert_eq!(immutability_disable("0", true, false).unwrap_err().message, "Snapshot 0 (base) should not be modified.");
    assert_eq!(immutability_disable("2", false, false).unwrap_err().message, "Snapshot 2 doesn't exist.");
    let e = immutability_disable("2", true, true).unwrap_err();
    assert_eq!(e.kind, ErrorKind::AlreadyExists);
    assert_eq!(e.message, "Snapshot 2 is already mutable.");
    assert!(immutability_disable("2", true, false).is_ok());
    assert_eq!(immutability_enable("2", true, false).unwrap_err().message, "Snapshot 2 is already immutable.");
    assert!(immutability_enable("2", true, true).is_ok());
}

#[test]
fn mutability_mark_round_trip() {
    let d = mutable_desc("my desktop");
    assert_eq!(d, "my desktop MUTABLE ");
    assert_eq!(immutable_desc(&d), "my desktop");
    assert_eq!(immutable_desc("a MUTABLE b MUTABLE "), "ab");
}

#[test]
fn delete_checks() {
    assert_eq!(delete_check("0", true, true, "1", "2").unwrap_err().message, "Changing base snapshot is not allowed.");
    assert!(delete_check("9", true, false, "9", "9").is_ok());
    assert_eq!(delete_check("9", false, false, "1", "2").unwrap_err().message, "Cannot delete as snapshot 9 doesn't exist.");
    assert_eq!(delete_check("1", false, true, "1", "2").unwrap_err().message, "Cannot delete booted snapshot.");
    assert_eq!(delete_check("2", false, true, "1", "2").unwrap_err().message, "Cannot delete deployed snapshot.");
    assert!(delete_check("3", false, true, "1", "2").is_ok());
    assert_eq!(delete_prompt("3"), "Are you sure you want to delete snapshot 3?");
}

#[test]
fn clone_descriptions() {
    assert_eq!(clone_description("4", ""), "clone of 4.");
    assert_eq!(clone_description("4", "work"), "work");
}

#[test]
fn fixdb_checks_and_commands() {
    let e = fixdb("8", false, false, "1", false).unwrap_err();
    assert_eq!(e.message, "Cannot fix package man database as snapshot 8 doesn't exist.");
    let e = fixdb("8", true, true, "1", false).unwrap_err();
    assert_eq!(e.message, "Snapshot 8 appears to be in use. If you're certain it's not in use, clear lock with 'ash unlock -s 8'.");
    assert_eq!(fixdb("", false, false, "0", false).unwrap_err().message, "Snapshot 0 (base) should not be modified.");
    assert_eq!(fixdb("0", true, false, "3", true).unwrap_err().message, "Snapshot 0 (base) should not be modified.");
    let f = fixdb("8", true, false, "1", false).unwrap();
    assert!(f.chroot && f.flip);
    let f = fixdb("", false, false, "1", true).unwrap();
    assert!(!f.chroot && !f.flip);
    assert_eq!(
        fixdb_commands(true, true, false, true, "/home/u", "u"),
        vec![
            "rm -rf /etc/pacman.d/gnupg",
            "rm -r /var/lib/pacman/sync/*",
            "pacman -Syy",
            "sudo -u u gpg --refresh-keys",
            "pacman-key --init",
            "pacman-key --populate archlinux",
            "pacman -Syvv --noconfirm archlinux-keyring",
        ]
    );
    assert_eq!(
        fixdb_commands(false, false, true, false, "/home/u", "u"),
        vec!["rm -rf /home/u/.gnupg", "sudo -u u gpg --refresh-keys", "pacman-key --init", "pacman-key --populate archlinux"]
    );
    assert_eq!(fixdb_shell("8", "pacman -Syy", true), "chroot /.snapshots/rootfs/snapshot-chr8 pacman -Syy");
    assert_eq!(fixdb_shell("", "pacman-key --init", false), "pacman-key --init");
    assert_eq!(command_failed("pacman -Syy").message, "Run command pacman -Syy failed.");
}

#[test]
fn answers() {
    assert_eq!(answer_of("yes"), Some(true));
    assert_eq!(answer_of("y"), Some(true));
    assert_eq!(answer_of("n"), Some(false));
    assert_eq!(answer_of("maybe"), None);
    assert_eq!(yes_no_answer("  YES\n"), Some(true));
    assert_eq!(yes_no_answer("No"), Some(false));
    assert_eq!(yes_no_answer(""), None);
}

#[test]
fn recursive_clone_follows_the_tree() {
    let t = fstree("{'name': 'root', 'children': [{'name': 1, 'children': [{'name': 2, 'children': [{'name': 3}]}, {'name': 4}]}]}").unwrap();
    let mut c = clone_recursive(&t, 1, "1", true).unwrap();
    assert_eq!(c.next_step(), CloneStep::Branch(1));
    c.record(10);
    assert_eq!(c.next_step(), CloneStep::Under { parent: 10, branch: 2 });
    c.record(11);
    assert_eq!(c.next_step(), CloneStep::Under { parent: 11, branch: 3 });
    c.record(12);
    assert_eq!(c.next_step(), CloneStep::Under { parent: 10, branch: 4 });
    c.record(13);
    assert_eq!(c.next_step(), CloneStep::Done);
    assert_eq!(c.made(), vec![10, 11, 12, 13]);
}

#[test]
fn recursive_clone_of_missing_snapshot() {
    let t = fstree("{'name': 'root'}").unwrap();
    match clone_recursive(&t, 5, "5", false) {
        Err(e) => {
            assert_eq!(e.kind, ErrorKind::NotFound);
            assert_eq!(e.message, "Cannot clone as snapshot 5 doesn't exist.");
        }
        Ok(_) => panic!("a missing snapshot cannot be cloned"),
    }
}

#[test]
fn fixdb_runs_until_a_command_fails() {
    let cmds = vec!["pacman-key --init".to_string(), "pacman -Syy".to_string()];
    let start = fixdb("8", true, false, "1", false).unwrap();
    match fixdb_next("8", &start, &cmds, 0, true) {
        FixNext::Run(t) => assert_eq!(t, "chroot /.snapshots/rootfs/snapshot-chr8 pacman-key --init"),
        other => panic!("{:?}", other),
    }
    match fixdb_next("8", &start, &cmds, 1, false) {
        FixNext::Stop(e) => assert_eq!(e.message, "Run command pacman-key --init failed."),
        other => panic!("{:?}", other),
    }
    match fixdb_next("8", &start, &cmds, 2, true) {
        FixNext::Finish { restore } => assert!(restore),
        other => panic!("{:?}", other),
    }
    let live = fixdb("", false, false, "1", true).unwrap();
    match fixdb_next("", &live, &cmds, 1, true) {
        FixNext::Run(t) => assert_eq!(t, "pacman -Syy"),
        other => panic!("{:?}", other),
    }
    assert!(matches!(fixdb_next("", &live, &cmds, 2, true), FixNext::Finish { restore: false }));
}
