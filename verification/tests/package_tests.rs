use ash::config::snapshot_config_get;
use ash::distro::{capitalize, distro_id, distro_name, stem_word, unquote_str};
use ash::efi::{boot_entry_of, distro_choice, new_boot_order, DistroChoice};
use ash::packages::{
    AutoUpdate, UpdatePlan,
    install_command, install_live, is_pkg_installed, list, noninteractive_update, package_queries,
    packages_to_inherit, pkg_list_command, uninstall_command, uninstall_live, upgrade_commands, Command,
};

fn argv(c: &Command) -> Vec<String> {
    let mut v = vec![c.program.clone()];
    v.extend(c.args.iter().cloned());
    v
}

#[test]
fn package_list_from_report() {
    assert_eq!(list("base\nlinux\nvim\n"), vec!["base", "linux", "vim"]);
    assert_eq!(list("  \n"), vec![""]);
    let installed = list("base\nlinux\n");
    assert!(is_pkg_installed(&installed, "linux"));
    assert!(!is_pkg_installed(&installed, "lin"));
}

#[test]
fn package_list_command() {
    assert_eq!(
        argv(&pkg_list_command("4", "chr")),
        vec!["sh", "-c", "chroot /.snapshots/rootfs/snapshot-chr4 pacman -Qq"]
    );
}

#[test]
fn inherited_packages_keep_their_order() {
    let from = vec!["a".to_string(), "b".to_string(), "c".to_string(), "d".to_string()];
    let to = vec!["c".to_string(), "a".to_string()];
    assert_eq!(packages_to_inherit(&from, &to), vec!["b", "d"]);
}

#[test]
fn live_install_commands() {
    let no_aur = snapshot_config_get(Some("aur::False\n"));
    let aur = snapshot_config_get(Some("aur::True\n"));
    assert_eq!(
        argv(&install_live("deploy", "vim", true, true, &no_aur).unwrap()),
        vec!["sh", "-c", "chroot /.snapshots/rootfs/snapshot-deploy pacman -Sy --noconfirm --overwrite '*' vim"]
    );
    assert_eq!(
        argv(&install_live("deploy", "yay", false, false, &aur).unwrap()),
        vec!["chroot", "/.snapshots/rootfs/snapshot-deploy", "su", "aur", "-c", "paru -Sy --overwrite '*' yay"]
    );
    assert!(install_live("deploy", "yay", false, false, &no_aur).is_none());
}

#[test]
fn chroot_install_commands() {
    let no_aur = snapshot_config_get(None);
    let aur = snapshot_config_get(Some("aur::True\n"));
    assert_eq!(
        argv(&install_command("3", "vim", false, true, &no_aur).unwrap()),
        vec!["sh", "-c", "chroot /.snapshots/rootfs/snapshot-chr3 pacman -S --needed --overwrite '/var/*' vim"]
    );
    assert_eq!(
        argv(&install_command("3", "yay", true, false, &aur).unwrap()),
        vec!["chroot", "/.snapshots/rootfs/snapshot-chr3", "su", "aur", "-c", "paru -S --noconfirm --needed --overwrite '/var/*' yay"]
    );
    match install_command("3", "yay", true, false, &no_aur) {
        Err(e) => assert_eq!(e.message, "Please enable AUR."),
        Ok(_) => panic!("the AUR is disabled"),
    }
}

#[test]
fn package_query_commands() {
    let (si, sg) = package_queries("3", "vim", false);
    assert_eq!(argv(&si), vec!["sh", "-c", "chroot /.snapshots/rootfs/snapshot-chr3 pacman -Si vim"]);
    assert_eq!(argv(&sg), vec!["sh", "-c", "chroot /.snapshots/rootfs/snapshot-chr3 pacman -Sg vim"]);
    let (si, sg) = package_queries("3", "vim", true);
    assert_eq!(argv(&si), vec!["pacman", "-Si", "vim"]);
    assert_eq!(argv(&sg), vec!["pacman", "-Sg", "vim"]);
}

#[test]
fn removal_commands() {
    assert_eq!(
        argv(&uninstall_live("deploy-aux", "vim", true)),
        vec!["chroot", "/.snapshots/rootfs/snapshot-deploy-aux", "pacman", "--noconfirm", "-Rns", "vim"]
    );
    assert_eq!(
        argv(&uninstall_command("3", "vim", false)),
        vec!["chroot", "/.snapshots/rootfs/snapshot-chr3", "pacman", "--confirm", "-Rns", "vim"]
    );
}

#[test]
fn unattended_update_plan() {
    let no_aur = snapshot_config_get(None);
    let p = planned(noninteractive_update("3", true, &no_aur));
    assert_eq!(argv(&p.keyring), vec!["chroot", "/.snapshots/rootfs/snapshot-chr3", "pacman", "-Sy", "--noconfirm", "archlinux-keyring"]);
    assert_eq!(argv(&p.upgrade), vec!["chroot", "/.snapshots/rootfs/snapshot-chr3", "pacman", "--noconfirm", "-Syyu"]);
    let aur = snapshot_config_get(Some("aur::True"));
    let p = planned(noninteractive_update("3", true, &aur));
    assert_eq!(argv(&p.upgrade), vec!["chroot", "/.snapshots/rootfs/snapshot-chr3", "su", "aur", "-c", "paru -Syyu --noconfirm"]);
    // A missing snapshot is reported and skipped, not an error.
    match noninteractive_update("3", false, &aur) {
        AutoUpdate::Skip(m) => assert_eq!(m, "Cannot upgrade as snapshot 3 doesn't exist."),
        AutoUpdate::Run(_) => panic!("missing snapshot"),
    }
}

fn planned(u: AutoUpdate) -> UpdatePlan {
    match u {
        AutoUpdate::Run(p) => p,
        AutoUpdate::Skip(m) => panic!("{}", m),
    }
}

#[test]
fn interactive_upgrade_commands() {
    let aur = snapshot_config_get(Some("aur::True"));
    let p = upgrade_commands("3", false, false, &aur);
    assert_eq!(argv(&p.keyring), vec!["chroot", "/.snapshots/rootfs/snapshot-chr3", "pacman", "--confirm", "-Syy", "archlinux-keyring"]);
    assert_eq!(argv(&p.upgrade), vec!["sh", "-c", "chroot /.snapshots/rootfs/snapshot-chr3 su aur -c 'paru -Syyu'"]);
    let p = upgrade_commands("deploy", false, true, &aur);
    assert_eq!(argv(&p.upgrade), vec!["sh", "-c", "chroot /.snapshots/rootfs/snapshot-deploy su aur -c 'paru --confirm -Syyu'"]);
    let no_aur = snapshot_config_get(None);
    let p = upgrade_commands("3", true, false, &no_aur);
    assert_eq!(argv(&p.upgrade), vec!["chroot", "/.snapshots/rootfs/snapshot-chr3", "pacman", "--noconfirm", "-Syyu"]);
}

#[test]
fn capitalized_names() {
    assert_eq!(capitalize("arch"), "Arch");
    assert_eq!(capitalize(""), "");
    assert_eq!(capitalize("ßx"), "SSx");
}

#[test]
fn distribution_identifier() {
    let lsb = "DISTRIB_ID=\"Arch\"\nDISTRIB_DESCRIPTION=\"Arch Linux\"\n";
    let os = "NAME=\"Arch Linux\"\nID=arch\n";
    let names = vec!["hostname".to_string(), "fedora-release".to_string()];
    assert_eq!(distro_id(Some(lsb), Some(os), &names), "arch");
    assert_eq!(distro_id(None, Some("ID=\"Debian\"\n"), &names), "debian");
    assert_eq!(distro_id(None, None, &names), "fedora");
    assert_eq!(distro_id(Some("X=1"), None, &vec![]), "");
}

#[test]
fn distribution_name() {
    let lsb = "DISTRIB_ID=\"Arch\"\nDISTRIB_DESCRIPTION=\"Arch Linux\"\n";
    let os = "NAME=\"Arch Linux\"\nID=arch\n";
    let names = vec!["Gentoo-release".to_string()];
    assert_eq!(distro_name(Some(os), Some(lsb), &names), "Arch Linux");
    assert_eq!(distro_name(None, Some(lsb), &names), "Arch");
    assert_eq!(distro_name(None, None, &names), "Gentoo");
    assert_eq!(unquote_str("\"\"x\""), "x");
    assert_eq!(stem_word("arch-release"), "arch");
}

#[test]
fn boot_entry_lookup() {
    let map = b"name,entry\narch,0003\ndebian,0004\n";
    assert_eq!(boot_entry_of(map, "debian"), Some(Some("0004".to_string())));
    assert_eq!(boot_entry_of(map, "gentoo"), Some(None));
    assert_eq!(boot_entry_of(b"name,entry\narch,0003\nbad\n", "debian"), None);
    assert_eq!(boot_entry_of(b"name,entry\narch,0003\nbad\n", "arch"), Some(Some("0003".to_string())));
}

#[test]
fn boot_order_puts_the_entry_first() {
    assert_eq!(new_boot_order("0004", "0003,0004,0001"), "0004,0003,0001");
    assert_eq!(new_boot_order("0004", "0003"), "0004,0003");
}

#[test]
fn distribution_prompt_answers() {
    let listing = "name\narch\ndebian";
    assert!(matches!(distro_choice("q\n", listing), DistroChoice::Quit));
    assert!(matches!(distro_choice(" list ", listing), DistroChoice::List));
    match distro_choice("debian\n", listing) {
        DistroChoice::Switch(n) => assert_eq!(n, "debian"),
        other => panic!("unexpected {:?}", other),
    }
    assert!(matches!(distro_choice("gentoo", listing), DistroChoice::Invalid));
}

#[test]
fn lacking_packages_are_sorted() {
    let names: Vec<String> = ["", "zsh-5.9", "bash-5.2", "vim-9.1", "Xorg-1", "bash-4"].iter().map(|s| s.to_string()).collect();
    let in_first = vec![true, false, false, true, false, false];
    assert_eq!(
        ash::packages::packages_lacking(&names, &in_first),
        vec!["Xorg-1".to_string(), "bash-4".to_string(), "bash-5.2".to_string(), "zsh-5.9".to_string()]
    );
    assert!(ash::packages::packages_lacking(&vec![], &vec![]).is_empty());
    assert!(ash::packages::packages_lacking(&names, &vec![true; 6]).is_empty());
}
