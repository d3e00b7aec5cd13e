use ash::config::snapshot_config_get;
use ash::profile::{has_section, keys_of, profile_from_text, profile_plan, removal_from_text, removal_plan, ProfileRead};

fn section(name: &str, keys: &[&str]) -> (String, Vec<String>) {
    (name.to_string(), keys.iter().map(|k| k.to_string()).collect())
}

fn sorted(mut v: Vec<String>) -> Vec<String> {
    v.sort();
    v
}

#[test]
fn presets_need_the_aur() {
    let sections = vec![section("packages", &["vim"]), section("presets", &["kde"])];
    let off = snapshot_config_get(None);
    let on = snapshot_config_get(Some("aur::True"));
    let refused = profile_plan(&sections, &off, "install-commands").unwrap_err();
    assert_eq!(refused.message, "Please enable AUR.");
    assert_eq!(refused.kind, ash::error::ErrorKind::Unsupported);
    assert_eq!(profile_plan(&sections, &on, "install-commands").unwrap().packages, vec!["vim".to_string()]);
    assert!(profile_plan(&vec![section("packages", &["vim"])], &off, "install-commands").is_ok());
}

#[test]
fn plan_lists_packages_and_commands() {
    let sections = vec![
        section("install-commands", &["systemctl enable sshd", "echo hi"]),
        section("packages", &["vim", "git"]),
        section("uninstall-commands", &["systemctl disable sshd"]),
    ];
    let off = snapshot_config_get(None);
    let plan = profile_plan(&sections, &off, "install-commands").unwrap();
    assert_eq!(plan.packages, vec!["vim".to_string(), "git".to_string()]);
    assert_eq!(plan.commands, vec!["systemctl enable sshd".to_string(), "echo hi".to_string()]);
    let removal = removal_plan(&sections);
    assert_eq!(removal.packages, vec!["vim".to_string(), "git".to_string()]);
    assert_eq!(removal.commands, vec!["systemctl disable sshd".to_string()]);
    let empty = profile_plan(&vec![], &off, "install-commands").unwrap();
    assert!(empty.packages.is_empty() && empty.commands.is_empty());
    assert!(has_section(&sections, "packages"));
    assert!(!has_section(&sections, "presets"));
    assert_eq!(keys_of(&sections, "presets"), Vec::<String>::new());
    // The first section of a name is the one read.
    let twice = vec![section("packages", &["a"]), section("packages", &["b"])];
    assert_eq!(keys_of(&twice, "packages"), vec!["a".to_string()]);
}

#[test]
fn profile_text_is_parsed() {
    let text = "# a desktop\n[packages]\nvim\ngit\n[install-commands]\nsystemctl enable sshd\n[uninstall-commands]\nsystemctl disable sshd\n";
    let off = snapshot_config_get(None);
    match profile_from_text(text, &off, "install-commands") {
        ProfileRead::Read(Ok(plan)) => {
            assert_eq!(sorted(plan.packages), vec!["git".to_string(), "vim".to_string()]);
            assert_eq!(plan.commands, vec!["systemctl enable sshd".to_string()]);
        }
        _ => panic!("the profile should be read"),
    }
    let removal = removal_from_text(text).unwrap();
    assert_eq!(sorted(removal.packages), vec!["git".to_string(), "vim".to_string()]);
    assert_eq!(removal.commands, vec!["systemctl disable sshd".to_string()]);
}

#[test]
fn profile_text_refusals() {
    let off = snapshot_config_get(None);
    let unset = snapshot_config_get(Some("aur::maybe"));
    let on = snapshot_config_get(Some("aur::True"));
    assert!(matches!(profile_from_text("[packages\nvim\n", &off, "install-commands"), ProfileRead::Malformed));
    assert!(removal_from_text("[packages\nvim\n").is_none());
    let presets = "[presets]\nkde\n[packages]\nvim\n";
    assert!(matches!(profile_from_text(presets, &unset, "install-commands"), ProfileRead::AurUnset));
    match profile_from_text(presets, &off, "install-commands") {
        ProfileRead::Read(Err(e)) => assert_eq!(e.message, "Please enable AUR."),
        _ => panic!("the AUR is off"),
    }
    match profile_from_text(presets, &on, "install-commands") {
        ProfileRead::Read(Ok(plan)) => assert_eq!(plan.packages, vec!["vim".to_string()]),
        _ => panic!("the AUR is on"),
    }
    // Without presets the aur setting is not looked at.
    assert!(matches!(profile_from_text("[packages]\nvim\n", &unset, "install-commands"), ProfileRead::Read(Ok(_))));
}
