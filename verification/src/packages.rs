//! Package management with pacman and, where enabled, the AUR helper paru.
//!
//! The functions here build the commands that install, remove and upgrade
//! packages in a snapshot's chroot or in the running system, and read what
//! pacman reports back.
use vstd::prelude::*;
use crate::text::{chars_of, push_all, split_char, split_chars, string_of, trim, trim_chars};
use crate::config::{SnapshotConfig, aur_check, aur_valid, aur_enabled, vec_eq};
use crate::error::{AshError, ErrorKind, error_of, around};

verus! {

/// A program and its arguments.
pub struct Command {
    pub program: String,
    pub args: Vec<String>,
}

/// `c` runs program `p` with the arguments `a`.
pub open spec fn is_command(c: Command, p: Seq<char>, a: Seq<Seq<char>>) -> bool {
    &&& c.program@ == p
    &&& c.args@.len() == a.len()
    &&& forall|i: int| 0 <= i < a.len() ==> #[trigger] c.args@[i]@ == a[i]
}

/// The root of a snapshot's file system; `chr` is `chr` for its chroot
/// copy and empty for the snapshot itself.
pub open spec fn snapshot_root(chr: Seq<char>, s: Seq<char>) -> Seq<char> {
    "/.snapshots/rootfs/snapshot-"@ + chr + s
}

fn root_of(chr: &str, s: &str) -> (r: String)
    ensures
        r@ == snapshot_root(chr@, s@),
{
    let a = around("/.snapshots/rootfs/snapshot-", chr, "");
    let r = around(a.as_str(), s, "");
    proof { reveal_strlit(""); }
    assert(r@ =~= snapshot_root(chr@, s@));
    r
}

fn text(s: &str) -> (r: String)
    ensures
        r@ == s@,
{
    let v = chars_of(s);
    string_of(v.as_slice())
}

/// A shell running `script`.
fn shell(script: String) -> (c: Command)
    ensures
        is_command(c, "sh"@, seq!["-c"@, script@]),
{
    let mut args: Vec<String> = Vec::new();
    args.push(text("-c"));
    args.push(script);
    Command { program: text("sh"), args }
}

/// `s` run as the user `aur` in the root `root` through `chroot`.
fn as_aur_user(root: String, script: String) -> (c: Command)
    ensures
        is_command(c, "chroot"@, seq![root@, "su"@, "aur"@, "-c"@, script@]),
{
    let mut args: Vec<String> = Vec::new();
    args.push(root);
    args.push(text("su"));
    args.push(text("aur"));
    args.push(text("-c"));
    args.push(script);
    Command { program: text("chroot"), args }
}

/// The command that lists the packages of snapshot `snapshot` (of its
/// chroot copy when `chr` is `chr`).
pub fn pkg_list_command(snapshot: &str, chr: &str) -> (c: Command)
    ensures
        is_command(c, "sh"@, seq!["-c"@, "chroot "@ + snapshot_root(chr@, snapshot@) + " pacman -Qq"@]),
{
    let root = root_of(chr, snapshot);
    let script = around("chroot ", root.as_str(), " pacman -Qq");
    shell(script)
}

/// The packages in pacman's report: the report without surrounding white
/// space, split at line feeds.
pub fn list(report: &str) -> (pkgs: Vec<String>)
    ensures
        pkgs@.len() == split_char(trim(report@), '\n').len(),
        forall|i: int| 0 <= i < pkgs@.len() ==> #[trigger] pkgs@[i]@ == split_char(trim(report@), '\n')[i],
{
    let r = chars_of(report);
    let t = trim_chars(r.as_slice());
    let parts = split_chars(t.as_slice(), '\n');
    let mut pkgs: Vec<String> = Vec::new();
    let mut i: usize = 0;
    while i < parts.len()
        invariant
            i <= parts@.len(),
            parts@.len() == split_char(trim(report@), '\n').len(),
            forall|j: int| 0 <= j < parts@.len() ==> #[trigger] parts@[j]@ == split_char(trim(report@), '\n')[j],
            pkgs@.len() == i,
            forall|j: int| 0 <= j < i ==> #[trigger] pkgs@[j]@ == split_char(trim(report@), '\n')[j],
        decreases parts@.len() - i,
    {
        pkgs.push(string_of(parts[i].as_slice()));
        i = i + 1;
    }
    pkgs
}

/// Some entry of `v` is `s`.
pub open spec fn lists(v: Seq<String>, s: Seq<char>) -> bool {
    exists|j: int| 0 <= j < v.len() && #[trigger] v[j]@ == s
}

/// Whether package `pkg` is among the installed packages.
pub fn is_pkg_installed(installed: &Vec<String>, pkg: &str) -> (b: bool)
    ensures
        b == lists(installed@, pkg@),
{
    let p = chars_of(pkg);
    let mut i: usize = 0;
    while i < installed.len()
        invariant
            i <= installed@.len(),
            p@ == pkg@,
            forall|j: int| 0 <= j < i ==> #[trigger] installed@[j]@ != pkg@,
        decreases installed@.len() - i,
    {
        let c = chars_of(installed[i].as_str());
        if vec_eq(&c, &p) {
            return true;
        }
        i = i + 1;
    }
    false
}

/// The packages of `from` that `to` lacks, in the order of `from`.
pub open spec fn missing_from(from: Seq<String>, to: Seq<String>) -> Seq<Seq<char>>
    decreases from.len(),
{
    if from.len() == 0 {
        Seq::empty()
    } else {
        let rest = missing_from(from.drop_last(), to);
        if lists(to, from.last()@) { rest } else { rest.push(from.last()@) }
    }
}

/// The packages that a snapshot inherits when its tree is synced: those of
/// the source that the target lacks.
pub fn packages_to_inherit(from: &Vec<String>, to: &Vec<String>) -> (r: Vec<String>)
    ensures
        r@.len() == missing_from(from@, to@).len(),
        forall|i: int| 0 <= i < r@.len() ==> #[trigger] r@[i]@ == missing_from(from@, to@)[i],
{
    let mut r: Vec<String> = Vec::new();
    let mut i: usize = 0;
    while i < from.len()
        invariant
            i <= from@.len(),
            r@.len() == missing_from(from@.take(i as int), to@).len(),
            forall|j: int| 0 <= j < r@.len() ==> #[trigger] r@[j]@ == missing_from(from@.take(i as int), to@)[j],
        decreases from@.len() - i,
    {
        proof {
            assert(from@.take(i + 1).drop_last() =~= from@.take(i as int));
        }
        let present = is_pkg_installed(to, from[i].as_str());
        if !present {
            let ghost before = r@;
            let c = chars_of(from[i].as_str());
            r.push(string_of(c.as_slice()));
            proof {
                assert forall|j: int| 0 <= j < r@.len() implies #[trigger] r@[j]@ == missing_from(from@.take(i + 1), to@)[j] by {
                    if j < before.len() {
                        assert(r@[j] == before[j]);
                    }
                }
            }
        }
        i = i + 1;
    }
    assert(from@.take(i as int) =~= from@);
    r
}

/// pacman's arguments for installing `pkg` in the running system.
pub open spec fn live_pacman_script(pkg: Seq<char>, noconfirm: bool) -> Seq<char> {
    (if noconfirm { "pacman -Sy --noconfirm --overwrite '*' "@ } else { "pacman -Sy --overwrite '*' "@ }) + pkg
}

/// paru's arguments for installing `pkg` in the running system.
pub open spec fn live_paru_script(pkg: Seq<char>, noconfirm: bool) -> Seq<char> {
    (if noconfirm { "paru -Sy --noconfirm --overwrite '*' "@ } else { "paru -Sy --overwrite '*' "@ }) + pkg
}

/// The command that installs `pkg` in the running system, mounted at the
/// root of slot `tmp`: pacman when the package or group is in the official
/// repositories (`official`), otherwise paru when the AUR is enabled, and
/// nothing when it is not. The options are read only for packages outside
/// the official repositories.
pub fn install_live(tmp: &str, pkg: &str, noconfirm: bool, official: bool, options: &SnapshotConfig) -> (c: Option<Command>)
    requires
        !official ==> aur_valid(options),
    ensures
        official ==> (c matches Some(cmd) && is_command(cmd, "sh"@, seq![
            "-c"@,
            "chroot "@ + snapshot_root(Seq::empty(), tmp@) + " "@ + live_pacman_script(pkg@, noconfirm),
        ])),
        !official && aur_enabled(options) ==> (c matches Some(cmd) && is_command(cmd, "chroot"@, seq![
            snapshot_root(Seq::empty(), tmp@),
            "su"@,
            "aur"@,
            "-c"@,
            live_paru_script(pkg@, noconfirm),
        ])),
        !official && !aur_enabled(options) ==> c is None,
{
    let root = root_of("", tmp);
    proof { reveal_strlit(""); }
    if official {
        let pre = if noconfirm { "pacman -Sy --noconfirm --overwrite '*' " } else { "pacman -Sy --overwrite '*' " };
        let args = around(pre, pkg, "");
        let script = around("chroot ", root.as_str(), " ");
        let script = around(script.as_str(), args.as_str(), "");
        assert(script@ =~= "chroot "@ + snapshot_root(Seq::empty(), tmp@) + " "@ + live_pacman_script(pkg@, noconfirm));
        Some(shell(script))
    } else if aur_check(options) {
        let pre = if noconfirm { "paru -Sy --noconfirm --overwrite '*' " } else { "paru -Sy --overwrite '*' " };
        let script = around(pre, pkg, "");
        assert(script@ =~= live_paru_script(pkg@, noconfirm));
        Some(as_aur_user(root, script))
    } else {
        None
    }
}

/// pacman's arguments for installing `pkg` in a snapshot's chroot.
pub open spec fn pacman_script(pkg: Seq<char>, noconfirm: bool) -> Seq<char> {
    (if noconfirm {
        "pacman -S --noconfirm --needed --overwrite '/var/*' "@
    } else {
        "pacman -S --needed --overwrite '/var/*' "@
    }) + pkg
}

/// paru's arguments for installing `pkg` in a snapshot's chroot.
pub open spec fn paru_script(pkg: Seq<char>, noconfirm: bool) -> Seq<char> {
    (if noconfirm {
        "paru -S --noconfirm --needed --overwrite '/var/*' "@
    } else {
        "paru -S --needed --overwrite '/var/*' "@
    }) + pkg
}

/// The command that installs `pkg` in the chroot of `snapshot`: pacman for
/// official packages and groups, otherwise paru when the AUR is enabled;
/// when it is not, the error `Please enable AUR.`.
pub fn install_command(snapshot: &str, pkg: &str, noconfirm: bool, official: bool, options: &SnapshotConfig) -> (r: Result<Command, AshError>)
    requires
        !official ==> aur_valid(options),
    ensures
        official ==> (r matches Ok(cmd) && is_command(cmd, "sh"@, seq![
            "-c"@,
            "chroot "@ + snapshot_root("chr"@, snapshot@) + " "@ + pacman_script(pkg@, noconfirm),
        ])),
        !official && aur_enabled(options) ==> (r matches Ok(cmd) && is_command(cmd, "chroot"@, seq![
            snapshot_root("chr"@, snapshot@),
            "su"@,
            "aur"@,
            "-c"@,
            paru_script(pkg@, noconfirm),
        ])),
        !official && !aur_enabled(options) ==> (r matches Err(e) && e.kind == ErrorKind::NotFound
            && e.message@ == "Please enable AUR."@),
{
    let root = root_of("chr", snapshot);
    proof { reveal_strlit(""); }
    if official {
        let pre = if noconfirm {
            "pacman -S --noconfirm --needed --overwrite '/var/*' "
        } else {
            "pacman -S --needed --overwrite '/var/*' "
        };
        let args = around(pre, pkg, "");
        let script = around("chroot ", root.as_str(), " ");
        let script = around(script.as_str(), args.as_str(), "");
        assert(script@ =~= "chroot "@ + snapshot_root("chr"@, snapshot@) + " "@ + pacman_script(pkg@, noconfirm));
        Ok(shell(script))
    } else if aur_check(options) {
        let pre = if noconfirm {
            "paru -S --noconfirm --needed --overwrite '/var/*' "
        } else {
            "paru -S --needed --overwrite '/var/*' "
        };
        let script = around(pre, pkg, "");
        assert(script@ =~= paru_script(pkg@, noconfirm));
        Ok(as_aur_user(root, script))
    } else {
        Err(error_of(ErrorKind::NotFound, "Please enable AUR."))
    }
}

/// The two queries that tell whether `pkg` is an official package or group:
/// `pacman -Si` and `pacman -Sg`, in the chroot of `snapshot`, or in the
/// running system when `live`.
pub fn package_queries(snapshot: &str, pkg: &str, live: bool) -> (r: (Command, Command))
    ensures
        live ==> is_command(r.0, "pacman"@, seq!["-Si"@, pkg@]) && is_command(r.1, "pacman"@, seq!["-Sg"@, pkg@]),
        !live ==> is_command(r.0, "sh"@, seq!["-c"@, "chroot "@ + snapshot_root("chr"@, snapshot@) + " pacman -Si "@ + pkg@])
            && is_command(r.1, "sh"@, seq!["-c"@, "chroot "@ + snapshot_root("chr"@, snapshot@) + " pacman -Sg "@ + pkg@]),
{
    if live {
        let mut a: Vec<String> = Vec::new();
        a.push(text("-Si"));
        a.push(text(pkg));
        let mut b: Vec<String> = Vec::new();
        b.push(text("-Sg"));
        b.push(text(pkg));
        (Command { program: text("pacman"), args: a }, Command { program: text("pacman"), args: b })
    } else {
        let root = root_of("chr", snapshot);
        let pre = around("chroot ", root.as_str(), "");
        let si = around(pre.as_str(), " pacman -Si ", pkg);
        let sg = around(pre.as_str(), " pacman -Sg ", pkg);
        proof { reveal_strlit(""); }
        assert(si@ =~= "chroot "@ + snapshot_root("chr"@, snapshot@) + " pacman -Si "@ + pkg@);
        assert(sg@ =~= "chroot "@ + snapshot_root("chr"@, snapshot@) + " pacman -Sg "@ + pkg@);
        (shell(si), shell(sg))
    }
}

/// The confirmation flag of pacman.
pub open spec fn confirm_flag(noconfirm: bool) -> Seq<char> {
    if noconfirm { "--noconfirm"@ } else { "--confirm"@ }
}

/// The command that removes `pkg` from the file system rooted at `root`.
fn remove_in(root: String, pkg: &str, noconfirm: bool) -> (c: Command)
    ensures
        is_command(c, "chroot"@, seq![root@, "pacman"@, confirm_flag(noconfirm), "-Rns"@, pkg@]),
{
    let mut args: Vec<String> = Vec::new();
    args.push(root);
    args.push(text("pacman"));
    args.push(if noconfirm { text("--noconfirm") } else { text("--confirm") });
    args.push(text("-Rns"));
    args.push(text(pkg));
    Command { program: text("chroot"), args }
}

/// The command that removes `pkg` from the running system, mounted at the
/// root of slot `tmp`.
pub fn uninstall_live(tmp: &str, pkg: &str, noconfirm: bool) -> (c: Command)
    ensures
        is_command(c, "chroot"@, seq![snapshot_root(Seq::empty(), tmp@), "pacman"@, confirm_flag(noconfirm), "-Rns"@, pkg@]),
{
    let root = root_of("", tmp);
    proof { reveal_strlit(""); }
    remove_in(root, pkg, noconfirm)
}

/// The command that removes `pkg` from the chroot of `snapshot`.
pub fn uninstall_command(snapshot: &str, pkg: &str, noconfirm: bool) -> (c: Command)
    ensures
        is_command(c, "chroot"@, seq![snapshot_root("chr"@, snapshot@), "pacman"@, confirm_flag(noconfirm), "-Rns"@, pkg@]),
{
    let root = root_of("chr", snapshot);
    remove_in(root, pkg, noconfirm)
}


/// The commands of an unattended update of a snapshot's chroot copy:
/// first the keyring, then the system.
pub struct UpdatePlan {
    pub keyring: Command,
    pub upgrade: Command,
}

/// What an unattended update does.
pub enum AutoUpdate {
    /// Nothing: the snapshot does not exist. The message is reported and the
    /// update ends without an error.
    Skip(String),
    /// Run these commands.
    Run(UpdatePlan),
}

/// The unattended update of `snapshot`; `exists` says whether the snapshot
/// exists. The system is upgraded with pacman, or with paru when the AUR is
/// enabled. A missing snapshot is reported and skipped, not an error.
pub fn noninteractive_update(snapshot: &str, exists: bool, options: &SnapshotConfig) -> (r: AutoUpdate)
    requires
        exists ==> aur_valid(options),
    ensures
        !exists ==> (r matches AutoUpdate::Skip(m) && m@ == crate::error::missing_msg("upgrade"@, snapshot@)),
        exists ==> (r matches AutoUpdate::Run(p) && {
            let root = snapshot_root("chr"@, snapshot@);
            &&& is_command(p.keyring, "chroot"@, seq![root, "pacman"@, "-Sy"@, "--noconfirm"@, "archlinux-keyring"@])
            &&& aur_enabled(options) ==> is_command(p.upgrade, "chroot"@, seq![root, "su"@, "aur"@, "-c"@, "paru -Syyu --noconfirm"@])
            &&& !aur_enabled(options) ==> is_command(p.upgrade, "chroot"@, seq![root, "pacman"@, "--noconfirm"@, "-Syyu"@])
        }),
{
    if !exists {
        return AutoUpdate::Skip(crate::error::missing("upgrade", snapshot).message);
    }
    let mut k: Vec<String> = Vec::new();
    k.push(root_of("chr", snapshot));
    k.push(text("pacman"));
    k.push(text("-Sy"));
    k.push(text("--noconfirm"));
    k.push(text("archlinux-keyring"));
    let keyring = Command { program: text("chroot"), args: k };
    let upgrade = if aur_check(options) {
        as_aur_user(root_of("chr", snapshot), text("paru -Syyu --noconfirm"))
    } else {
        let mut u: Vec<String> = Vec::new();
        u.push(root_of("chr", snapshot));
        u.push(text("pacman"));
        u.push(text("--noconfirm"));
        u.push(text("-Syyu"));
        Command { program: text("chroot"), args: u }
    };
    AutoUpdate::Run(UpdatePlan { keyring, upgrade })
}

/// paru's arguments for an upgrade; the live form names the confirmation
/// flag explicitly.
pub open spec fn paru_upgrade(noconfirm: bool, live: bool) -> Seq<char> {
    if noconfirm {
        "paru --noconfirm -Syyu"@
    } else if live {
        "paru --confirm -Syyu"@
    } else {
        "paru -Syyu"@
    }
}

/// The commands of an interactive upgrade: of the chroot copy of
/// `snapshot`, or, when `live`, of the running system mounted at slot
/// `snapshot`.
pub fn upgrade_commands(snapshot: &str, noconfirm: bool, live: bool, options: &SnapshotConfig) -> (r: UpdatePlan)
    requires
        aur_valid(options),
    ensures
        ({
            let root = snapshot_root(if live { Seq::empty() } else { "chr"@ }, snapshot@);
            &&& is_command(r.keyring, "chroot"@, seq![root, "pacman"@, confirm_flag(noconfirm), "-Syy"@, "archlinux-keyring"@])
            &&& !aur_enabled(options) ==> is_command(r.upgrade, "chroot"@, seq![root, "pacman"@, confirm_flag(noconfirm), "-Syyu"@])
            &&& aur_enabled(options) ==> is_command(r.upgrade, "sh"@, seq![
                "-c"@,
                "chroot "@ + root + " su aur -c '"@ + paru_upgrade(noconfirm, live) + "'"@,
            ])
        }),
{
    let chr = if live { "" } else { "chr" };
    proof { reveal_strlit(""); }
    let flag = if noconfirm { "--noconfirm" } else { "--confirm" };
    let mut k: Vec<String> = Vec::new();
    k.push(root_of(chr, snapshot));
    k.push(text("pacman"));
    k.push(text(flag));
    k.push(text("-Syy"));
    k.push(text("archlinux-keyring"));
    let keyring = Command { program: text("chroot"), args: k };
    let upgrade = if aur_check(options) {
        let paru = if noconfirm { "paru --noconfirm -Syyu" } else if live { "paru --confirm -Syyu" } else { "paru -Syyu" };
        let root = root_of(chr, snapshot);
        let a = around("chroot ", root.as_str(), " su aur -c '");
        let script = around(a.as_str(), paru, "'");
        shell(script)
    } else {
        let mut u: Vec<String> = Vec::new();
        u.push(root_of(chr, snapshot));
        u.push(text("pacman"));
        u.push(text(flag));
        u.push(text("-Syyu"));
        Command { program: text("chroot"), args: u }
    };
    UpdatePlan { keyring, upgrade }
}


/// The command that enables (or, without `enable`, disables) a systemd
/// service in the chroot copy of `snapshot`.
pub fn service_command(snapshot: &str, service: &str, enable: bool) -> (c: Command)
    ensures
        is_command(c, "chroot"@, seq![
            snapshot_root("chr"@, snapshot@),
            "systemctl"@,
            if enable { "enable"@ } else { "disable"@ },
            service@,
        ]),
{
    let mut args: Vec<String> = Vec::new();
    args.push(root_of("chr", snapshot));
    args.push(text("systemctl"));
    args.push(if enable { text("enable") } else { text("disable") });
    args.push(text(service));
    Command { program: text("chroot"), args }
}

/// The text of each name.
pub open spec fn names_view(v: Seq<String>) -> Seq<Seq<char>> {
    v.map_values(|n: String| n@)
}

/// The order in which package names are listed.
pub open spec fn name_order() -> spec_fn(Seq<char>, Seq<char>) -> bool {
    |a: Seq<char>, b: Seq<char>| crate::text::text_le(a, b)
}

/// The names, in order, whose flag says the first snapshot lacks them.
pub open spec fn lacking(names: Seq<String>, in_first: Seq<bool>) -> Seq<Seq<char>>
    decreases names.len(),
{
    if names.len() == 0 {
        Seq::empty()
    } else {
        let rest = lacking(names.drop_last(), in_first.drop_last());
        if in_first[names.len() - 1] { rest } else { rest.push(names.last()@) }
    }
}

/// Inserting `x` at `p` into a sorted sequence keeps it sorted when what
/// comes before `p` comes no later than `x` and what stands at `p` does not.
proof fn lemma_insert_sorted(sv: Seq<Seq<char>>, p: int, x: Seq<char>)
    requires
        0 <= p <= sv.len(),
        vstd::relations::sorted_by(sv, name_order()),
        forall|i: int| 0 <= i < p ==> crate::text::text_le(#[trigger] sv[i], x),
        p < sv.len() ==> !crate::text::text_le(sv[p], x),
    ensures
        vstd::relations::sorted_by(sv.insert(p, x), name_order()),
{
    let t = sv.insert(p, x);
    if p < sv.len() {
        crate::text::lemma_text_le_total(sv[p], x);
    }
    assert forall|i: int, j: int| 0 <= i < j < t.len() implies #[trigger] crate::text::text_le(t[i], t[j]) by {
        assert((name_order())(t[i], t[j]) == crate::text::text_le(t[i], t[j]));
        if j < p {
            assert((name_order())(sv[i], sv[j]));
        } else if j == p {
            assert(t[i] == sv[i]);
        } else if i < p {
            assert(t[j] == sv[j - 1]);
            assert((name_order())(sv[i], sv[j - 1]));
        } else if i == p {
            assert(t[j] == sv[j - 1]);
            if j - 1 > p {
                assert((name_order())(sv[p], sv[j - 1]));
                crate::text::lemma_text_le_transitive(x, sv[p], sv[j - 1]);
            }
        } else {
            assert(t[i] == sv[i - 1] && t[j] == sv[j - 1]);
            assert((name_order())(sv[i - 1], sv[j - 1]));
        }
    }
}

/// The packages of a second snapshot that a first one lacks, sorted by name:
/// out of the package directories of the second snapshot's database, named
/// in `names`, those whose flag in `in_first` says the first has none.
pub fn packages_lacking(names: &Vec<String>, in_first: &Vec<bool>) -> (r: Vec<String>)
    requires
        names@.len() == in_first@.len(),
    ensures
        vstd::relations::sorted_by(names_view(r@), name_order()),
        names_view(r@).to_multiset() == lacking(names@, in_first@).to_multiset(),
{
    let mut out: Vec<String> = Vec::new();
    let mut k: usize = 0;
    assert(names_view(out@).to_multiset() =~= lacking(names@.take(0), in_first@.take(0)).to_multiset()) by {
        assert(names_view(out@) =~= Seq::<Seq<char>>::empty());
        assert(lacking(names@.take(0), in_first@.take(0)) =~= Seq::<Seq<char>>::empty());
    }
    while k < names.len()
        invariant
            k <= names@.len(),
            names@.len() == in_first@.len(),
            vstd::relations::sorted_by(names_view(out@), name_order()),
            names_view(out@).to_multiset() == lacking(names@.take(k as int), in_first@.take(k as int)).to_multiset(),
        decreases names@.len() - k,
    {
        proof {
            let nk = names@.take(k + 1);
            assert(nk.drop_last() =~= names@.take(k as int));
            assert(in_first@.take(k + 1).drop_last() =~= in_first@.take(k as int));
            assert(nk.last() == names@[k as int]);
            assert(in_first@.take(k + 1)[k as int] == in_first@[k as int]);
        }
        if !in_first[k] {
            let x = chars_of(names[k].as_str());
            let ghost sv = names_view(out@);
            let mut p: usize = 0;
            while p < out.len() && text_le_of(&out[p], &x)
                invariant
                    p <= out@.len(),
                    sv == names_view(out@),
                    forall|i: int| 0 <= i < p ==> crate::text::text_le(#[trigger] sv[i], x@),
                decreases out@.len() - p,
            {
                p = p + 1;
            }
            proof {
                lemma_insert_sorted(sv, p as int, x@);
            }
            out.insert(p, names[k].clone());
            proof {
                assert(names_view(out@) =~= sv.insert(p as int, names@[k as int]@));
                vstd::seq_lib::to_multiset_insert(sv, p as int, names@[k as int]@);
                assert(names_view(out@).to_multiset() == sv.to_multiset().insert(names@[k as int]@));
                assert(lacking(names@.take(k + 1), in_first@.take(k + 1)) == lacking(
                    names@.take(k as int),
                    in_first@.take(k as int),
                ).push(names@[k as int]@));
                vstd::seq_lib::to_multiset_build(
                    lacking(names@.take(k as int), in_first@.take(k as int)),
                    names@[k as int]@,
                );
            }
        }
        k = k + 1;
    }
    assert(names@.take(k as int) =~= names@);
    assert(in_first@.take(k as int) =~= in_first@);
    out
}

/// Whether name `a` comes no later than the text `b`.
fn text_le_of(a: &String, b: &Vec<char>) -> (r: bool)
    ensures
        r == crate::text::text_le(a@, b@),
{
    let v = chars_of(a.as_str());
    crate::text::text_le_chars(v.as_slice(), b.as_slice())
}

/// The packages inherited in a sync are exactly those of the source that
/// the target lacks, each in the order of the source: the source's names
/// filtered by not being listed in the target. So every package of the
/// source that the target lacks is inherited, and no other.
pub proof fn lemma_inherit_is_filter(from: Seq<String>, to: Seq<String>)
    ensures
        missing_from(from, to) == names_view(from).filter(not_listed_in(to)),
    decreases from.len(),
{
    let v = names_view(from);
    if from.len() > 0 {
        lemma_inherit_is_filter(from.drop_last(), to);
        assert(v.drop_last() =~= names_view(from.drop_last()));
        assert(v.last() == from.last()@);
        assert(v =~= v.drop_last().push(v.last()));
        v.drop_last().lemma_filter_push(v.last(), not_listed_in(to));
    } else {
        assert(v =~= Seq::<Seq<char>>::empty());
        reveal(Seq::filter);
    }
}

/// The names that `to` does not list.
pub open spec fn not_listed_in(to: Seq<String>) -> spec_fn(Seq<char>) -> bool {
    |x: Seq<char>| !lists(to, x)
}

/// Asking for no confirmation adds the flag `--noconfirm ` right after the
/// verb of each install script, and changes nothing else; each script ends
/// with the package it installs.
pub proof fn lemma_install_noconfirm(pkg: Seq<char>)
    ensures
        pacman_script(pkg, true) == pacman_script(pkg, false).take(10) + "--noconfirm "@ + pacman_script(pkg, false).skip(10),
        pacman_script(pkg, false).take(10) == "pacman -S "@,
        paru_script(pkg, true) == paru_script(pkg, false).take(8) + "--noconfirm "@ + paru_script(pkg, false).skip(8),
        paru_script(pkg, false).take(8) == "paru -S "@,
        live_pacman_script(pkg, true) == live_pacman_script(pkg, false).take(11) + "--noconfirm "@
            + live_pacman_script(pkg, false).skip(11),
        live_pacman_script(pkg, false).take(11) == "pacman -Sy "@,
        live_paru_script(pkg, true) == live_paru_script(pkg, false).take(9) + "--noconfirm "@
            + live_paru_script(pkg, false).skip(9),
        live_paru_script(pkg, false).take(9) == "paru -Sy "@,
        forall|b: bool| #[trigger] pacman_script(pkg, b) == pacman_script(Seq::empty(), b) + pkg,
        forall|b: bool| #[trigger] paru_script(pkg, b) == paru_script(Seq::empty(), b) + pkg,
        forall|b: bool| #[trigger] live_pacman_script(pkg, b) == live_pacman_script(Seq::empty(), b) + pkg,
        forall|b: bool| #[trigger] live_paru_script(pkg, b) == live_paru_script(Seq::empty(), b) + pkg,
{
    reveal_strlit("pacman -S --noconfirm --needed --overwrite '/var/*' ");
    reveal_strlit("pacman -S --needed --overwrite '/var/*' ");
    reveal_strlit("paru -S --noconfirm --needed --overwrite '/var/*' ");
    reveal_strlit("paru -S --needed --overwrite '/var/*' ");
    reveal_strlit("pacman -Sy --noconfirm --overwrite '*' ");
    reveal_strlit("pacman -Sy --overwrite '*' ");
    reveal_strlit("paru -Sy --noconfirm --overwrite '*' ");
    reveal_strlit("paru -Sy --overwrite '*' ");
    reveal_strlit("--noconfirm ");
    reveal_strlit("pacman -S ");
    reveal_strlit("paru -S ");
    reveal_strlit("pacman -Sy ");
    reveal_strlit("paru -Sy ");
    let e = Seq::<char>::empty();
    assert(pacman_script(pkg, true) =~= pacman_script(pkg, false).take(10) + "--noconfirm "@ + pacman_script(pkg, false).skip(10));
    assert(pacman_script(pkg, false).take(10) =~= "pacman -S "@);
    assert(paru_script(pkg, true) =~= paru_script(pkg, false).take(8) + "--noconfirm "@ + paru_script(pkg, false).skip(8));
    assert(paru_script(pkg, false).take(8) =~= "paru -S "@);
    assert(live_pacman_script(pkg, true) =~= live_pacman_script(pkg, false).take(11) + "--noconfirm "@
        + live_pacman_script(pkg, false).skip(11));
    assert(live_pacman_script(pkg, false).take(11) =~= "pacman -Sy "@);
    assert(live_paru_script(pkg, true) =~= live_paru_script(pkg, false).take(9) + "--noconfirm "@
        + live_paru_script(pkg, false).skip(9));
    assert(live_paru_script(pkg, false).take(9) =~= "paru -Sy "@);
    assert forall|b: bool| #[trigger] pacman_script(pkg, b) == pacman_script(e, b) + pkg by {
        assert(pacman_script(pkg, b) =~= pacman_script(e, b) + pkg);
    }
    assert forall|b: bool| #[trigger] paru_script(pkg, b) == paru_script(e, b) + pkg by {
        assert(paru_script(pkg, b) =~= paru_script(e, b) + pkg);
    }
    assert forall|b: bool| #[trigger] live_pacman_script(pkg, b) == live_pacman_script(e, b) + pkg by {
        assert(live_pacman_script(pkg, b) =~= live_pacman_script(e, b) + pkg);
    }
    assert forall|b: bool| #[trigger] live_paru_script(pkg, b) == live_paru_script(e, b) + pkg by {
        assert(live_paru_script(pkg, b) =~= live_paru_script(e, b) + pkg);
    }
}

/// Asking for no confirmation in an AUR upgrade gives the same paru script
/// whether the upgrade is live or in a chroot: the flag `--noconfirm `
/// right after `paru `, in front of the arguments of a plain upgrade.
pub proof fn lemma_upgrade_noconfirm(live: bool)
    ensures
        paru_upgrade(true, live) == paru_upgrade(true, !live),
        paru_upgrade(true, live) == paru_upgrade(false, false).take(5) + "--noconfirm "@ + paru_upgrade(false, false).skip(5),
        paru_upgrade(false, false).take(5) == "paru "@,
{
    reveal_strlit("paru --noconfirm -Syyu");
    reveal_strlit("paru --confirm -Syyu");
    reveal_strlit("paru -Syyu");
    reveal_strlit("--noconfirm ");
    reveal_strlit("paru ");
    assert(paru_upgrade(true, live) =~= paru_upgrade(false, false).take(5) + "--noconfirm "@ + paru_upgrade(false, false).skip(5));
    assert(paru_upgrade(false, false).take(5) =~= "paru "@);
}

} // verus!
