//! The decisions that snapshot operations take between their filesystem
//! steps.
//!
//! An operation that changes a snapshot first checks it, then works on a
//! chroot copy of it, and at the end either commits the copy back or
//! discards it. Each function here takes what the caller observed (whether
//! a subvolume exists, whether a helper succeeded) and says what to do next.
use vstd::prelude::*;
use crate::text::{chars_of, push_all, string_of, str_replace, replace_any};
use crate::error::{
    AshError, ErrorKind, around, base_msg, change_guard, error_of, fails_with, guard_error, in_use_msg,
    is_base, missing, missing_msg,
};

verus! {

/// The next step of an operation on a snapshot.
#[derive(Debug)]
pub enum Step {
    /// Stop with this error before anything is touched.
    Refuse(AshError),
    /// Prepare the chroot copy and run the helper.
    Run,
    /// Keep the changes: copy the chroot back into the snapshot.
    Commit,
    /// Drop the chroot copy, then fail with this error.
    Discard(AshError),
    /// Drop the chroot copy, report this message, and succeed.
    DiscardQuietly(String),
}

/// `r` is the step that the checks `guard` call for, and `Run` when they
/// pass.
pub open spec fn starts_as(r: Step, guard: Option<(ErrorKind, Seq<char>)>) -> bool {
    match guard {
        None => r is Run,
        Some(k) => match r {
            Step::Refuse(e) => e.kind == k.0 && e.message@ == k.1,
            _ => false,
        },
    }
}

/// `r` discards the changes and fails with an error of kind `k` and message `m`.
pub open spec fn discards_with(r: Step, k: ErrorKind, m: Seq<char>) -> bool {
    match r {
        Step::Discard(e) => e.kind == k && e.message@ == m,
        _ => false,
    }
}

fn start(guard: Result<(), AshError>) -> (r: Step)
    ensures
        guard is Ok ==> r is Run,
        guard matches Err(e) ==> (r matches Step::Refuse(x) && x == e),
{
    match guard {
        Ok(()) => Step::Run,
        Err(e) => Step::Refuse(e),
    }
}

/// Installing packages in `snapshot`. `exists` and `held` say whether the
/// snapshot and a chroot copy of it exist; `helper` is `None` before the
/// package helper ran and its success after.
pub fn install(snapshot: &str, exists: bool, held: bool, helper: Option<bool>) -> (r: Step)
    ensures
        helper is None ==> starts_as(r, guard_error("install"@, snapshot@, exists, held)),
        helper == Some(true) ==> r is Commit,
        helper == Some(false) ==> discards_with(r, ErrorKind::Interrupted, "Install failed and changes discarded."@),
{
    match helper {
        None => start(change_guard("install", snapshot, exists, held)),
        Some(true) => Step::Commit,
        Some(false) => Step::Discard(error_of(ErrorKind::Interrupted, "Install failed and changes discarded.")),
    }
}

/// Removing packages from `snapshot`; a failed removal is reported, not
/// returned as an error.
pub fn uninstall(snapshot: &str, exists: bool, held: bool, helper: Option<bool>) -> (r: Step)
    ensures
        helper is None ==> starts_as(r, guard_error("remove"@, snapshot@, exists, held)),
        helper == Some(true) ==> r is Commit,
        helper == Some(false) ==> (r matches Step::DiscardQuietly(m) && m@ == "Remove failed and changes discarded."@),
{
    match helper {
        None => start(change_guard("remove", snapshot, exists, held)),
        Some(true) => Step::Commit,
        Some(false) => {
            let m = chars_of("Remove failed and changes discarded.");
            Step::DiscardQuietly(string_of(m.as_slice()))
        },
    }
}

/// The checks before an upgrade: like those of other changes, except that
/// the base snapshot may be upgraded when `baseup` is set.
pub open spec fn upgrade_guard(s: Seq<char>, baseup: bool, exists: bool, held: bool) -> Option<(ErrorKind, Seq<char>)> {
    if !exists {
        Some((ErrorKind::NotFound, missing_msg("upgrade"@, s)))
    } else if held {
        Some((ErrorKind::Unsupported, in_use_msg(s)))
    } else if s == "0"@ && !baseup {
        Some((ErrorKind::Unsupported, base_msg()))
    } else {
        None
    }
}

/// Upgrading `snapshot`; with `baseup` the base snapshot may be upgraded.
pub fn upgrade(snapshot: &str, baseup: bool, exists: bool, held: bool, helper: Option<bool>) -> (r: Step)
    ensures
        helper is None ==> starts_as(r, upgrade_guard(snapshot@, baseup, exists, held)),
        helper == Some(true) ==> r is Commit,
        helper == Some(false) ==> discards_with(r, ErrorKind::Other, "Upgrade failed and changes discarded."@),
{
    match helper {
        None => {
            if !exists {
                Step::Refuse(missing("upgrade", snapshot))
            } else if held {
                Step::Refuse(crate::error::in_use(snapshot))
            } else if is_base(snapshot) && !baseup {
                Step::Refuse(error_of(ErrorKind::Unsupported, "Changing base snapshot is not allowed."))
            } else {
                Step::Run
            }
        },
        Some(true) => Step::Commit,
        Some(false) => Step::Discard(error_of(ErrorKind::Other, "Upgrade failed and changes discarded.")),
    }
}

/// The prompt shown once a snapshot is hollow.
pub open spec fn hollow_prompt(s: Seq<char>) -> Seq<char> {
    "Snapshot "@ + s + " is now hollow! Whenever done, type yes to deploy and no to discard"@
}

/// Making `snapshot` hollow: after the checks, the prompt to show; once
/// answered (`deploy`), `Commit` deploys the snapshot and a refusal discards
/// it with the error `No changes applied on snapshot <s>.`.
pub fn hollow(snapshot: &str, exists: bool, held: bool, deploy: Option<bool>) -> (r: Result<String, Step>)
    ensures
        deploy is None ==> match guard_error("make hollow"@, snapshot@, exists, held) {
            None => r matches Ok(p) && p@ == hollow_prompt(snapshot@),
            Some(k) => r matches Err(Step::Refuse(e)) && e.kind == k.0 && e.message@ == k.1,
        },
        deploy == Some(true) ==> r matches Err(Step::Commit),
        deploy == Some(false) ==> (r matches Err(s) && discards_with(s, ErrorKind::Interrupted,
            "No changes applied on snapshot "@ + snapshot@ + "."@)),
{
    match deploy {
        None => match change_guard("make hollow", snapshot, exists, held) {
            Ok(()) => Ok(around("Snapshot ", snapshot, " is now hollow! Whenever done, type yes to deploy and no to discard")),
            Err(e) => Err(Step::Refuse(e)),
        },
        Some(true) => Err(Step::Commit),
        Some(false) => {
            let m = around("No changes applied on snapshot ", snapshot, ".");
            Err(Step::Discard(AshError { kind: ErrorKind::Interrupted, message: m }))
        },
    }
}

/// The message for an attempt to change the mutability of the base snapshot.
pub open spec fn base_mutability_msg() -> Seq<char> {
    "Snapshot 0 (base) should not be modified."@
}

/// The checks before a snapshot is made mutable (`mutable_now` false) or
/// immutable (`mutable_now` true) again: not the base snapshot, existing,
/// and not already in the requested state.
pub open spec fn mutability_guard(s: Seq<char>, make_mutable: bool, exists: bool, mutable_now: bool) -> Option<(ErrorKind, Seq<char>)> {
    if s == "0"@ {
        Some((ErrorKind::Unsupported, base_mutability_msg()))
    } else if !exists {
        Some((ErrorKind::NotFound, "Snapshot "@ + s + " doesn't exist."@))
    } else if make_mutable && mutable_now {
        Some((ErrorKind::AlreadyExists, "Snapshot "@ + s + " is already mutable."@))
    } else if !make_mutable && !mutable_now {
        Some((ErrorKind::AlreadyExists, "Snapshot "@ + s + " is already immutable."@))
    } else {
        None
    }
}

fn mutability_check(snapshot: &str, make_mutable: bool, exists: bool, mutable_now: bool) -> (r: Result<(), AshError>)
    ensures
        fails_with(r, mutability_guard(snapshot@, make_mutable, exists, mutable_now)),
{
    if is_base(snapshot) {
        Err(error_of(ErrorKind::Unsupported, "Snapshot 0 (base) should not be modified."))
    } else if !exists {
        Err(AshError { kind: ErrorKind::NotFound, message: around("Snapshot ", snapshot, " doesn't exist.") })
    } else if make_mutable && mutable_now {
        Err(AshError { kind: ErrorKind::AlreadyExists, message: around("Snapshot ", snapshot, " is already mutable.") })
    } else if !make_mutable && !mutable_now {
        Err(AshError { kind: ErrorKind::AlreadyExists, message: around("Snapshot ", snapshot, " is already immutable.") })
    } else {
        Ok(())
    }
}

/// The checks before `snapshot` is made mutable.
pub fn immutability_disable(snapshot: &str, exists: bool, mutable_now: bool) -> (r: Result<(), AshError>)
    ensures
        fails_with(r, mutability_guard(snapshot@, true, exists, mutable_now)),
{
    mutability_check(snapshot, true, exists, mutable_now)
}

/// The checks before `snapshot` is made immutable again.
pub fn immutability_enable(snapshot: &str, exists: bool, mutable_now: bool) -> (r: Result<(), AshError>)
    ensures
        fails_with(r, mutability_guard(snapshot@, false, exists, mutable_now)),
{
    mutability_check(snapshot, false, exists, mutable_now)
}

/// The mark that a mutable snapshot's description carries.
pub open spec fn mutable_mark() -> Seq<char> {
    " MUTABLE "@
}

/// A description with the mutability mark added.
pub fn mutable_desc(desc: &str) -> (r: String)
    ensures
        r@ == desc@ + mutable_mark(),
{
    proof { reveal_strlit(""); }
    around("", desc, " MUTABLE ")
}

/// A description with every mutability mark removed.
pub fn immutable_desc(desc: &str) -> (r: String)
    ensures
        r@ == str_replace(desc@, mutable_mark(), Seq::empty()),
{
    let d = chars_of(desc);
    let m = chars_of(" MUTABLE ");
    let none: Vec<char> = Vec::new();
    let r = replace_any(d.as_slice(), m.as_slice(), none.as_slice());
    assert(none@ =~= Seq::<char>::empty());
    string_of(r.as_slice())
}

/// The checks before snapshot `s` is deleted: never the base snapshot; and
/// unless `nuke`, it must exist and be neither the running snapshot nor the
/// one deployed next.
pub open spec fn delete_guard(s: Seq<char>, nuke: bool, exists: bool, current: Seq<char>, next: Seq<char>) -> Option<(ErrorKind, Seq<char>)> {
    if s == "0"@ {
        Some((ErrorKind::Unsupported, base_msg()))
    } else if nuke {
        None
    } else if !exists {
        Some((ErrorKind::NotFound, missing_msg("delete"@, s)))
    } else if s == current {
        Some((ErrorKind::Unsupported, "Cannot delete booted snapshot."@))
    } else if s == next {
        Some((ErrorKind::Unsupported, "Cannot delete deployed snapshot."@))
    } else {
        None
    }
}

/// The checks before `snapshot` is deleted.
pub fn delete_check(snapshot: &str, nuke: bool, exists: bool, current: &str, next: &str) -> (r: Result<(), AshError>)
    ensures
        fails_with(r, delete_guard(snapshot@, nuke, exists, current@, next@)),
{
    if is_base(snapshot) {
        return Err(error_of(ErrorKind::Unsupported, "Changing base snapshot is not allowed."));
    }
    if nuke {
        return Ok(());
    }
    let s = chars_of(snapshot);
    let c = chars_of(current);
    let n = chars_of(next);
    if !exists {
        Err(missing("delete", snapshot))
    } else if crate::config::vec_eq(&s, &c) {
        Err(error_of(ErrorKind::Unsupported, "Cannot delete booted snapshot."))
    } else if crate::config::vec_eq(&s, &n) {
        Err(error_of(ErrorKind::Unsupported, "Cannot delete deployed snapshot."))
    } else {
        Ok(())
    }
}

/// The question asked before a snapshot is deleted.
pub fn delete_prompt(snapshot: &str) -> (r: String)
    ensures
        r@ == "Are you sure you want to delete snapshot "@ + snapshot@ + "?"@,
{
    around("Are you sure you want to delete snapshot ", snapshot, "?")
}

/// What a snapshot made by cloning is described as: the given description,
/// or `clone of <source>.` when none is given.
pub open spec fn clone_desc_text(source: Seq<char>, desc: Seq<char>) -> Seq<char> {
    if desc.len() == 0 { "clone of "@ + source + "."@ } else { desc }
}

/// The description of a clone of `source`.
pub fn clone_description(source: &str, desc: &str) -> (r: String)
    ensures
        r@ == clone_desc_text(source@, desc@),
{
    let d = chars_of(desc);
    if d.len() == 0 {
        around("clone of ", source, ".")
    } else {
        string_of(d.as_slice())
    }
}

/// The checks of the package-database repair: `snapshot` is empty for the
/// running system, `held` says whether a chroot copy exists, `current` is
/// the running snapshot.
pub open spec fn fixdb_guard(s: Seq<char>, exists: bool, held: bool, current: Seq<char>) -> Option<(ErrorKind, Seq<char>)> {
    if !exists && s.len() > 0 {
        Some((ErrorKind::NotFound, "Cannot fix package man database as snapshot "@ + s + " doesn't exist."@))
    } else if held {
        Some((ErrorKind::Unsupported, "Snapshot "@ + s
            + " appears to be in use. If you're certain it's not in use, clear lock with 'ash unlock -s "@ + s + "'."@))
    } else if s.len() == 0 && current == "0"@ {
        Some((ErrorKind::Unsupported, base_mutability_msg()))
    } else if s == "0"@ {
        Some((ErrorKind::Unsupported, base_mutability_msg()))
    } else {
        None
    }
}

/// How the package database is repaired: in a chroot copy of the snapshot
/// or in the running system, and whether the snapshot must be made mutable
/// for it and immutable again after.
#[derive(Debug)]
pub struct FixStart {
    pub chroot: bool,
    pub flip: bool,
}

/// Starts the repair of the package database of `snapshot` (the running
/// system when empty); `mutable` says whether the snapshot is mutable.
pub fn fixdb(snapshot: &str, exists: bool, held: bool, current: &str, mutable: bool) -> (r: Result<FixStart, AshError>)
    ensures
        fails_with(r, fixdb_guard(snapshot@, exists, held, current@)),
        r matches Ok(f) ==> f.chroot == (snapshot@.len() > 0) && f.flip == !mutable,
{
    let sv = chars_of(snapshot);
    let empty = sv.len() == 0;
    if !exists && !empty {
        return Err(AshError {
            kind: ErrorKind::NotFound,
            message: around("Cannot fix package man database as snapshot ", snapshot, " doesn't exist."),
        });
    }
    if held {
        let first = around(
            "Snapshot ",
            snapshot,
            " appears to be in use. If you're certain it's not in use, clear lock with 'ash unlock -s ",
        );
        let m = around(first.as_str(), snapshot, "'.");
        return Err(AshError { kind: ErrorKind::Unsupported, message: m });
    }
    if empty && is_base(current) {
        return Err(error_of(ErrorKind::Unsupported, "Snapshot 0 (base) should not be modified."));
    }
    if is_base(snapshot) {
        return Err(error_of(ErrorKind::Unsupported, "Snapshot 0 (base) should not be modified."));
    }
    Ok(FixStart { chroot: !empty, flip: !mutable })
}

/// The commands of the repair, in order. The three removals come first, each
/// only when the keyring, the user's GnuPG home or the sync database holds
/// anything; a repair in a chroot also refreshes the databases and
/// reinstalls the keyring.
pub open spec fn fixdb_command_texts(chroot: bool, keyring: bool, user_gnupg: bool, sync_db: bool, home: Seq<char>, user: Seq<char>) -> Seq<Seq<char>> {
    let removals = (if keyring { seq!["rm -rf /etc/pacman.d/gnupg"@] } else { Seq::empty() })
        + (if user_gnupg { seq!["rm -rf "@ + home + "/.gnupg"@] } else { Seq::empty() })
        + (if sync_db { seq!["rm -r /var/lib/pacman/sync/*"@] } else { Seq::empty() });
    let keys = seq!["sudo -u "@ + user + " gpg --refresh-keys"@, "pacman-key --init"@, "pacman-key --populate archlinux"@];
    if chroot {
        removals + seq!["pacman -Syy"@] + keys + seq!["pacman -Syvv --noconfirm archlinux-keyring"@]
    } else {
        removals + keys
    }
}

fn push_text(v: &mut Vec<String>, s: &str)
    ensures
        final(v)@.len() == old(v)@.len() + 1,
        forall|i: int| 0 <= i < old(v)@.len() ==> #[trigger] final(v)@[i] == old(v)@[i],
        final(v)@[old(v)@.len() as int]@ == s@,
{
    let c = chars_of(s);
    v.push(string_of(c.as_slice()));
}

/// The commands of the repair.
pub fn fixdb_commands(chroot: bool, keyring: bool, user_gnupg: bool, sync_db: bool, home: &str, user: &str) -> (r: Vec<String>)
    ensures
        r@.map_values(|s: String| s@) == fixdb_command_texts(chroot, keyring, user_gnupg, sync_db, home@, user@),
{
    let mut r: Vec<String> = Vec::new();
    if keyring {
        push_text(&mut r, "rm -rf /etc/pacman.d/gnupg");
    }
    if user_gnupg {
        let s = around("rm -rf ", home, "/.gnupg");
        r.push(s);
    }
    if sync_db {
        push_text(&mut r, "rm -r /var/lib/pacman/sync/*");
    }
    if chroot {
        push_text(&mut r, "pacman -Syy");
    }
    let s = around("sudo -u ", user, " gpg --refresh-keys");
    r.push(s);
    push_text(&mut r, "pacman-key --init");
    push_text(&mut r, "pacman-key --populate archlinux");
    if chroot {
        push_text(&mut r, "pacman -Syvv --noconfirm archlinux-keyring");
    }
    assert(r@.map_values(|s: String| s@) =~= fixdb_command_texts(chroot, keyring, user_gnupg, sync_db, home@, user@));
    r
}

/// The shell text that runs one repair command: in the chroot copy of
/// `snapshot`, or as it is.
pub fn fixdb_shell(snapshot: &str, cmd: &str, chroot: bool) -> (r: String)
    ensures
        chroot ==> r@ == "chroot /.snapshots/rootfs/snapshot-chr"@ + snapshot@ + " "@ + cmd@,
        !chroot ==> r@ == cmd@,
{
    if chroot {
        let a = around("chroot /.snapshots/rootfs/snapshot-chr", snapshot, " ");
        proof { reveal_strlit(""); }
        around(a.as_str(), cmd, "")
    } else {
        proof { reveal_strlit(""); }
        around("", cmd, "")
    }
}

/// The error for a repair command that failed.
pub fn command_failed(cmd: &str) -> (e: AshError)
    ensures
        e.kind == ErrorKind::Other,
        e.message@ == "Run command "@ + cmd@ + " failed."@,
{
    AshError { kind: ErrorKind::Other, message: around("Run command ", cmd, " failed.") }
}

/// What the repair does next.
#[derive(Debug)]
pub enum FixNext {
    /// Run this shell text.
    Run(String),
    /// Stop with this error: a command failed. The snapshot is left as the
    /// repair made it, mutable if it was made so.
    Stop(AshError),
    /// All commands ran; `restore` says whether the snapshot is made
    /// immutable again.
    Finish { restore: bool },
}

/// The next step of a repair of `snapshot` begun as `start`, with the
/// commands `cmds`, of which the first `done` have run; `last_ok` says
/// whether the last of them succeeded. A failed command ends the repair.
pub fn fixdb_next(snapshot: &str, start: &FixStart, cmds: &Vec<String>, done: usize, last_ok: bool) -> (r: FixNext)
    requires
        done <= cmds@.len(),
    ensures
        done > 0 && !last_ok ==> (r matches FixNext::Stop(e) && e.kind == ErrorKind::Other && e.message@
            == "Run command "@ + cmds@[done - 1]@ + " failed."@),
        (done == 0 || last_ok) && done < cmds@.len() ==> (r matches FixNext::Run(t) && (start.chroot ==> t@
            == "chroot /.snapshots/rootfs/snapshot-chr"@ + snapshot@ + " "@ + cmds@[done as int]@) && (!start.chroot
            ==> t@ == cmds@[done as int]@)),
        (done == 0 || last_ok) && done == cmds@.len() ==> r == (FixNext::Finish { restore: start.flip }),
{
    if done > 0 && !last_ok {
        FixNext::Stop(command_failed(cmds[done - 1].as_str()))
    } else if done < cmds.len() {
        FixNext::Run(fixdb_shell(snapshot, cmds[done].as_str(), start.chroot))
    } else {
        FixNext::Finish { restore: start.flip }
    }
}


/// The answer that a reply to a yes-or-no question gives once trimmed and
/// put in lower case: `yes` or `y`, `no` or `n`; anything else is no answer.
pub open spec fn answer_text(lowered: Seq<char>) -> Option<bool> {
    if lowered == "yes"@ || lowered == "y"@ {
        Some(true)
    } else if lowered == "no"@ || lowered == "n"@ {
        Some(false)
    } else {
        None
    }
}

/// The answer in a reply that is already trimmed and in lower case.
pub fn answer_of(lowered: &str) -> (r: Option<bool>)
    ensures
        r == answer_text(lowered@),
{
    let l = chars_of(lowered);
    let yes = chars_of("yes");
    let y = chars_of("y");
    let no = chars_of("no");
    let n = chars_of("n");
    if crate::config::vec_eq(&l, &yes) || crate::config::vec_eq(&l, &y) {
        Some(true)
    } else if crate::config::vec_eq(&l, &no) || crate::config::vec_eq(&l, &n) {
        Some(false)
    } else {
        None
    }
}

/// The answer in a reply to a yes-or-no question.
pub fn yes_no_answer(reply: &str) -> (r: Option<bool>)
    ensures
        r == answer_text(crate::distro::lowercase(crate::text::trim(reply@))),
{
    let c = chars_of(reply);
    let t = crate::text::trim_chars(c.as_slice());
    let ts = string_of(t.as_slice());
    let low = crate::distro::to_lower(ts.as_str());
    answer_of(low.as_str())
}


/// Making a snapshot mutable and then immutable again gives back its
/// description: removing the marks from a description with the mark added
/// yields the description, provided no mark begins inside it.
pub proof fn lemma_mutability_mark_round_trip(d: Seq<char>)
    requires
        forall|i: int| 0 <= i < d.len() ==> !crate::text::occurs_at(d + mutable_mark(), mutable_mark(), i),
    ensures
        str_replace(d + mutable_mark(), mutable_mark(), Seq::empty()) == d,
{
    reveal_strlit(" MUTABLE ");
    let m = mutable_mark();
    let e = Seq::<char>::empty();
    crate::text::lemma_replace_keep_prefix(d, m, m, e);
    assert(m + e =~= m);
    crate::text::lemma_replace_at_prefix(e, m, e);
    assert(crate::text::replace_all(e, m, e) =~= e);
    assert(d + (e + e) =~= d);
}


/// The base snapshot `0` cannot be changed: every check before a change,
/// a deletion (forced or not), a change of mutability, a repair of the
/// package database, or an upgrade other than a base update refuses it,
/// whatever else holds.
pub proof fn lemma_base_snapshot_protected(
    verb: Seq<char>,
    exists: bool,
    held: bool,
    nuke: bool,
    current: Seq<char>,
    next: Seq<char>,
    make_mutable: bool,
    mutable_now: bool,
)
    ensures
        guard_error(verb, "0"@, exists, held) is Some,
        upgrade_guard("0"@, false, exists, held) is Some,
        delete_guard("0"@, nuke, exists, current, next) is Some,
        mutability_guard("0"@, make_mutable, exists, mutable_now) is Some,
        fixdb_guard("0"@, exists, held, current) is Some,
{
    reveal_strlit("0");
}


/// Which way an install or removal request goes.
#[derive(PartialEq, Eq, Structural, Debug, Clone, Copy)]
pub enum Route {
    Profile,
    Packages,
    UserProfile,
    LiveProfile,
    LivePackages,
    LiveUserProfile,
    /// The live option names a snapshot other than the running one.
    NotCurrent,
    /// Nothing to install or remove.
    Nothing,
}

/// The route of a request: a profile first, then packages, then a user
/// profile; with `live`, the same in the running snapshot, which the request
/// must name.
pub open spec fn route_of(live: bool, is_current: bool, profile: bool, pkgs: bool, user_profile: bool) -> Route {
    if !live {
        if profile { Route::Profile } else if pkgs { Route::Packages } else if user_profile { Route::UserProfile } else { Route::Nothing }
    } else if !is_current {
        Route::NotCurrent
    } else {
        if profile {
            Route::LiveProfile
        } else if pkgs {
            Route::LivePackages
        } else if user_profile {
            Route::LiveUserProfile
        } else {
            Route::Nothing
        }
    }
}

/// The route of an install or removal request for `snapshot`, `current`
/// being the running snapshot.
pub fn triage(snapshot: &str, current: &str, live: bool, profile: &str, pkgs: &Vec<String>, user_profile: &str) -> (r: Route)
    ensures
        r == route_of(live, snapshot@ == current@, profile@.len() > 0, pkgs@.len() > 0, user_profile@.len() > 0),
{
    let s = chars_of(snapshot);
    let c = chars_of(current);
    let is_current = crate::config::vec_eq(&s, &c);
    let has_profile = chars_of(profile).len() > 0;
    let has_user = chars_of(user_profile).len() > 0;
    let has_pkgs = pkgs.len() > 0;
    if !live {
        if has_profile {
            Route::Profile
        } else if has_pkgs {
            Route::Packages
        } else if has_user {
            Route::UserProfile
        } else {
            Route::Nothing
        }
    } else if !is_current {
        Route::NotCurrent
    } else if has_profile {
        Route::LiveProfile
    } else if has_pkgs {
        Route::LivePackages
    } else if has_user {
        Route::LiveUserProfile
    } else {
        Route::Nothing
    }
}

/// The name a profile request is reported under: the user profile when one
/// is given, otherwise the profile.
pub fn profile_label(profile: &str, user_profile: &str) -> (r: String)
    ensures
        r@ == (if user_profile@.len() == 0 { profile@ } else { user_profile@ }),
{
    let u = chars_of(user_profile);
    if u.len() == 0 {
        let p = chars_of(profile);
        string_of(p.as_slice())
    } else {
        string_of(u.as_slice())
    }
}

/// Whether a subvolume path is a temporary chroot copy.
pub fn is_temporary(path: &str) -> (b: bool)
    ensures
        b == (crate::text::contains(path@, "snapshot-chr"@) || crate::text::contains(path@, "etc-chr"@)
            || crate::text::contains(path@, "boot-chr"@)),
{
    let p = chars_of(path);
    let a = chars_of("snapshot-chr");
    let b = chars_of("etc-chr");
    let c = chars_of("boot-chr");
    crate::text::has(p.as_slice(), a.as_slice()) || crate::text::has(p.as_slice(), b.as_slice())
        || crate::text::has(p.as_slice(), c.as_slice())
}

/// The script that finishes a reset at the next boot: it deletes the
/// snapshot that ran the reset and restores the original `rc.local`.
pub open spec fn reset_script_text(current: Seq<char>) -> Seq<char> {
    "#!/bin/sh\n/usr/sbin/ash del -q -n -s "@ + current + "\ncp /etc/rc.local.bak /etc/rc.local\nexit 0\nexit 0"@
}

/// The `rc.local` written for a reset.
pub fn reset_script(current: &str) -> (r: String)
    ensures
        r@ == reset_script_text(current@),
{
    around("#!/bin/sh\n/usr/sbin/ash del -q -n -s ", current, "\ncp /etc/rc.local.bak /etc/rc.local\nexit 0\nexit 0")
}

/// The directory of a numbered snapshot: `path` is the snapshot directory
/// prefix followed by the decimal digits of `v`.
pub open spec fn names_snapshot(path: Seq<char>, v: nat) -> bool {
    path == "/.snapshots/rootfs/snapshot-"@ + crate::text::dec(v)
}

/// The number of the snapshot whose directory is `path`, if it is one.
pub fn snapshot_number(path: &str) -> (r: Option<u32>)
    ensures
        r matches Some(v) ==> names_snapshot(path@, v as nat),
        r is None ==> forall|v: u32| !#[trigger] names_snapshot(path@, v as nat),
{
    let t = chars_of(path);
    let prefix = chars_of("/.snapshots/rootfs/snapshot-");
    let ghost pre = "/.snapshots/rootfs/snapshot-"@;
    proof { reveal_strlit("/.snapshots/rootfs/snapshot-"); }
    if !crate::text::starts_with(t.as_slice(), prefix.as_slice()) {
        assert forall|v: u32| !#[trigger] names_snapshot(path@, v as nat) by {
            if names_snapshot(path@, v as nat) {
                assert(t@.subrange(0, pre.len() as int) =~= pre);
            }
        }
        return None;
    }
    let pos = prefix.len();
    match crate::fstree::parse_number(t.as_slice(), pos) {
        Some((v, e)) => {
            if e == t.len() {
                assert(t@ =~= pre + crate::text::dec(v as nat));
                Some(v)
            } else {
                assert forall|w: u32| !#[trigger] names_snapshot(path@, w as nat) by {
                    if names_snapshot(path@, w as nat) {
                        let d = crate::text::dec(w as nat);
                        assert(t@.subrange(pos as int, pos + d.len()) =~= d);
                        assert(crate::fstree::number_at(t@, pos as int, w as nat));
                        crate::fstree::lemma_number_run(t@, pos as int, e as int, w as nat);
                    }
                }
                None
            }
        },
        None => {
            assert forall|w: u32| !#[trigger] names_snapshot(path@, w as nat) by {
                if names_snapshot(path@, w as nat) {
                    let d = crate::text::dec(w as nat);
                    assert(t@.subrange(pos as int, pos + d.len()) =~= d);
                    assert(crate::fstree::number_at(t@, pos as int, w as nat));
                }
            }
            None
        },
    }
}

/// The snapshots a reset deletes: every existing snapshot but the base
/// and the running one, in the order given.
pub open spec fn reset_targets(existing: Seq<u32>, current: Seq<char>) -> Seq<u32>
    decreases existing.len(),
{
    if existing.len() == 0 {
        Seq::empty()
    } else {
        let rest = reset_targets(existing.drop_last(), current);
        let n = existing.last();
        if n == 0 || crate::text::dec(n as nat) == current { rest } else { rest.push(n) }
    }
}

/// The snapshots a reset deletes, out of the numbers of the snapshots that
/// exist.
pub fn reset_order(existing: &Vec<u32>, current: &str) -> (r: Vec<u32>)
    ensures
        r@ == reset_targets(existing@, current@),
{
    let c = chars_of(current);
    let mut out: Vec<u32> = Vec::new();
    let mut k: usize = 0;
    while k < existing.len()
        invariant
            k <= existing@.len(),
            c@ == current@,
            out@ == reset_targets(existing@.take(k as int), current@),
        decreases existing@.len() - k,
    {
        let n = existing[k];
        proof {
            assert(existing@.take(k + 1).drop_last() =~= existing@.take(k as int));
        }
        if n != 0 {
            let d = crate::text::decimal(n);
            if !crate::config::vec_eq(&d, &c) {
                out.push(n);
            }
        }
        k = k + 1;
    }
    assert(existing@.take(k as int) =~= existing@);
    out
}

/// How the chroot copy of a snapshot is committed back: its subvolumes,
/// named `source`, are snapshotted over the snapshot's own, read-only
/// unless the copy carries the file that marks a mutable snapshot.
#[derive(Debug)]
pub struct CommitPlan {
    pub source: String,
    pub read_only: bool,
}

/// The commit of the chroot copy of `snapshot`; `mutable_file` says whether
/// the copy carries `/usr/share/ash/mutable`. A snapshot made mutable stays
/// writable after each change, and an immutable one stays read-only.
pub fn commit_plan(snapshot: &str, mutable_file: bool) -> (p: CommitPlan)
    ensures
        p.source@ == "chr"@ + snapshot@,
        p.read_only == !mutable_file,
{
    proof { reveal_strlit(""); }
    CommitPlan { source: around("chr", snapshot, ""), read_only: !mutable_file }
}

/// Whether the changes made in an interactive chroot are kept: only when
/// the shell exits with status 0; any other exit discards them.
pub fn keep_chroot_changes(exit_code: Option<i32>) -> (keep: bool)
    ensures
        keep == (exit_code == Some(0i32)),
{
    match exit_code {
        Some(c) => c == 0,
        None => false,
    }
}

} // verus!
