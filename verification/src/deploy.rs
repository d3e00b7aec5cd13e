//! Deployment slots and snapshot numbering.
//!
//! A snapshot is booted from one of four deployment slots, `deploy` and
//! `deploy-aux` and their `-secondary` counterparts; deploying writes to the
//! slot that is not running. New snapshots take the smallest positive number
//! that no boot, etc or root subvolume uses yet.
use vstd::prelude::*;
use crate::text::{
    chars_of, contains, dec, decimal, has, lemma_dec_digits, lines_chars, lines_of, push_all,
    replace_all, replace_chars, string_of, trim_chars, trim, trim_end, trim_end_chars, digits_value,
};

verus! {

/// The slot on the other side of `tmp`: with `secondary`, the primary and
/// secondary variants swap; otherwise `deploy` and `deploy-aux` swap.
pub open spec fn aux_tmp(tmp: Seq<char>, secondary: bool) -> Seq<char> {
    if secondary {
        if contains(tmp, "secondary"@) {
            replace_all(tmp, "-secondary"@, Seq::empty())
        } else {
            tmp + "-secondary"@
        }
    } else if contains(tmp, "deploy-aux"@) {
        replace_all(tmp, "deploy-aux"@, "deploy"@)
    } else {
        replace_all(tmp, "deploy"@, "deploy-aux"@)
    }
}

/// Deploying needs the snapshot to exist; `exists` says whether it does.
pub fn deploy_check(snapshot: &str, exists: bool) -> (r: Result<(), crate::error::AshError>)
    ensures
        r is Ok <==> exists,
        r matches Err(e) ==> e.kind == crate::error::ErrorKind::NotFound && e.message@
            == crate::error::missing_msg("deploy"@, snapshot@),
{
    if exists {
        Ok(())
    } else {
        Err(crate::error::missing("deploy", snapshot))
    }
}

/// The deployment slot that deploying next writes to, given the running one.
pub fn get_aux_tmp(tmp: String, secondary: bool) -> (r: String)
    ensures
        r@ == aux_tmp(tmp@, secondary),
{
    proof {
        reveal_strlit("-secondary");
        reveal_strlit("deploy-aux");
        reveal_strlit("deploy");
    }
    let t = chars_of(tmp.as_str());
    if secondary {
        let sec = chars_of("secondary");
        if has(t.as_slice(), sec.as_slice()) {
            let from = chars_of("-secondary");
            let to: Vec<char> = Vec::new();
            let r = replace_chars(t.as_slice(), from.as_slice(), to.as_slice());
            assert(to@ =~= Seq::<char>::empty());
            string_of(r.as_slice())
        } else {
            let mut r = t;
            let suffix = chars_of("-secondary");
            push_all(&mut r, suffix.as_slice());
            string_of(r.as_slice())
        }
    } else {
        let aux = chars_of("deploy-aux");
        let dep = chars_of("deploy");
        if has(t.as_slice(), aux.as_slice()) {
            let r = replace_chars(t.as_slice(), aux.as_slice(), dep.as_slice());
            string_of(r.as_slice())
        } else {
            let r = replace_chars(t.as_slice(), dep.as_slice(), aux.as_slice());
            string_of(r.as_slice())
        }
    }
}

/// The lines of the mount table that mount the root file system.
pub open spec fn root_mounts(mounts: Seq<char>) -> Seq<Seq<char>> {
    lines_of(mounts).filter(|l: Seq<char>| contains(l, " / btrfs"@))
}

/// Some root mount line mentions `name`.
pub open spec fn root_mounted_from(mounts: Seq<char>, name: Seq<char>) -> bool {
    exists|i: int| 0 <= i < root_mounts(mounts).len() && contains(#[trigger] root_mounts(mounts)[i], name)
}

/// The running deployment slot according to the mount table.
pub open spec fn running_tmp(mounts: Seq<char>) -> Seq<char> {
    if root_mounted_from(mounts, "deploy-aux-secondary"@) {
        "deploy-aux-secondary"@
    } else if root_mounted_from(mounts, "deploy-secondary"@) {
        "deploy-secondary"@
    } else if root_mounted_from(mounts, "deploy-aux"@) {
        "deploy-aux"@
    } else {
        "deploy"@
    }
}

/// Whether any root mount line holds `name`.
fn any_root_mount_has(lines: &Vec<Vec<char>>, name: &str, mounts: Ghost<Seq<char>>) -> (b: bool)
    requires
        lines@.len() == lines_of(mounts@).len(),
        forall|j: int| 0 <= j < lines@.len() ==> #[trigger] lines@[j]@ == lines_of(mounts@)[j],
    ensures
        b == root_mounted_from(mounts@, name@),
{
    let key = chars_of(" / btrfs");
    let nm = chars_of(name);
    let ghost ls = lines_of(mounts@);
    let ghost pred = |l: Seq<char>| contains(l, " / btrfs"@);
    let mut i: usize = 0;
    while i < lines.len()
        invariant
            i <= lines@.len(),
            lines@.len() == ls.len(),
            ls == lines_of(mounts@),
            forall|j: int| 0 <= j < lines@.len() ==> #[trigger] lines@[j]@ == ls[j],
            key@ == " / btrfs"@,
            nm@ == name@,
            pred == (|l: Seq<char>| contains(l, " / btrfs"@)),
            forall|j: int| 0 <= j < ls.take(i as int).filter(pred).len() ==> !contains(
                #[trigger] ls.take(i as int).filter(pred)[j],
                name@,
            ),
        decreases lines@.len() - i,
    {
        proof {
            assert(ls.take(i + 1) =~= ls.take(i as int).push(ls[i as int]));
            ls.take(i as int).lemma_filter_push(ls[i as int], pred);
        }
        let l = &lines[i];
        if has(l.as_slice(), key.as_slice()) && has(l.as_slice(), nm.as_slice()) {
            proof {
                assert(ls.take(i + 1).filter(pred) == ls.take(i as int).filter(pred).push(l@));
                lemma_filter_prefix(ls, pred, i as int + 1);
                let f = ls.take(i + 1).filter(pred);
                assert(f[f.len() - 1] == l@);
                assert(root_mounts(mounts@)[f.len() - 1] == l@);
            }
            return true;
        }
        i = i + 1;
    }
    proof {
        assert(ls.take(lines@.len() as int) =~= ls);
    }
    false
}

/// A prefix of a filtered sequence is the filter of a prefix.
proof fn lemma_filter_prefix(s: Seq<Seq<char>>, pred: spec_fn(Seq<char>) -> bool, k: int)
    requires
        0 <= k <= s.len(),
    ensures
        s.take(k).filter(pred).len() <= s.filter(pred).len(),
        forall|j: int| 0 <= j < s.take(k).filter(pred).len() ==> #[trigger] s.take(k).filter(pred)[j] == s.filter(pred)[j],
{
    assert(s =~= s.take(k) + s.skip(k));
    Seq::filter_distributes_over_add(s.take(k), s.skip(k), pred);
}

/// The running deployment slot, read from the mount table `/proc/mounts`.
pub fn get_tmp(mounts: &str) -> (r: String)
    ensures
        r@ == running_tmp(mounts@),
{
    let m = chars_of(mounts);
    let lines = lines_chars(m.as_slice());
    if any_root_mount_has(&lines, "deploy-aux-secondary", Ghost(mounts@)) {
        String::from_str("deploy-aux-secondary")
    } else if any_root_mount_has(&lines, "deploy-secondary", Ghost(mounts@)) {
        String::from_str("deploy-secondary")
    } else if any_root_mount_has(&lines, "deploy-aux", Ghost(mounts@)) {
        String::from_str("deploy-aux")
    } else {
        String::from_str("deploy")
    }
}

/// Whether ash runs inside a chroot: the snapshot volume is not mounted in
/// the mount table.
pub fn chroot_check(mounts: &str) -> (inside: bool)
    ensures
        inside == !contains(mounts@, "/.snapshots btrfs"@),
{
    let m = chars_of(mounts);
    let k = chars_of("/.snapshots btrfs");
    let mounted = has(m.as_slice(), k.as_slice());
    !mounted
}

/// The suffix of subvolume names for a distribution: `_` and the name
/// without `_ashos`. Names that do not hold `ashos` have none, and ash
/// stops on them.
pub fn get_distro_suffix(distro: &str) -> (r: Option<String>)
    ensures
        r is Some <==> contains(distro@, "ashos"@),
        r matches Some(s) ==> s@ == seq!['_'] + replace_all(distro@, "_ashos"@, Seq::empty()),
{
    proof { reveal_strlit("_ashos"); }
    let d = chars_of(distro);
    let a = chars_of("ashos");
    if has(d.as_slice(), a.as_slice()) {
        let from = chars_of("_ashos");
        let to: Vec<char> = Vec::new();
        let rest = replace_chars(d.as_slice(), from.as_slice(), to.as_slice());
        let mut r = vec!['_'];
        push_all(&mut r, rest.as_slice());
        assert(to@ =~= Seq::<char>::empty());
        assert(r@ =~= seq!['_'] + replace_all(distro@, "_ashos"@, Seq::empty()));
        Some(string_of(r.as_slice()))
    } else {
        None
    }
}

/// The number of the snapshot that is running, from the text of
/// `/usr/share/ash/snap`.
pub fn get_current_snapshot(snap: &str) -> (r: String)
    ensures
        r@ == trim_end(snap@),
{
    let s = chars_of(snap);
    let t = trim_end_chars(s.as_slice());
    string_of(t.as_slice())
}

/// The number of the snapshot deployed next, from the text of the next
/// slot's `snap` file, or empty when no snapshot is deployed there.
pub fn get_next_snapshot(snap: Option<&str>) -> (r: String)
    ensures
        r@ == match snap {
            Some(s) => trim(s@),
            None => Seq::empty(),
        },
{
    match snap {
        Some(s) => {
            let c = chars_of(s);
            let t = trim_chars(c.as_slice());
            string_of(t.as_slice())
        },
        None => String::new(),
    }
}

/// The three subvolume paths of snapshot `i`: its root file system, `/etc`
/// and `/boot`.
pub open spec fn snapshot_paths(i: nat) -> Seq<Seq<char>> {
    seq![
        "/.snapshots/rootfs/snapshot-"@ + dec(i),
        "/.snapshots/etc/etc-"@ + dec(i),
        "/.snapshots/boot/boot-"@ + dec(i),
    ]
}

/// Some subvolume of snapshot `i` is among `existing`.
pub open spec fn number_taken(existing: Seq<Seq<char>>, i: nat) -> bool {
    exists|j: int, k: int| 0 <= j < existing.len() && 0 <= k < 3 && #[trigger] existing[j] == #[trigger] snapshot_paths(i)[k]
}

/// Subvolumes of different snapshots have different paths.
proof fn lemma_paths_distinct(a: nat, b: nat, ka: int, kb: int)
    requires
        a != b,
        0 <= ka < 3,
        0 <= kb < 3,
    ensures
        snapshot_paths(a)[ka] != snapshot_paths(b)[kb],
{
    reveal_strlit("/.snapshots/rootfs/snapshot-");
    reveal_strlit("/.snapshots/etc/etc-");
    reveal_strlit("/.snapshots/boot/boot-");
    lemma_dec_digits(a);
    lemma_dec_digits(b);
    let pa = snapshot_paths(a)[ka];
    let pb = snapshot_paths(b)[kb];
    if ka == kb {
        let pre = if ka == 0 { "/.snapshots/rootfs/snapshot-"@ } else if ka == 1 { "/.snapshots/etc/etc-"@ } else { "/.snapshots/boot/boot-"@ };
        if pa == pb {
            assert(dec(a) =~= pa.skip(pre.len() as int));
            assert(dec(b) =~= pb.skip(pre.len() as int));
        }
    } else {
        assert(pa[12] != pb[12]);
    }
}

/// Entry `j` of `existing` is one of the subvolumes of snapshot `i`.
spec fn entry_of(existing: Seq<Seq<char>>, j: int, i: int) -> bool {
    0 <= j < existing.len() && exists|k: int| 0 <= k < 3 && #[trigger] snapshot_paths(i as nat)[k] == existing[j]
}

/// If every number from 1 to `m` is taken, there are at least `m` paths.
proof fn lemma_taken_bound(existing: Seq<Seq<char>>, m: nat)
    requires
        forall|i: nat| 1 <= i <= m ==> number_taken(existing, i),
    ensures
        m <= existing.len(),
{
    let x = vstd::set_lib::set_int_range(1, m as int + 1);
    vstd::set_lib::lemma_int_range(1, m as int + 1);
    let f = |i: int| choose|j: int| #[trigger] entry_of(existing, j, i);
    assert forall|i: int| x.contains(i) implies #[trigger] entry_of(existing, f(i), i) by {
        assert(number_taken(existing, i as nat));
        let (j, k) = choose|j: int, k: int| 0 <= j < existing.len() && 0 <= k < 3 && #[trigger] existing[j] == #[trigger] snapshot_paths(i as nat)[k];
        assert(entry_of(existing, j, i));
    }
    assert(vstd::relations::injective_on(f, x)) by {
        assert forall|a: int, b: int| x.contains(a) && x.contains(b) && #[trigger] f(a) == #[trigger] f(b) implies a == b by {
            assert(entry_of(existing, f(a), a));
            assert(entry_of(existing, f(b), b));
            let ka = choose|k: int| 0 <= k < 3 && #[trigger] snapshot_paths(a as nat)[k] == existing[f(a)];
            let kb = choose|k: int| 0 <= k < 3 && #[trigger] snapshot_paths(b as nat)[k] == existing[f(b)];
            if a != b {
                lemma_paths_distinct(a as nat, b as nat, ka, kb);
            }
        }
    }
    let y = x.map(f);
    vstd::set_lib::lemma_map_size(x, y, f);
    let z = vstd::set_lib::set_int_range(0, existing.len() as int);
    vstd::set_lib::lemma_int_range(0, existing.len() as int);
    assert forall|v: int| y.contains(v) implies z.contains(v) by {
        let i = choose|i: int| x.contains(i) && f(i) == v;
        assert(entry_of(existing, f(i), i));
    }
    vstd::set_lib::lemma_len_subset(y, z);
}

/// The texts of a list of names.
pub open spec fn names_of(v: Seq<String>) -> Seq<Seq<char>> {
    v.map_values(|s: String| s@)
}

/// Whether `v` holds `s`.
fn contains_string(v: &Vec<String>, s: &Vec<char>) -> (b: bool)
    ensures
        b == exists|j: int| 0 <= j < v@.len() && #[trigger] v@[j]@ == s@,
{
    let mut i: usize = 0;
    while i < v.len()
        invariant
            i <= v@.len(),
            forall|j: int| 0 <= j < i ==> #[trigger] v@[j]@ != s@,
        decreases v@.len() - i,
    {
        let c = chars_of(v[i].as_str());
        if crate::config::vec_eq(&c, s) {
            return true;
        }
        i = i + 1;
    }
    false
}

fn path_with_number(prefix: &str, i: u32) -> (p: Vec<char>)
    ensures
        p@ == prefix@ + dec(i as nat),
{
    let mut p = chars_of(prefix);
    let d = decimal(i);
    push_all(&mut p, d.as_slice());
    p
}

/// The smallest positive snapshot number that none of the subvolume paths
/// in `existing` (the entries of `/.snapshots/boot`, `/.snapshots/etc` and
/// `/.snapshots/rootfs`) uses.
pub fn find_new(existing: &Vec<String>) -> (i: u32)
    requires
        existing@.len() < u32::MAX,
    ensures
        i >= 1,
        !number_taken(names_of(existing@), i as nat),
        forall|j: nat| 1 <= j < i ==> #[trigger] number_taken(names_of(existing@), j),
{
    let ghost ex = names_of(existing@);
    let mut i: u32 = 1;
    loop
        invariant
            1 <= i,
            i <= existing@.len() + 1,
            existing@.len() < u32::MAX,
            ex == names_of(existing@),
            forall|j: nat| 1 <= j < i ==> #[trigger] number_taken(ex, j),
        decreases existing@.len() + 1 - i,
    {
        let p0 = path_with_number("/.snapshots/rootfs/snapshot-", i);
        let p1 = path_with_number("/.snapshots/etc/etc-", i);
        let p2 = path_with_number("/.snapshots/boot/boot-", i);
        let taken = contains_string(existing, &p0) || contains_string(existing, &p1) || contains_string(existing, &p2);
        proof {
            assert(snapshot_paths(i as nat)[0] == p0@);
            assert(snapshot_paths(i as nat)[1] == p1@);
            assert(snapshot_paths(i as nat)[2] == p2@);
            if taken {
                let j = choose|j: int| 0 <= j < existing@.len() && (existing@[j]@ == p0@ || existing@[j]@ == p1@ || existing@[j]@ == p2@);
                assert(ex[j] == existing@[j]@);
                if existing@[j]@ == p0@ {
                    assert(ex[j] == snapshot_paths(i as nat)[0]);
                } else if existing@[j]@ == p1@ {
                    assert(ex[j] == snapshot_paths(i as nat)[1]);
                } else {
                    assert(ex[j] == snapshot_paths(i as nat)[2]);
                }
            } else {
                assert forall|j: int, k: int| 0 <= j < ex.len() && 0 <= k < 3 implies #[trigger] ex[j] != #[trigger] snapshot_paths(i as nat)[k] by {
                    assert(ex[j] == existing@[j]@);
                }
            }
        }
        if !taken {
            return i;
        }
        proof {
            assert forall|j: nat| 1 <= j <= i implies number_taken(ex, j) by {}
            lemma_taken_bound(ex, i as nat);
        }
        i = i + 1;
    }
}

/// What the update state file says about the last automatic update.
pub struct UpdateStatus {
    /// The state line holds `1`.
    pub failed: bool,
    /// The state line holds `0`.
    pub succeeded: bool,
    /// The second line: the date of the update.
    pub date: String,
}

/// Reads the update state file `/.snapshots/ash/upstate`: a state line and
/// a date line. Files with fewer than two lines give `None`.
pub fn check_update(upstate: &str) -> (r: Option<UpdateStatus>)
    ensures
        r is Some <==> lines_of(upstate@).len() >= 2,
        r matches Some(st) ==> st.failed == contains(lines_of(upstate@)[0], "1"@) && st.succeeded
            == contains(lines_of(upstate@)[0], "0"@) && st.date@ == lines_of(upstate@)[1],
{
    let c = chars_of(upstate);
    let lines = lines_chars(c.as_slice());
    if lines.len() < 2 {
        return None;
    }
    let one = chars_of("1");
    let zero = chars_of("0");
    let failed = has(lines[0].as_slice(), one.as_slice());
    let succeeded = has(lines[0].as_slice(), zero.as_slice());
    Some(UpdateStatus { failed, succeeded, date: string_of(lines[1].as_slice()) })
}


/// The text of the update state file after an update: `0 ` for success or
/// `1 ` for failure, a line feed, and the output of `date`.
pub open spec fn upstate(success: bool, date: Seq<char>) -> Seq<char> {
    (if success { "0 "@ } else { "1 "@ }) + "\n"@ + date
}

/// The text of the update state file after an update.
pub fn upstate_text(success: bool, date: &str) -> (r: String)
    ensures
        r@ == upstate(success, date@),
{
    let state = if success { "0 " } else { "1 " };
    crate::error::around(state, "\n", date)
}

/// What an update writes to the state file reads back as its outcome and
/// date: for a date line `d` followed by a line feed, the state line holds
/// `1` exactly after a failure and `0` exactly after a success, and the
/// second line is `d`.
pub proof fn lemma_upstate_roundtrip(success: bool, d: Seq<char>)
    requires
        d.len() > 0,
        forall|i: int| 0 <= i < d.len() ==> d[i] != '\n',
        d.last() != '\r',
    ensures
        ({
            let ls = lines_of(upstate(success, d + "\n"@));
            &&& ls.len() >= 2
            &&& contains(ls[0], "1"@) == !success
            &&& contains(ls[0], "0"@) == success
            &&& ls[1] == d
        }),
{
    reveal_strlit("0 ");
    reveal_strlit("1 ");
    reveal_strlit("\n");
    reveal_strlit("0");
    reveal_strlit("1");
    let state = if success { "0 "@ } else { "1 "@ };
    let t = upstate(success, d + "\n"@);
    assert(t =~= state + seq!['\n'] + (d + seq!['\n'] + Seq::<char>::empty()));
    crate::text::lemma_split_char_concat(state, d + seq!['\n'] + Seq::<char>::empty(), '\n');
    crate::text::lemma_split_char_concat(d, Seq::<char>::empty(), '\n');
    let parts = crate::text::split_char(t, '\n');
    assert(crate::text::split_char(Seq::<char>::empty(), '\n') =~= seq![Seq::<char>::empty()]);
    assert(parts =~= seq![state, d, Seq::<char>::empty()]);
    let ls = lines_of(t);
    assert(ls.len() == 2);
    assert(ls[0] == crate::text::strip_cr(state));
    assert(ls[0] == state);
    assert(ls[1] == d);
    assert(contains(ls[0], "1"@) == !success) by {
        if success {
            assert forall|i: int| !crate::text::occurs_at(ls[0], "1"@, i) by {
                if crate::text::occurs_at(ls[0], "1"@, i) {
                    assert(ls[0].subrange(i, i + 1)[0] == '1');
                }
            }
        } else {
            assert(ls[0].subrange(0, 1) =~= "1"@);
            assert(crate::text::occurs_at(ls[0], "1"@, 0));
        }
    }
    assert(contains(ls[0], "0"@) == success) by {
        if !success {
            assert forall|i: int| !crate::text::occurs_at(ls[0], "0"@, i) by {
                if crate::text::occurs_at(ls[0], "0"@, i) {
                    assert(ls[0].subrange(i, i + 1)[0] == '0');
                }
            }
        } else {
            assert(ls[0].subrange(0, 1) =~= "0"@);
            assert(crate::text::occurs_at(ls[0], "0"@, 0));
        }
    }
}

/// A rollback: the running deployment is cloned as a new tree under the
/// smallest free number, described as a rollback, and deployed.
pub struct RollbackPlan {
    pub source: String,
    pub number: u32,
    pub description: String,
}

/// The rollback of the running deployment, given the mount table and the
/// subvolume paths that exist.
pub fn rollback(mounts: &str, existing: &Vec<String>) -> (r: RollbackPlan)
    requires
        existing@.len() < u32::MAX,
    ensures
        r.source@ == running_tmp(mounts@),
        r.number >= 1,
        !number_taken(names_of(existing@), r.number as nat),
        forall|j: nat| 1 <= j < r.number ==> #[trigger] number_taken(names_of(existing@), j),
        r.description@ == crate::ops::clone_desc_text(running_tmp(mounts@), Seq::empty()) + " rollback "@,
{
    let source = get_tmp(mounts);
    let number = find_new(existing);
    let none = String::new();
    let d = crate::ops::clone_description(source.as_str(), none.as_str());
    let description = crate::error::around("", d.as_str(), " rollback ");
    proof { reveal_strlit(""); }
    RollbackPlan { source, number, description }
}

/// The root to enter for a live, unlocked shell: the running deployment.
pub fn live_unlock(mounts: &str) -> (path: String)
    ensures
        path@ == "/.snapshots/rootfs/snapshot-"@ + running_tmp(mounts@),
{
    let t = get_tmp(mounts);
    proof { reveal_strlit(""); }
    crate::error::around("/.snapshots/rootfs/snapshot-", t.as_str(), "")
}


/// The slot on the other side of each of the four deployment slots.
proof fn lemma_aux_tmp_table()
    ensures
        aux_tmp("deploy"@, false) == "deploy-aux"@,
        aux_tmp("deploy-aux"@, false) == "deploy"@,
        aux_tmp("deploy-secondary"@, false) == "deploy-aux-secondary"@,
        aux_tmp("deploy-aux-secondary"@, false) == "deploy-secondary"@,
        aux_tmp("deploy"@, true) == "deploy-secondary"@,
        aux_tmp("deploy-aux"@, true) == "deploy-aux-secondary"@,
        aux_tmp("deploy-secondary"@, true) == "deploy"@,
        aux_tmp("deploy-aux-secondary"@, true) == "deploy-aux"@,
{
    reveal_strlit("deploy");
    reveal_strlit("deploy-aux");
    reveal_strlit("deploy-secondary");
    reveal_strlit("deploy-aux-secondary");
    reveal_strlit("-secondary");
    reveal_strlit("secondary");
    let d = "deploy"@;
    let a = "deploy-aux"@;
    let s = "-secondary"@;
    let sec = "secondary"@;
    let e = Seq::<char>::empty();
    assert("deploy-secondary"@ =~= d + s);
    assert("deploy-aux-secondary"@ =~= a + s);
    let ds = d + s;
    let as_ = a + s;
    // Where the patterns occur.
    assert(a.subrange(0, 10) =~= a);
    assert(crate::text::occurs_at(a, a, 0));
    assert(as_.subrange(0, 10) =~= a);
    assert(crate::text::occurs_at(as_, a, 0));
    assert(ds.subrange(7, 16) =~= sec);
    assert(crate::text::occurs_at(ds, sec, 7));
    assert(as_.subrange(11, 20) =~= sec);
    assert(crate::text::occurs_at(as_, sec, 11));
    assert forall|i: int| !crate::text::occurs_at(ds, a, i) by {
        if crate::text::occurs_at(ds, a, i) {
            assert(ds.subrange(i, i + 10)[0] == a[0]);
            assert(ds.subrange(i, i + 10)[7] == a[7]);
        }
    }
    assert forall|i: int| !crate::text::occurs_at(s, d, i) by {
        if crate::text::occurs_at(s, d, i) {
            assert(s.subrange(i, i + 6)[0] == d[0]);
        }
    }
    assert forall|i: int| !crate::text::occurs_at(s, a, i) by {
        if crate::text::occurs_at(s, a, i) {
            assert(s.subrange(i, i + 10)[0] == a[0]);
        }
    }
    assert forall|i: int| !crate::text::occurs_at(d, sec, i) by {}
    assert forall|i: int| !crate::text::occurs_at(a, sec, i) by {
        if crate::text::occurs_at(a, sec, i) {
            assert(a.subrange(i, i + 9)[0] == sec[0]);
        }
    }
    assert forall|i: int| 0 <= i < d.len() implies !crate::text::occurs_at(d + s, s, i) by {
        if crate::text::occurs_at(d + s, s, i) {
            assert((d + s).subrange(i, i + 10)[0] == s[0]);
        }
    }
    assert forall|i: int| 0 <= i < a.len() implies !crate::text::occurs_at(a + s, s, i) by {
        if crate::text::occurs_at(a + s, s, i) {
            assert((a + s).subrange(i, i + 10)[0] == s[0]);
            assert((a + s).subrange(i, i + 10)[1] == s[1]);
        }
    }
    // The replacements.
    assert(d + e =~= d);
    assert(a + e =~= a);
    assert(s + e =~= s);
    crate::text::lemma_replace_at_prefix(e, d, a);
    crate::text::lemma_replace_at_prefix(e, a, d);
    crate::text::lemma_replace_at_prefix(s, d, a);
    crate::text::lemma_replace_at_prefix(s, a, d);
    crate::text::lemma_replace_none(s, d, a);
    crate::text::lemma_replace_none(s, a, d);
    crate::text::lemma_replace_keep_prefix(d, s, s, e);
    crate::text::lemma_replace_keep_prefix(a, s, s, e);
    crate::text::lemma_replace_at_prefix(e, s, e);
    assert(replace_all(e, d, a) =~= e);
    assert(replace_all(e, a, d) =~= e);
    assert(replace_all(e, s, e) =~= e);
    assert(e + e =~= e);
}

/// Deploying twice returns to the first slot: the slot on the other side of
/// the other side of any of the four deployment slots is that slot itself.
pub proof fn lemma_aux_tmp_involution(t: Seq<char>, secondary: bool)
    requires
        t == "deploy"@ || t == "deploy-aux"@ || t == "deploy-secondary"@ || t == "deploy-aux-secondary"@,
    ensures
        aux_tmp(aux_tmp(t, secondary), secondary) == t,
{
    lemma_aux_tmp_table();
}

/// Switching between primary and secondary and switching between `deploy`
/// and `deploy-aux` can be done in either order: from any of the four
/// deployment slots both orders reach the same slot.
pub proof fn lemma_aux_tmp_commute(t: Seq<char>)
    requires
        t == "deploy"@ || t == "deploy-aux"@ || t == "deploy-secondary"@ || t == "deploy-aux-secondary"@,
    ensures
        aux_tmp(aux_tmp(t, true), false) == aux_tmp(aux_tmp(t, false), true),
{
    lemma_aux_tmp_table();
}

} // verus!
