//! Boot and mount tables of deployments.
//!
//! Deploying a snapshot copies it into a deployment slot and rewrites that
//! slot's `/etc/fstab` and GRUB configuration; switching slots moves every
//! path that names the running slot to the other one, and keeps the entry
//! of the last booted deployment as a recovery entry.
use vstd::prelude::*;
use crate::text::{
    chars_of, contains, find, find_after, first_from, first_occurrence, has, join_lines, join_with,
    lines_chars, lines_of, push_all, replace_all, replace_any, replace_chars, slice_of, str_replace,
    string_of,
};

verus! {

/// The mount table of a mutable snapshot: the first `,ro` at or after the
/// first mention of `snapshot-<tmp>` is dropped, so that the root file
/// system is mounted read-write.
pub open spec fn writable_fstab(c: Seq<char>, tmp: Seq<char>) -> Seq<char> {
    match first_occurrence(c, "snapshot-"@ + tmp) {
        None => c,
        Some(i) => match first_from(c, ",ro"@, i) {
            None => c,
            Some(j) => c.take(j) + c.skip(j + 3),
        },
    }
}

/// Drops the read-only flag of the root mount of deployment slot `tmp`.
pub fn fstab_make_writable(contents: &str, tmp: &str) -> (r: String)
    ensures
        r@ == writable_fstab(contents@, tmp@),
{
    let c = chars_of(contents);
    let mut pat = chars_of("snapshot-");
    let t = chars_of(tmp);
    push_all(&mut pat, t.as_slice());
    match find(c.as_slice(), pat.as_slice()) {
        None => string_of(c.as_slice()),
        Some(i) => {
            let ro = chars_of(",ro");
            match find_after(c.as_slice(), ro.as_slice(), i) {
                None => string_of(c.as_slice()),
                Some(j) => {
                    proof { reveal_strlit(",ro"); }
                    assert(j + 3 <= c.len());
                    let mut r = slice_of(c.as_slice(), 0, j);
                    let rest = slice_of(c.as_slice(), j + 3, c.len());
                    push_all(&mut r, rest.as_slice());
                    assert(r@ =~= c@.take(j as int) + c@.skip(j + 3));
                    string_of(r.as_slice())
                },
            }
        },
    }
}

/// The mount-table line that binds `source` at `/<dir>`.
pub open spec fn bind_line(source: Seq<char>, dir: Seq<char>) -> Seq<char> {
    source + " /"@ + dir + " none defaults,bind 0 0\n"@
}

/// Where the contents of mutable directory `dir` of `snapshot` are kept:
/// per snapshot, or shared by all snapshots.
pub open spec fn mutable_source(snapshot: Seq<char>, dir: Seq<char>, shared: bool) -> Seq<char> {
    if shared {
        "/.snapshots/mutable_dirs/"@ + dir
    } else {
        "/.snapshots/mutable_dirs/snapshot-"@ + snapshot + "/"@ + dir
    }
}

/// The mount-table lines for the first `k` of `dirs`.
pub open spec fn bind_lines(snapshot: Seq<char>, dirs: Seq<String>, shared: bool, k: int) -> Seq<char>
    decreases k,
{
    if k <= 0 {
        Seq::empty()
    } else {
        bind_lines(snapshot, dirs, shared, k - 1) + bind_line(mutable_source(snapshot, dirs[k - 1]@, shared), dirs[k - 1]@)
    }
}

/// The lines that a deployment of `snapshot` appends to its mount table, one
/// bind mount per mutable directory.
pub fn mutable_dir_fstab(snapshot: &str, dirs: &Vec<String>, shared: bool) -> (r: String)
    ensures
        r@ == bind_lines(snapshot@, dirs@, shared, dirs@.len() as int),
{
    let mut out: Vec<char> = Vec::new();
    let mut k: usize = 0;
    while k < dirs.len()
        invariant
            k <= dirs@.len(),
            out@ == bind_lines(snapshot@, dirs@, shared, k as int),
        decreases dirs@.len() - k,
    {
        let ghost before = out@;
        let dir = chars_of(dirs[k].as_str());
        if shared {
            let a = chars_of("/.snapshots/mutable_dirs/");
            push_all(&mut out, a.as_slice());
            push_all(&mut out, dir.as_slice());
        } else {
            let a = chars_of("/.snapshots/mutable_dirs/snapshot-");
            push_all(&mut out, a.as_slice());
            let s = chars_of(snapshot);
            push_all(&mut out, s.as_slice());
            out.push('/');
            push_all(&mut out, dir.as_slice());
        }
        let b = chars_of(" /");
        push_all(&mut out, b.as_slice());
        push_all(&mut out, dir.as_slice());
        let e = chars_of(" none defaults,bind 0 0\n");
        push_all(&mut out, e.as_slice());
        proof {
            reveal_strlit("/");
            assert(out@ =~= before + bind_line(mutable_source(snapshot@, dirs@[k as int]@, shared), dirs@[k as int]@));
        }
        k = k + 1;
    }
    string_of(out.as_slice())
}

/// The path of a subvolume of deployment slot `dep` as the boot and mount
/// tables name it: `kind` is `boot/boot`, `etc/etc` or `rootfs/snapshot`.
pub open spec fn slot_path(suffix: Seq<char>, kind: Seq<char>, dep: Seq<char>) -> Seq<char> {
    "@.snapshots"@ + suffix + "/"@ + kind + "-"@ + dep
}

fn slot_path_chars(suffix: &str, kind: &str, dep: &str) -> (r: Vec<char>)
    ensures
        r@ == slot_path(suffix@, kind@, dep@),
        r@.len() > 0,
{
    let mut r = chars_of("@.snapshots");
    let s = chars_of(suffix);
    push_all(&mut r, s.as_slice());
    r.push('/');
    let k = chars_of(kind);
    push_all(&mut r, k.as_slice());
    r.push('-');
    let d = chars_of(dep);
    push_all(&mut r, d.as_slice());
    proof {
        reveal_strlit("/");
        reveal_strlit("-");
        reveal_strlit("@.snapshots");
    }
    assert(r@ =~= slot_path(suffix@, kind@, dep@));
    r
}

/// Moves the mentions of one kind of subvolume from slot `source` to slot
/// `target`.
fn retarget_kind(c: &Vec<char>, suffix: &str, kind: &str, source: &str, target: &str) -> (r: Vec<char>)
    ensures
        r@ == replace_all(c@, slot_path(suffix@, kind@, source@), slot_path(suffix@, kind@, target@)),
{
    let from = slot_path_chars(suffix, kind, source);
    let to = slot_path_chars(suffix, kind, target);
    replace_chars(c.as_slice(), from.as_slice(), to.as_slice())
}

/// A GRUB configuration with its root file system moved from slot `source`
/// to slot `target`.
pub open spec fn switched_grub(c: Seq<char>, suffix: Seq<char>, source: Seq<char>, target: Seq<char>) -> Seq<char> {
    replace_all(c, slot_path(suffix, "rootfs/snapshot"@, source), slot_path(suffix, "rootfs/snapshot"@, target))
}

/// A mount table with its boot, etc and root subvolumes moved from slot
/// `source` to slot `target`, in this order.
pub open spec fn switched_fstab(c: Seq<char>, suffix: Seq<char>, source: Seq<char>, target: Seq<char>) -> Seq<char> {
    let b = replace_all(c, slot_path(suffix, "boot/boot"@, source), slot_path(suffix, "boot/boot"@, target));
    let e = replace_all(b, slot_path(suffix, "etc/etc"@, source), slot_path(suffix, "etc/etc"@, target));
    replace_all(e, slot_path(suffix, "rootfs/snapshot"@, source), slot_path(suffix, "rootfs/snapshot"@, target))
}

/// Points a GRUB configuration at slot `target` in place of `source`.
pub fn switch_grub_cfg(contents: &str, suffix: &str, source: &str, target: &str) -> (r: String)
    ensures
        r@ == switched_grub(contents@, suffix@, source@, target@),
{
    let c = chars_of(contents);
    let r = retarget_kind(&c, suffix, "rootfs/snapshot", source, target);
    string_of(r.as_slice())
}

/// Points a mount table at slot `target` in place of `source`.
pub fn switch_fstab(contents: &str, suffix: &str, source: &str, target: &str) -> (r: String)
    ensures
        r@ == switched_fstab(contents@, suffix@, source@, target@),
{
    let c = chars_of(contents);
    let b = retarget_kind(&c, suffix, "boot/boot", source, target);
    let e = retarget_kind(&b, suffix, "etc/etc", source, target);
    let r = retarget_kind(&e, suffix, "rootfs/snapshot", source, target);
    string_of(r.as_slice())
}

/// The snapshot number in the first line of a slot's `snap` file, without
/// blanks and line feeds.
pub fn snap_number(line: &str) -> (r: String)
    ensures
        r@ == replace_all(replace_all(line@, " "@, Seq::empty()), "\n"@, Seq::empty()),
{
    proof {
        reveal_strlit(" ");
        reveal_strlit("\n");
    }
    let c = chars_of(line);
    let sp = chars_of(" ");
    let nl = chars_of("\n");
    let none: Vec<char> = Vec::new();
    let a = replace_chars(c.as_slice(), sp.as_slice(), none.as_slice());
    let b = replace_chars(a.as_slice(), nl.as_slice(), none.as_slice());
    assert(none@ =~= Seq::<char>::empty());
    string_of(b.as_slice())
}

/// The marker of the entries that GRUB's `10_linux` script writes.
pub open spec fn begin_marker() -> Seq<char> {
    "BEGIN /etc/grub.d/10_linux"@
}

/// What closes a recovery entry.
pub open spec fn end_text() -> Seq<char> {
    "\n### END /etc/grub.d/41_custom ###"@
}

/// The first line at or after `j` that holds `p`.
pub open spec fn line_with(ls: Seq<Seq<char>>, p: Seq<char>, j: int) -> Option<int>
    decreases ls.len() - j,
{
    if j < 0 || j >= ls.len() {
        None
    } else if contains(ls[j], p) {
        Some(j)
    } else {
        line_with(ls, p, j + 1)
    }
}

/// The entry text gathered from line `j` on: each line before the first
/// one holding `}` with a line feed before it, lines that hold the begin
/// marker left out, and the `}` line glued to the text with the end marker
/// after it.
pub open spec fn entry_body(ls: Seq<Seq<char>>, j: int) -> Seq<char>
    decreases ls.len() - j,
{
    if j < 0 || j >= ls.len() {
        Seq::empty()
    } else if contains(ls[j], begin_marker()) {
        entry_body(ls, j + 1)
    } else if contains(ls[j], "}"@) {
        ls[j] + end_text()
    } else {
        "\n"@ + ls[j] + entry_body(ls, j + 1)
    }
}

/// The first boot entry after the `10_linux` marker of a GRUB
/// configuration, or nothing when there is no marker.
pub open spec fn grub_entry_text(cfg: Seq<char>) -> Seq<char> {
    let ls = lines_of(cfg);
    match line_with(ls, begin_marker(), 0) {
        None => Seq::empty(),
        Some(b) => entry_body(ls, b + 1),
    }
}

/// The first boot entry after the `10_linux` marker of `cfg`.
pub fn grub_entry(cfg: &str) -> (r: String)
    ensures
        r@ == grub_entry_text(cfg@),
{
    let c = chars_of(cfg);
    let lines = lines_chars(c.as_slice());
    let ghost ls = lines_of(cfg@);
    let marker = chars_of("BEGIN /etc/grub.d/10_linux");
    let close = chars_of("}");
    let mut j: usize = 0;
    let mut found = false;
    while j < lines.len() && !found
        invariant
            j <= lines@.len(),
            lines@.len() == ls.len(),
            forall|i: int| 0 <= i < lines@.len() ==> #[trigger] lines@[i]@ == ls[i],
            marker@ == begin_marker(),
            found ==> j < lines@.len() && line_with(ls, begin_marker(), 0) == Some(j as int),
            !found ==> line_with(ls, begin_marker(), 0) == line_with(ls, begin_marker(), j as int),
        decreases lines@.len() - j, if found { 0int } else { 1int },
    {
        if has(lines[j].as_slice(), marker.as_slice()) {
            found = true;
        } else {
            j = j + 1;
        }
    }
    if !found {
        return String::new();
    }
    let ghost target = entry_body(ls, j + 1);
    let mut out: Vec<char> = Vec::new();
    let mut k = j + 1;
    while k < lines.len()
        invariant
            j < k <= lines@.len(),
            lines@.len() == ls.len(),
            forall|i: int| 0 <= i < lines@.len() ==> #[trigger] lines@[i]@ == ls[i],
            marker@ == begin_marker(),
            close@ == "}"@,
            ls == lines_of(cfg@),
            target == entry_body(ls, j + 1),
            line_with(ls, begin_marker(), 0) == Some(j as int),
            out@ + entry_body(ls, k as int) == target,
        decreases lines@.len() - k,
    {
        let line = &lines[k];
        if has(line.as_slice(), marker.as_slice()) {
        } else if has(line.as_slice(), close.as_slice()) {
            assert(entry_body(ls, k as int) == ls[k as int] + end_text());
            push_all(&mut out, line.as_slice());
            let e = chars_of("\n### END /etc/grub.d/41_custom ###");
            push_all(&mut out, e.as_slice());
            assert(out@ =~= target);
            return string_of(out.as_slice());
        } else {
            out.push('\n');
            push_all(&mut out, line.as_slice());
            proof {
                reveal_strlit("\n");
                assert(out@ + entry_body(ls, k + 1) =~= target);
            }
        }
        k = k + 1;
    }
    assert(out@ =~= target);
    string_of(out.as_slice())
}

/// A recovery entry moved to the other slot: names of `deploy-aux` slots
/// become `deploy` slots, and otherwise `deploy` slots become `deploy-aux`
/// slots (the secondary slots' names hold these, so they follow suit).
pub open spec fn switched_entry(g: Seq<char>) -> Seq<char> {
    if contains(g, "snapshot-deploy-aux"@) {
        replace_all(g, "snapshot-deploy-aux"@, "snapshot-deploy"@)
    } else if contains(g, "snapshot-deploy"@) {
        replace_all(g, "snapshot-deploy"@, "snapshot-deploy-aux"@)
    } else {
        g
    }
}

/// Moves a recovery entry to the other slot.
pub fn switch_entry(gconf: &str) -> (r: String)
    ensures
        r@ == switched_entry(gconf@),
{
    let g = chars_of(gconf);
    let aux = chars_of("snapshot-deploy-aux");
    let dep = chars_of("snapshot-deploy");
    proof {
        reveal_strlit("snapshot-deploy-aux");
        reveal_strlit("snapshot-deploy");
    }
    if has(g.as_slice(), aux.as_slice()) {
        let r = replace_chars(g.as_slice(), aux.as_slice(), dep.as_slice());
        string_of(r.as_slice())
    } else if has(g.as_slice(), dep.as_slice()) {
        let r = replace_chars(g.as_slice(), dep.as_slice(), aux.as_slice());
        string_of(r.as_slice())
    } else {
        string_of(g.as_slice())
    }
}

/// `s` up to the first occurrence of `p`, or all of `s`.
pub open spec fn before_first(s: Seq<char>, p: Seq<char>) -> Seq<char> {
    match first_occurrence(s, p) {
        Some(i) => s.take(i),
        None => s,
    }
}

/// A recovery entry renamed after the last booted deployment: when it names
/// the distribution, the word after the first `snapshot ` is dropped, and
/// with it everything from the second `snapshot ` on, and the distribution's
/// name is followed by `last booted deployment (snapshot <snap>)`.
pub open spec fn last_booted(g: Seq<char>, name: Seq<char>, snap: Seq<char>) -> Seq<char> {
    if contains(g, name) {
        let i = first_occurrence(g, "snapshot "@)->0;
        let after = g.skip(i + 9);
        let suffix = before_first(after, "snapshot "@);
        let num = before_first(suffix, " "@);
        str_replace(
            g.take(i) + suffix.skip(num.len() as int),
            name,
            name + " last booted deployment (snapshot "@ + snap + ")"@,
        )
    } else {
        g
    }
}

fn before_first_chars(s: &Vec<char>, p: &Vec<char>) -> (r: Vec<char>)
    ensures
        r@ == before_first(s@, p@),
{
    match find(s.as_slice(), p.as_slice()) {
        Some(i) => slice_of(s.as_slice(), 0, i),
        None => s.clone(),
    }
}

/// Renames a recovery entry after the last booted deployment. An entry that
/// names the distribution must hold `snapshot `.
pub fn mark_last_booted(gconf: &str, distro_name: &str, snap: &str) -> (r: String)
    requires
        contains(gconf@, distro_name@) ==> contains(gconf@, "snapshot "@),
    ensures
        r@ == last_booted(gconf@, distro_name@, snap@),
{
    let g = chars_of(gconf);
    let name = chars_of(distro_name);
    if !(has(g.as_slice(), name.as_slice())) {
        return string_of(g.as_slice());
    }
    let key = chars_of("snapshot ");
    let i = find(g.as_slice(), key.as_slice()).unwrap();
    proof { reveal_strlit("snapshot "); }
    assert(i + 9 <= g.len());
    let after = slice_of(g.as_slice(), i + 9, g.len());
    assert(after@ =~= g@.skip(i + 9));
    let suffix = before_first_chars(&after, &key);
    let space = chars_of(" ");
    let num = before_first_chars(&suffix, &space);
    let mut body = slice_of(g.as_slice(), 0, i);
    proof {
        lemma_before_first_len(suffix@, " "@);
    }
    let rest = slice_of(suffix.as_slice(), num.len(), suffix.len());
    push_all(&mut body, rest.as_slice());
    let mut label = name.clone();
    let tail = chars_of(" last booted deployment (snapshot ");
    push_all(&mut label, tail.as_slice());
    let sn = chars_of(snap);
    push_all(&mut label, sn.as_slice());
    label.push(')');
    proof { reveal_strlit(")"); }
    assert(body@ =~= g@.take(i as int) + suffix@.skip(num@.len() as int));
    assert(label@ =~= distro_name@ + " last booted deployment (snapshot "@ + snap@ + ")"@);
    let r = replace_any(body.as_slice(), name.as_slice(), label.as_slice());
    string_of(r.as_slice())
}

proof fn lemma_before_first_len(s: Seq<char>, p: Seq<char>)
    ensures
        before_first(s, p).len() <= s.len(),
{
    crate::text::lemma_first_occurrence(s, p);
}

/// `cfg` without its last line, the lines joined by line feeds, followed by
/// a blank line and the recovery entry `gconf`.
pub open spec fn recovery_cfg_text(cfg: Seq<char>, gconf: Seq<char>) -> Seq<char> {
    let ls = lines_of(cfg);
    join_with(ls.take(ls.len() - 1), "\n"@) + "\n\n"@ + gconf
}

/// The GRUB configuration with its last line replaced by the recovery
/// entry. The configuration must have a line.
pub fn recovery_cfg(cfg: &str, gconf: &str) -> (r: String)
    requires
        lines_of(cfg@).len() >= 1,
    ensures
        r@ == recovery_cfg_text(cfg@, gconf@),
{
    let c = chars_of(cfg);
    let mut lines = lines_chars(c.as_slice());
    let ghost ls = lines_of(cfg@);
    lines.pop();
    proof {
        assert(lines@.map_values(|l: Vec<char>| l@) =~= ls.take(ls.len() - 1));
    }
    let nl = chars_of("\n");
    let mut out = join_lines(&lines, nl.as_slice());
    let blank = chars_of("\n\n");
    push_all(&mut out, blank.as_slice());
    let g = chars_of(gconf);
    push_all(&mut out, g.as_slice());
    string_of(out.as_slice())
}

/// The slot that a boot update writes to: with `secondary`, the primary and
/// secondary variants of the running slot swap; otherwise it is the running
/// slot.
pub open spec fn boot_slot(tmp: Seq<char>, secondary: bool) -> Seq<char> {
    if secondary {
        if contains(tmp, "secondary"@) {
            replace_all(tmp, "-secondary"@, Seq::empty())
        } else {
            tmp + "-secondary"@
        }
    } else {
        tmp
    }
}

/// The slot that a boot update writes to.
pub fn boot_tmp(tmp: &str, secondary: bool) -> (r: String)
    ensures
        r@ == boot_slot(tmp@, secondary),
{
    let t = chars_of(tmp);
    if secondary {
        let sec = chars_of("secondary");
        if has(t.as_slice(), sec.as_slice()) {
            let from = chars_of("-secondary");
            let none: Vec<char> = Vec::new();
            proof { reveal_strlit("-secondary"); }
            let r = replace_chars(t.as_slice(), from.as_slice(), none.as_slice());
            assert(none@ =~= Seq::<char>::empty());
            string_of(r.as_slice())
        } else {
            let mut r = t;
            let s = chars_of("-secondary");
            push_all(&mut r, s.as_slice());
            string_of(r.as_slice())
        }
    } else {
        string_of(t.as_slice())
    }
}

/// The commands that regenerate the GRUB configuration of `snapshot` in its
/// chroot: `grub-mkconfig` on the partition, then two `sed` edits, one that
/// points the chroot's paths at slot `tmp` and one that adds the snapshot
/// number to the first mention of the distribution.
pub open spec fn boot_command_texts(part: Seq<char>, grub: Seq<char>, snapshot: Seq<char>, tmp: Seq<char>, distro: Seq<char>) -> Seq<Seq<char>> {
    seq![
        "grub-mkconfig "@ + part + " -o /boot/"@ + grub + "/grub.cfg"@,
        "sed -i 's|snapshot-chr"@ + snapshot + "|snapshot-"@ + tmp + "|g' /boot/"@ + grub + "/grub.cfg"@,
        "sed -i '0,\\|"@ + distro + "| s||"@ + distro + " snapshot "@ + snapshot + "|' /boot/"@ + grub + "/grub.cfg"@,
    ]
}

/// The commands that regenerate the GRUB configuration of `snapshot`.
pub fn boot_commands(part: &str, grub: &str, snapshot: &str, tmp: &str, distro: &str) -> (r: Vec<String>)
    ensures
        r@.len() == 3,
        forall|i: int| 0 <= i < 3 ==> #[trigger] r@[i]@ == boot_command_texts(part@, grub@, snapshot@, tmp@, distro@)[i],
{
    let cfg = crate::error::around(" -o /boot/", grub, "/grub.cfg");
    let mk = crate::error::around("grub-mkconfig ", part, cfg.as_str());
    let s1 = crate::error::around("sed -i 's|snapshot-chr", snapshot, "|snapshot-");
    let s2 = crate::error::around("|g' /boot/", grub, "/grub.cfg");
    let sed_snap = crate::error::around(s1.as_str(), tmp, s2.as_str());
    let d1 = crate::error::around("sed -i '0,\\|", distro, "| s||");
    let d2 = crate::error::around(d1.as_str(), distro, " snapshot ");
    let d3 = crate::error::around("|' /boot/", grub, "/grub.cfg");
    let sed_distro = crate::error::around(d2.as_str(), snapshot, d3.as_str());
    let mut r: Vec<String> = Vec::new();
    r.push(mk);
    r.push(sed_snap);
    r.push(sed_distro);
    proof {
        let t = boot_command_texts(part@, grub@, snapshot@, tmp@, distro@);
        assert(r@[0]@ =~= t[0]);
        assert(r@[1]@ =~= t[1]);
        assert(r@[2]@ =~= t[2]);
    }
    r
}


/// The GRUB configuration of a slot after a switch, with the recovery entry
/// for snapshot `snap` in place of its last line: the first `10_linux`
/// entry, moved to the other slot and renamed after the last booted
/// deployment.
pub open spec fn recovery_text(cfg: Seq<char>, name: Seq<char>, snap: Seq<char>) -> Seq<char> {
    recovery_cfg_text(cfg, last_booted(switched_entry(grub_entry_text(cfg)), name, snap))
}

/// The recovery entry can be written: the configuration has a line, and an
/// entry that names the distribution holds `snapshot `.
pub open spec fn recovery_possible(cfg: Seq<char>, name: Seq<char>) -> bool {
    let g = switched_entry(grub_entry_text(cfg));
    &&& lines_of(cfg).len() >= 1
    &&& contains(g, name) ==> contains(g, "snapshot "@)
}

/// Whether the recovery entry of `cfg` can be written.
pub fn can_write_recovery(cfg: &str, distro_name: &str) -> (b: bool)
    ensures
        b == recovery_possible(cfg@, distro_name@),
{
    let g = switch_entry(grub_entry(cfg).as_str());
    let gc = chars_of(g.as_str());
    let name = chars_of(distro_name);
    let key = chars_of("snapshot ");
    let c = chars_of(cfg);
    let lines = lines_chars(c.as_slice());
    let named = has(gc.as_slice(), name.as_slice());
    let marked = has(gc.as_slice(), key.as_slice());
    lines.len() >= 1 && (!named || marked)
}

/// The GRUB configuration of a slot with the recovery entry for the last
/// booted deployment `snap` written in place of its last line.
pub fn recovery_grub(cfg: &str, distro_name: &str, snap: &str) -> (r: String)
    requires
        recovery_possible(cfg@, distro_name@),
    ensures
        r@ == recovery_text(cfg@, distro_name@, snap@),
{
    let g = switch_entry(grub_entry(cfg).as_str());
    let named = mark_last_booted(g.as_str(), distro_name, snap);
    recovery_cfg(cfg, named.as_str())
}

/// The mount table of a deployment of `snapshot` into slot `tmp`: the root
/// mounted read-write when the snapshot is mutable, then a bind mount for
/// each of its own mutable directories and each shared one.
pub open spec fn deployed_fstab_text(c: Seq<char>, snapshot: Seq<char>, tmp: Seq<char>, mutable: bool, dirs: Seq<String>, shared: Seq<String>) -> Seq<char> {
    (if mutable { writable_fstab(c, tmp) } else { c })
        + bind_lines(snapshot, dirs, false, dirs.len() as int)
        + bind_lines(snapshot, shared, true, shared.len() as int)
}

/// The mount table of a deployment.
pub fn deployed_fstab(contents: &str, snapshot: &str, tmp: &str, mutable: bool, dirs: &Vec<String>, shared: &Vec<String>) -> (r: String)
    ensures
        r@ == deployed_fstab_text(contents@, snapshot@, tmp@, mutable, dirs@, shared@),
{
    let base = if mutable { fstab_make_writable(contents, tmp) } else { crate::error::around(contents, "", "") };
    proof { reveal_strlit(""); }
    let own = mutable_dir_fstab(snapshot, dirs, false);
    let common = mutable_dir_fstab(snapshot, shared, true);
    let a = crate::error::around(base.as_str(), own.as_str(), common.as_str());
    assert(a@ =~= deployed_fstab_text(contents@, snapshot@, tmp@, mutable, dirs@, shared@));
    a
}

/// Switching a GRUB configuration leaves a text that never names the
/// source slot's root untouched.
pub proof fn lemma_switch_grub_absent(c: Seq<char>, suffix: Seq<char>, source: Seq<char>, target: Seq<char>)
    requires
        !contains(c, slot_path(suffix, "rootfs/snapshot"@, source)),
    ensures
        switched_grub(c, suffix, source, target) == c,
{
    reveal_strlit("@.snapshots");
    crate::text::lemma_replace_none(c, slot_path(suffix, "rootfs/snapshot"@, source), slot_path(suffix, "rootfs/snapshot"@, target));
}

/// Switching a GRUB configuration moves every mention of the source slot's
/// root: the text before the first mention is kept, that mention names the
/// target slot's root instead, and the rest of the text is switched in the
/// same way, so later mentions move too.
pub proof fn lemma_switch_grub_first(x: Seq<char>, y: Seq<char>, suffix: Seq<char>, source: Seq<char>, target: Seq<char>)
    requires
        forall|i: int| 0 <= i < x.len() ==> !crate::text::occurs_at(
            x + slot_path(suffix, "rootfs/snapshot"@, source) + y,
            slot_path(suffix, "rootfs/snapshot"@, source),
            i,
        ),
    ensures
        switched_grub(x + slot_path(suffix, "rootfs/snapshot"@, source) + y, suffix, source, target)
            == x + slot_path(suffix, "rootfs/snapshot"@, target) + switched_grub(y, suffix, source, target),
{
    reveal_strlit("@.snapshots");
    let p = slot_path(suffix, "rootfs/snapshot"@, source);
    let q = slot_path(suffix, "rootfs/snapshot"@, target);
    assert(p.len() > 0);
    assert(x + p + y =~= x + (p + y));
    crate::text::lemma_replace_keep_prefix(x, p + y, p, q);
    crate::text::lemma_replace_at_prefix(y, p, q);
    assert(x + (q + replace_all(y, p, q)) =~= x + q + replace_all(y, p, q));
}

} // verus!
