//! The GRUB recovery entry of a recovery deployment.
//!
//! Switching the recovery deployment takes the first boot entry after the
//! `10_linux` marker of a slot's configuration, drops the old
//! `Recovery Mode` entry from the boot partition's configuration together
//! with the end markers of custom entries, and appends the entry renamed to
//! `Recovery Mode` and pointed at the other recovery slot.
use vstd::prelude::*;
use crate::text::{
    chars_of, contains, find, find_after, first_from, first_occurrence, has, lines_chars, lines_of, push_all,
    replace_all, replace_any, replace_chars, slice_of, str_replace, string_of,
};
use crate::boot::{begin_marker, end_text, line_with};

verus! {

/// The entry gathered from line `j` on, once `menu` says whether a
/// `menuentry` line was seen: lines before the first `menuentry` are left
/// out, lines holding the begin marker too, and the first `}` line after a
/// `menuentry` ends the entry.
pub open spec fn menu_body(ls: Seq<Seq<char>>, j: int, menu: bool) -> Seq<char>
    decreases ls.len() - j,
{
    if j < 0 || j >= ls.len() {
        Seq::empty()
    } else if contains(ls[j], begin_marker()) {
        menu_body(ls, j + 1, menu)
    } else {
        let m = menu || contains(ls[j], "menuentry"@);
        if m && contains(ls[j], "}"@) {
            ls[j] + end_text()
        } else if m {
            "\n"@ + ls[j] + menu_body(ls, j + 1, true)
        } else {
            menu_body(ls, j + 1, false)
        }
    }
}

/// The first `menuentry` after the `10_linux` marker of a configuration.
pub open spec fn menu_entry_text(cfg: Seq<char>) -> Seq<char> {
    let ls = lines_of(cfg);
    match line_with(ls, begin_marker(), 0) {
        None => Seq::empty(),
        Some(b) => menu_body(ls, b + 1, false),
    }
}

/// The first `menuentry` after the `10_linux` marker of `cfg`.
pub fn menu_entry(cfg: &str) -> (r: String)
    ensures
        r@ == menu_entry_text(cfg@),
{
    let c = chars_of(cfg);
    let lines = lines_chars(c.as_slice());
    let ghost ls = lines_of(cfg@);
    let marker = chars_of("BEGIN /etc/grub.d/10_linux");
    let close = chars_of("}");
    let menu_word = chars_of("menuentry");
    let mut j: usize = 0;
    let mut found = false;
    while j < lines.len() && !found
        invariant
            j <= lines@.len(),
            lines@.len() == ls.len(),
            forall|i: int| 0 <= i < lines@.len() ==> #[trigger] lines@[i]@ == ls[i],
            marker@ == begin_marker(),
            found ==> j < lines@.len() && line_with(ls, begin_marker(), 0) == Some(j as int),
            !found ==> line_with(ls, begin_marker(), 0) == line_with(ls, begin_marker(), j as int),
        decreases lines@.len() - j, if found { 0int } else { 1int },
    {
        if has(lines[j].as_slice(), marker.as_slice()) {
            found = true;
        } else {
            j = j + 1;
        }
    }
    if !found {
        return String::new();
    }
    let ghost target = menu_body(ls, j + 1, false);
    let mut out: Vec<char> = Vec::new();
    let mut menu = false;
    let mut k = j + 1;
    while k < lines.len()
        invariant
            j < k <= lines@.len(),
            lines@.len() == ls.len(),
            forall|i: int| 0 <= i < lines@.len() ==> #[trigger] lines@[i]@ == ls[i],
            marker@ == begin_marker(),
            close@ == "}"@,
            menu_word@ == "menuentry"@,
            ls == lines_of(cfg@),
            target == menu_body(ls, j + 1, false),
            line_with(ls, begin_marker(), 0) == Some(j as int),
            out@ + menu_body(ls, k as int, menu) == target,
        decreases lines@.len() - k,
    {
        let line = &lines[k];
        if has(line.as_slice(), marker.as_slice()) {
        } else {
            let m = menu || has(line.as_slice(), menu_word.as_slice());
            if m && has(line.as_slice(), close.as_slice()) {
                assert(menu_body(ls, k as int, menu) == ls[k as int] + end_text());
                push_all(&mut out, line.as_slice());
                let e = chars_of("\n### END /etc/grub.d/41_custom ###");
                push_all(&mut out, e.as_slice());
                assert(out@ =~= target);
                return string_of(out.as_slice());
            } else if m {
                out.push('\n');
                push_all(&mut out, line.as_slice());
                proof {
                    reveal_strlit("\n");
                    assert(out@ + menu_body(ls, k + 1, true) =~= target);
                }
                menu = true;
            }
        }
        k = k + 1;
    }
    assert(out@ =~= target);
    string_of(out.as_slice())
}

/// The configuration rebuilt from line `j` on, each kept line after a line
/// feed. The first `Recovery Mode` entry is dropped, from its `menuentry`
/// line through the first line after it that holds a `}`; every other line
/// is kept. `in_entry` says that line `j` lies inside that entry, `done`
/// that the entry has already been dropped.
pub open spec fn strip_from(ls: Seq<Seq<char>>, j: int, in_entry: bool, done: bool) -> Seq<char>
    decreases ls.len() - j,
{
    if j < 0 || j >= ls.len() {
        Seq::empty()
    } else if !done && contains(ls[j], "menuentry 'Recovery Mode'"@) {
        strip_from(ls, j + 1, true, false)
    } else if in_entry {
        if contains(ls[j], "}"@) {
            strip_from(ls, j + 1, false, true)
        } else {
            strip_from(ls, j + 1, true, false)
        }
    } else {
        "\n"@ + ls[j] + strip_from(ls, j + 1, false, done)
    }
}

/// The boot partition's configuration without its old recovery entry and
/// without the end markers of custom entries.
pub open spec fn stripped_cfg(cfg: Seq<char>) -> Seq<char> {
    replace_all(strip_from(lines_of(cfg), 0, false, false), "### END /etc/grub.d/41_custom ###"@, Seq::empty())
}

/// The boot partition's configuration without its old recovery entry and
/// the end markers of custom entries.
pub fn strip_recovery(cfg: &str) -> (r: String)
    ensures
        r@ == stripped_cfg(cfg@),
{
    let c = chars_of(cfg);
    let lines = lines_chars(c.as_slice());
    let ghost ls = lines_of(cfg@);
    let marker = chars_of("menuentry 'Recovery Mode'");
    let close = chars_of("}");
    let mut acc: Vec<char> = Vec::new();
    let mut in_entry = false;
    let mut done = false;
    let mut j: usize = 0;
    while j < lines.len()
        invariant
            j <= lines@.len(),
            lines@.len() == ls.len(),
            ls == lines_of(cfg@),
            forall|i: int| 0 <= i < lines@.len() ==> #[trigger] lines@[i]@ == ls[i],
            marker@ == "menuentry 'Recovery Mode'"@,
            close@ == "}"@,
            in_entry ==> !done,
            acc@ + strip_from(ls, j as int, in_entry, done) == strip_from(ls, 0, false, false),
        decreases lines@.len() - j,
    {
        let line = &lines[j];
        assert(line@ == ls[j as int]);
        let ghost old_acc = acc@;
        let ghost rest = strip_from(ls, j as int, in_entry, done);
        if !done && has(line.as_slice(), marker.as_slice()) {
            in_entry = true;
            assert(rest == strip_from(ls, j + 1, true, false));
        } else if in_entry {
            if has(line.as_slice(), close.as_slice()) {
                in_entry = false;
                done = true;
            }
            assert(rest == strip_from(ls, j + 1, in_entry, done));
        } else {
            let ghost before = acc@;
            acc.push('\n');
            push_all(&mut acc, line.as_slice());
            proof {
                reveal_strlit("\n");
                assert(acc@ =~= before + ("\n"@ + ls[j as int]));
                assert(before + ("\n"@ + ls[j as int] + strip_from(ls, j + 1, false, done)) =~= acc@ + strip_from(ls, j + 1, false, done));
            }
        }
        j = j + 1;
    }
    assert(acc@ + strip_from(ls, j as int, in_entry, done) =~= acc@);
    let end = chars_of("### END /etc/grub.d/41_custom ###");
    let none: Vec<char> = Vec::new();
    proof { reveal_strlit("### END /etc/grub.d/41_custom ###"); }
    let r = replace_chars(acc.as_slice(), end.as_slice(), none.as_slice());
    assert(none@ =~= Seq::<char>::empty());
    string_of(r.as_slice())
}

/// Where the title of an entry starts: after its first quote, or at
/// position 1 when it has none.
pub open spec fn title_start(g: Seq<char>) -> int {
    match first_occurrence(g, "'"@) {
        Some(i) => i + 1,
        None => 1,
    }
}

/// The title of an entry can be taken: a quote closes it.
pub open spec fn has_title(g: Seq<char>) -> bool {
    title_start(g) <= g.len() && first_from(g, "'"@, title_start(g)) is Some
}

/// The title of an entry: the text between its first two quotes.
pub open spec fn entry_title(g: Seq<char>) -> Seq<char> {
    g.subrange(title_start(g), first_from(g, "'"@, title_start(g))->0)
}

/// The recovery slot that an entry boots when it does not name `source`:
/// told apart by the words `aux` and `secondary` in it.
pub open spec fn named_slot(g: Seq<char>) -> Seq<char> {
    if contains(g, "deploy-aux"@) && !contains(g, "secondary"@) {
        "deploy-aux"@
    } else if contains(g, "secondary"@) && !contains(g, "aux"@) {
        "deploy-secondary"@
    } else if contains(g, "aux-secondary"@) {
        "deploy-aux-secondary"@
    } else {
        "deploy"@
    }
}

/// The root path of recovery slot `dep`.
pub open spec fn recovery_root(dep: Seq<char>) -> Seq<char> {
    "@.snapshots_linux/rootfs/snapshot-"@ + dep
}

/// The recovery entry: the entry titled `Recovery Mode` in place of its
/// title, and pointed at slot `target` in place of `source`, or in place of
/// the slot it names when it does not name `source`.
pub open spec fn recovery_entry_text(g: Seq<char>, source: Seq<char>, target: Seq<char>) -> Seq<char> {
    let u = str_replace(g, entry_title(g), "Recovery Mode"@);
    let from = if contains(u, source) { source } else { named_slot(u) };
    replace_all(u, recovery_root(from), recovery_root(target))
}

fn root_chars(dep: &Vec<char>) -> (r: Vec<char>)
    ensures
        r@ == recovery_root(dep@),
        r@.len() > 0,
{
    let mut r = chars_of("@.snapshots_linux/rootfs/snapshot-");
    proof { reveal_strlit("@.snapshots_linux/rootfs/snapshot-"); }
    push_all(&mut r, dep.as_slice());
    r
}

/// The recovery slot that entry `u` names.
fn named_slot_of(u: &Vec<char>) -> (r: Vec<char>)
    ensures
        r@ == named_slot(u@),
{
    let aux_slot = chars_of("deploy-aux");
    let secondary = chars_of("secondary");
    let aux = chars_of("aux");
    let aux_secondary = chars_of("aux-secondary");
    let has_aux_slot = has(u.as_slice(), aux_slot.as_slice());
    let has_secondary = has(u.as_slice(), secondary.as_slice());
    let has_aux = has(u.as_slice(), aux.as_slice());
    if has_aux_slot && !has_secondary {
        chars_of("deploy-aux")
    } else if has_secondary && !has_aux {
        chars_of("deploy-secondary")
    } else if has(u.as_slice(), aux_secondary.as_slice()) {
        chars_of("deploy-aux-secondary")
    } else {
        chars_of("deploy")
    }
}

/// Whether the title of entry `g` can be taken.
pub fn title_found(g: &str) -> (b: bool)
    ensures
        b == has_title(g@),
{
    let v = chars_of(g);
    let q = chars_of("'");
    proof { reveal_strlit("'"); }
    let start = match find(v.as_slice(), q.as_slice()) {
        Some(i) => {
            assert(i + 1 <= v.len());
            i + 1
        },
        None => 1,
    };
    if start > v.len() {
        return false;
    }
    find_after(v.as_slice(), q.as_slice(), start).is_some()
}

/// The recovery entry made from entry `g`, which must have a title, for a
/// switch from recovery slot `source` to `target`.
pub fn recovery_entry(g: &str, source: &str, target: &str) -> (r: String)
    requires
        has_title(g@),
    ensures
        r@ == recovery_entry_text(g@, source@, target@),
{
    let v = chars_of(g);
    let q = chars_of("'");
    proof { reveal_strlit("'"); }
    let start = match find(v.as_slice(), q.as_slice()) {
        Some(i) => {
            assert(i + 1 <= v.len());
            i + 1
        },
        None => 1,
    };
    let end = find_after(v.as_slice(), q.as_slice(), start).unwrap();
    let title = slice_of(v.as_slice(), start, end);
    let rm = chars_of("Recovery Mode");
    let u = replace_any(v.as_slice(), title.as_slice(), rm.as_slice());
    let s = chars_of(source);
    let t = chars_of(target);
    let from = if has(u.as_slice(), s.as_slice()) { s } else { named_slot_of(&u) };
    let a = root_chars(&from);
    let b = root_chars(&t);
    let r = replace_chars(u.as_slice(), a.as_slice(), b.as_slice());
    string_of(r.as_slice())
}


/// The boot partition's configuration after a switch of the recovery
/// deployment from slot `source` to `target`: without its old recovery
/// entry, followed by the new one made from the slot's configuration.
pub open spec fn recovery_mode_text(boot_cfg: Seq<char>, slot_cfg: Seq<char>, source: Seq<char>, target: Seq<char>) -> Seq<char> {
    stripped_cfg(boot_cfg) + recovery_entry_text(menu_entry_text(slot_cfg), source, target)
}

/// Whether the entry of a slot's configuration has a title to replace.
pub fn recovery_mode_possible(slot_cfg: &str) -> (b: bool)
    ensures
        b == has_title(menu_entry_text(slot_cfg@)),
{
    let g = menu_entry(slot_cfg);
    title_found(g.as_str())
}

/// The boot partition's configuration after a switch of the recovery
/// deployment; the slot's entry must have a title.
pub fn recovery_mode_cfg(boot_cfg: &str, slot_cfg: &str, source: &str, target: &str) -> (r: String)
    requires
        has_title(menu_entry_text(slot_cfg@)),
    ensures
        r@ == recovery_mode_text(boot_cfg@, slot_cfg@, source@, target@),
{
    let stripped = strip_recovery(boot_cfg);
    let g = menu_entry(slot_cfg);
    let entry = recovery_entry(g.as_str(), source, target);
    proof { reveal_strlit(""); }
    crate::error::around(stripped.as_str(), entry.as_str(), "")
}

} // verus!
