//! Drawing the snapshot tree.
//!
//! The tree is shown one snapshot per line under a line for the root, each
//! line indented by one four-character segment per level: `├── ` or `└── `
//! before the snapshot itself, and `│   ` or four blanks for each of its
//! ancestors, depending on whether that node has a later sibling. A snapshot
//! is followed by ` - ` and its description, or by `*- ` when it is the
//! running snapshot. The base snapshot `0` is always described as
//! `base snapshot`.
use vstd::prelude::*;
use crate::text::{chars_of, dec, decimal, push_all, string_of};
use crate::tree::{SnapshotTree, subtree_end, lemma_subtree_end};
use crate::config::vec_eq;

verus! {

/// The nearest position at or before `j` whose depth is at most `a`, or -1
/// when there is none.
pub open spec fn level_from(d: Seq<usize>, a: int, j: int) -> int
    decreases j + 1,
{
    if j < 0 {
        -1
    } else if d[j] <= a {
        j
    } else {
        level_from(d, a, j - 1)
    }
}

/// Entry `k` has no later sibling: its subtree is not followed by an entry
/// of the same depth.
pub open spec fn is_last_sibling(d: Seq<usize>, k: int) -> bool {
    let e = subtree_end(d, k);
    !(e < d.len() && d[e] == d[k])
}

/// The segment of level `a` in the indentation of entry `i`.
pub open spec fn segment(d: Seq<usize>, i: int, a: int) -> Seq<char> {
    let k = level_from(d, a, i);
    if a == d[i] {
        if is_last_sibling(d, k) { "└── "@ } else { "├── "@ }
    } else {
        if is_last_sibling(d, k) { "    "@ } else { "│   "@ }
    }
}

/// The segments of levels 1 to `a` of entry `i`.
pub open spec fn indent(d: Seq<usize>, i: int, a: int) -> Seq<char>
    decreases a,
{
    if a <= 0 {
        Seq::empty()
    } else {
        indent(d, i, a - 1) + segment(d, i, a)
    }
}

/// The description shown for entry `i`: the one given for it, or nothing
/// when none is given.
pub open spec fn desc_of(descs: Seq<String>, i: int) -> Seq<char> {
    if 0 <= i < descs.len() { descs[i]@ } else { Seq::empty() }
}

/// What follows the indentation: the number, the marker of the running
/// snapshot and the description.
pub open spec fn node_label(id: u32, current: Seq<char>, desc: Seq<char>) -> Seq<char> {
    dec(id as nat) + (if dec(id as nat) == current { "*- "@ } else { " - "@ }) + (if id == 0 {
        "base snapshot"@
    } else {
        desc
    })
}

/// The line of entry `i`, without its line feed.
pub open spec fn tree_line(ids: Seq<u32>, d: Seq<usize>, i: int, current: Seq<char>, descs: Seq<String>) -> Seq<char> {
    indent(d, i, d[i] as int) + node_label(ids[i], current, desc_of(descs, i))
}

/// The lines of the first `k` entries, each ended by a line feed.
pub open spec fn lines_upto(ids: Seq<u32>, d: Seq<usize>, k: int, current: Seq<char>, descs: Seq<String>) -> Seq<char>
    decreases k,
{
    if k <= 0 {
        Seq::empty()
    } else {
        lines_upto(ids, d, k - 1, current, descs) + tree_line(ids, d, k - 1, current, descs) + "\n"@
    }
}

/// The whole drawing: the root line, then one line per snapshot in pre-order.
pub open spec fn tree_view(ids: Seq<u32>, d: Seq<usize>, current: Seq<char>, root_desc: Seq<char>, descs: Seq<String>) -> Seq<char> {
    "root - "@ + root_desc + "\n"@ + lines_upto(ids, d, ids.len() as int, current, descs)
}

/// The position of the nearest entry at or before `i` of depth at most `a`.
fn level_position(tree: &SnapshotTree, a: usize, i: usize) -> (k: usize)
    requires
        tree.wf(),
        i < tree.ids().len(),
        1 <= a,
    ensures
        k as int == level_from(tree.depths(), a as int, i as int),
        k <= i,
{
    let ghost d = tree.depths();
    let mut j = i;
    while tree.depth_at(j) > a
        invariant
            tree.wf(),
            d == tree.depths(),
            j <= i < d.len(),
            1 <= a,
            level_from(d, a as int, i as int) == level_from(d, a as int, j as int),
        decreases j,
    {
        assert(j > 0) by {
            if j == 0 {
                assert(d[0] == 1);
            }
        }
        j = j - 1;
    }
    j
}

/// Whether entry `k` has no later sibling.
fn last_sibling(tree: &SnapshotTree, k: usize) -> (b: bool)
    requires
        tree.wf(),
        k < tree.ids().len(),
    ensures
        b == is_last_sibling(tree.depths(), k as int),
{
    proof { lemma_subtree_end(tree.depths(), k as int); }
    let e = tree.subtree_end_of(k);
    let n = tree.len();
    if e < n {
        let same = tree.depth_at(e) == tree.depth_at(k);
        !same
    } else {
        true
    }
}

/// The segment of level `a` in the indentation of entry `i`.
fn segment_chars(tree: &SnapshotTree, i: usize, a: usize) -> (seg: Vec<char>)
    requires
        tree.wf(),
        i < tree.ids().len(),
        1 <= a <= tree.depths()[i as int],
    ensures
        seg@ == segment(tree.depths(), i as int, a as int),
{
    let k = level_position(tree, a, i);
    let last = last_sibling(tree, k);
    if a == tree.depth_at(i) {
        if last { chars_of("└── ") } else { chars_of("├── ") }
    } else {
        if last { chars_of("    ") } else { chars_of("│   ") }
    }
}

/// Appends the indentation of entry `i`.
fn push_indent(out: &mut Vec<char>, tree: &SnapshotTree, i: usize)
    requires
        tree.wf(),
        i < tree.ids().len(),
    ensures
        final(out)@ == old(out)@ + indent(tree.depths(), i as int, tree.depths()[i as int] as int),
{
    let ghost d = tree.depths();
    let ghost start = out@;
    let depth = tree.depth_at(i);
    let mut a: usize = 0;
    proof {
        assert(out@ =~= start + indent(d, i as int, 0));
    }
    while a < depth
        invariant
            tree.wf(),
            d == tree.depths(),
            i < d.len(),
            depth == d[i as int],
            a <= depth,
            out@ == start + indent(d, i as int, a as int),
        decreases depth - a,
    {
        let seg = segment_chars(tree, i, a + 1);
        push_all(out, seg.as_slice());
        proof {
            assert(out@ =~= start + indent(d, i as int, a + 1));
        }
        a = a + 1;
    }
}

/// Appends what follows the indentation of a snapshot's line.
fn push_label(out: &mut Vec<char>, id: u32, current: &Vec<char>, desc: &Vec<char>)
    ensures
        final(out)@ == old(out)@ + node_label(id, current@, desc@),
{
    let ghost start = out@;
    let num = decimal(id);
    push_all(out, num.as_slice());
    let same = vec_eq(&num, current);
    if same {
        let m = chars_of("*- ");
        push_all(out, m.as_slice());
    } else {
        let m = chars_of(" - ");
        push_all(out, m.as_slice());
    }
    if id == 0 {
        let b = chars_of("base snapshot");
        push_all(out, b.as_slice());
    } else {
        push_all(out, desc.as_slice());
    }
    proof {
        assert(out@ =~= start + node_label(id, current@, desc@));
    }
}

/// Draws the snapshot tree. `current` is the number of the running
/// snapshot, `root_desc` the description of the root, and `descs` the
/// description of each snapshot in pre-order.
pub fn tree_show(tree: &SnapshotTree, current: &str, root_desc: &str, descs: &Vec<String>) -> (view: String)
    requires
        tree.wf(),
    ensures
        view@ == tree_view(tree.ids(), tree.depths(), current@, root_desc@, descs@),
{
    let ghost ids = tree.ids();
    let ghost d = tree.depths();
    let cur = chars_of(current);
    let mut out = chars_of("root - ");
    let rd = chars_of(root_desc);
    push_all(&mut out, rd.as_slice());
    out.push('\n');
    let ghost header = out@;
    proof {
        assert(header =~= "root - "@ + root_desc@ + "\n"@) by {
            reveal_strlit("\n");
        }
        assert(out@ =~= header + lines_upto(ids, d, 0, current@, descs@));
    }
    let n = tree.len();
    let mut i: usize = 0;
    while i < n
        invariant
            tree.wf(),
            ids == tree.ids(),
            d == tree.depths(),
            n == ids.len(),
            i <= n,
            cur@ == current@,
            out@ == header + lines_upto(ids, d, i as int, current@, descs@),
        decreases n - i,
    {
        let ghost before = out@;
        push_indent(&mut out, tree, i);
        let desc = if i < descs.len() { chars_of(descs[i].as_str()) } else { Vec::new() };
        proof {
            assert(desc@ == desc_of(descs@, i as int));
        }
        let id = tree.id_at(i);
        push_label(&mut out, id, &cur, &desc);
        out.push('\n');
        proof {
            reveal_strlit("\n");
            assert(out@ =~= before + tree_line(ids, d, i as int, current@, descs@) + "\n"@);
            assert(out@ =~= header + lines_upto(ids, d, i + 1, current@, descs@));
        }
        i = i + 1;
    }
    string_of(out.as_slice())
}

/// What `level_from` finds: a position of depth at most `a`, with every
/// entry after it up to `j` deeper than `a`.
proof fn lemma_level_from(d: Seq<usize>, a: int, j: int)
    requires
        -1 <= j < d.len(),
    ensures
        -1 <= level_from(d, a, j) <= j,
        level_from(d, a, j) >= 0 ==> d[level_from(d, a, j)] <= a,
        forall|k: int| level_from(d, a, j) < k <= j ==> d[k] > a,
    decreases j + 1,
{
    if j >= 0 && d[j] > a {
        lemma_level_from(d, a, j - 1);
    }
}

/// Every entry has an ancestor at each depth from 1 to its own (itself at
/// its own depth): the nearest entry at or before it of that depth, with
/// only deeper entries in between.
pub proof fn lemma_ancestor_exists(d: Seq<usize>, i: int, a: int)
    requires
        crate::tree::depths_wf(d),
        0 <= i < d.len(),
        1 <= a <= d[i],
    ensures
        exists|j: int| 0 <= j <= i && d[j] == a && (forall|k: int| j < k <= i ==> #[trigger] d[k] > a),
{
    lemma_level_from(d, a, i);
    let j = level_from(d, a, i);
    if j < 0 {
        assert(d[0] > a);
    }
    if j < i {
        assert(d[j + 1] > a);
        assert(d[j + 1] <= d[j] + 1);
    }
    assert(d[j] == a);
}

/// The columns of the drawing. For entry `i` and its ancestor `j` at depth
/// `a` (the nearest entry at or before `i` of depth `a`, with only deeper
/// entries in between), the segment of level `a` depends on whether `j`
/// has a later sibling: a later entry of depth `a` with only deeper
/// entries before it. At the entry's own depth it is `├── ` when it has
/// one and `└── ` when it has none; at an ancestor's depth it is a bar
/// `│   ` when that ancestor has one and four blanks when it has none.
pub proof fn lemma_segment_columns(d: Seq<usize>, i: int, a: int, j: int)
    requires
        0 <= j <= i < d.len(),
        1 <= a <= d[i],
        d[j] == a,
        forall|k: int| j < k <= i ==> #[trigger] d[k] > a,
    ensures
        segment(d, i, a) == (if exists|m: int| j < m < d.len() && d[m] == a && (forall|k: int| j < k < m ==> #[trigger] d[k] > a) {
            if a == d[i] { "├── "@ } else { "│   "@ }
        } else {
            if a == d[i] { "└── "@ } else { "    "@ }
        }),
{
    lemma_level_from(d, a, i);
    let r = level_from(d, a, i);
    if r < j {
        assert(d[j] > a);
    }
    if r > j {
        assert(d[r] > a);
    }
    assert(r == j);
    lemma_subtree_end(d, j);
    let e = subtree_end(d, j);
    let later = exists|m: int| j < m < d.len() && d[m] == a && (forall|k: int| j < k < m ==> #[trigger] d[k] > a);
    if later {
        let m = choose|m: int| j < m < d.len() && d[m] == a && (forall|k: int| j < k < m ==> #[trigger] d[k] > a);
        if e < m {
            assert(d[e] > a);
        }
        if m < e {
            assert(d[m] > d[j]);
        }
        assert(!is_last_sibling(d, j));
    } else {
        if e < d.len() && d[e] == d[j] {
            assert(forall|k: int| j < k < e ==> #[trigger] d[k] > a);
            assert(false);
        }
        assert(is_last_sibling(d, j));
    }
}

} // verus!
