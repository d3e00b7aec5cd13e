//! The snapshot tree.
//!
//! Snapshots form a tree under an unnamed root: a snapshot cloned as a new
//! tree hangs under the root, a branch hangs under the snapshot it was made
//! from. The tree is kept in pre-order as a sequence of entries, each entry a
//! snapshot number and its depth (children of the root have depth 1). A
//! node's subtree is the run of entries after it that are deeper than it; its
//! parent is the nearest entry before it that is shallower than it. New
//! children are appended after their parent's last descendant, so that the
//! order of siblings is the order in which they were added.
use vstd::prelude::*;

verus! {

/// The parent of a snapshot in the tree: the root or another snapshot.
#[derive(PartialEq, Eq, Structural, Debug, Clone, Copy)]
pub enum ParentNode {
    Root,
    Snapshot(u32),
}

/// The snapshot tree (see the module documentation for its layout).
pub struct SnapshotTree {
    ids: Vec<u32>,
    depths: Vec<usize>,
}

/// Depths of a pre-order listing: the first entry is a child of the root,
/// every depth is at least 1, and each entry is at most one level deeper
/// than the entry before it.
pub open spec fn depths_wf(d: Seq<usize>) -> bool {
    &&& d.len() > 0 ==> d[0] == 1
    &&& forall|i: int| 0 <= i < d.len() ==> #[trigger] d[i] >= 1
    &&& forall|i: int| 0 < i < d.len() ==> #[trigger] d[i] <= d[i - 1] + 1
}

/// No snapshot number occurs twice.
pub open spec fn ids_unique(ids: Seq<u32>) -> bool {
    forall|i: int, j: int| 0 <= i < ids.len() && 0 <= j < ids.len() && i != j ==> ids[i] != ids[j]
}

/// A well-formed pair of id and depth sequences.
pub open spec fn entries_wf(ids: Seq<u32>, d: Seq<usize>) -> bool {
    &&& ids.len() == d.len()
    &&& depths_wf(d)
    &&& ids_unique(ids)
}

/// The position of `id` in `ids` (meaningful when `ids` contains it).
pub open spec fn index_of(ids: Seq<u32>, id: u32) -> int {
    choose|i: int| 0 <= i < ids.len() && ids[i] == id
}

/// The first position `k` at or after `from` whose depth is at most the
/// depth of entry `i`, or the length when there is none.
pub open spec fn end_from(d: Seq<usize>, i: int, from: int) -> int
    decreases d.len() - from,
{
    if from < 0 || from >= d.len() {
        d.len() as int
    } else if d[from] <= d[i] {
        from
    } else {
        end_from(d, i, from + 1)
    }
}

/// One past the last entry of the subtree of entry `i`.
pub open spec fn subtree_end(d: Seq<usize>, i: int) -> int {
    end_from(d, i, i + 1)
}

/// The nearest position at or before `j` that is shallower than entry `i`,
/// or -1 when there is none.
pub open spec fn parent_from(d: Seq<usize>, i: int, j: int) -> int
    decreases j + 1,
{
    if j < 0 {
        -1
    } else if d[j] < d[i] {
        j
    } else {
        parent_from(d, i, j - 1)
    }
}

/// The position of the parent of entry `i`, or -1 when the parent is the root.
pub open spec fn parent_index(d: Seq<usize>, i: int) -> int {
    parent_from(d, i, i - 1)
}

/// The parent of entry `i` as a [`ParentNode`].
pub open spec fn parent_node(ids: Seq<u32>, d: Seq<usize>, i: int) -> ParentNode {
    let p = parent_index(d, i);
    if p < 0 {
        ParentNode::Root
    } else {
        ParentNode::Snapshot(ids[p])
    }
}

pub proof fn lemma_end_from(d: Seq<usize>, i: int, from: int)
    requires
        0 <= i < d.len(),
        i < from <= d.len(),
    ensures
        from <= end_from(d, i, from) <= d.len(),
        forall|m: int| from <= m < end_from(d, i, from) ==> d[m] > d[i],
        end_from(d, i, from) < d.len() ==> d[end_from(d, i, from)] <= d[i],
    decreases d.len() - from,
{
    if from < d.len() && d[from] > d[i] {
        lemma_end_from(d, i, from + 1);
    }
}

/// The subtree of entry `i` is the maximal run of deeper entries after it.
pub proof fn lemma_subtree_end(d: Seq<usize>, i: int)
    requires
        0 <= i < d.len(),
    ensures
        i < subtree_end(d, i) <= d.len(),
        forall|m: int| i < m < subtree_end(d, i) ==> d[m] > d[i],
        subtree_end(d, i) < d.len() ==> d[subtree_end(d, i)] <= d[i],
{
    lemma_end_from(d, i, i + 1);
}

proof fn lemma_parent_from(d: Seq<usize>, i: int, j: int)
    requires
        0 <= i < d.len(),
        -1 <= j < i,
        forall|m: int| j < m < i ==> d[m] >= d[i],
    ensures
        -1 <= parent_from(d, i, j) <= j,
        parent_from(d, i, j) >= 0 ==> d[parent_from(d, i, j)] < d[i],
        forall|m: int| parent_from(d, i, j) < m < i ==> d[m] >= d[i],
    decreases j + 1,
{
    if j >= 0 && d[j] >= d[i] {
        lemma_parent_from(d, i, j - 1);
    }
}

/// The parent of entry `i` is the nearest shallower entry before it; in a
/// well-formed listing it is exactly one level up, and the root is the
/// parent exactly of the depth-1 entries.
pub proof fn lemma_parent_index(d: Seq<usize>, i: int)
    requires
        depths_wf(d),
        0 <= i < d.len(),
    ensures
        -1 <= parent_index(d, i) < i,
        forall|m: int| parent_index(d, i) < m < i ==> d[m] >= d[i],
        parent_index(d, i) >= 0 ==> d[parent_index(d, i)] + 1 == d[i],
        parent_index(d, i) < 0 <==> d[i] == 1,
{
    lemma_parent_from(d, i, i - 1);
    let p = parent_index(d, i);
    if p >= 0 {
        if p + 1 < i {
            assert(d[p + 1] <= d[p] + 1);
            assert(d[p + 1] >= d[i]);
        }
        assert(d[i] >= 1);
    } else {
        if i > 0 {
            assert(d[0] >= d[i]);
        }
        assert(d[i] >= 1);
    }
}

/// Every entry of the subtree of `i` other than `i` has its parent inside
/// that subtree.
pub proof fn lemma_subtree_parents(d: Seq<usize>, i: int, k: int)
    requires
        depths_wf(d),
        0 <= i < d.len(),
        i < k < subtree_end(d, i),
    ensures
        i <= parent_index(d, k) < k,
{
    lemma_subtree_end(d, i);
    lemma_parent_index(d, k);
    assert(d[k] > d[i]);
    if parent_index(d, k) < i {
        assert(d[i] >= d[k]);
    }
}

impl SnapshotTree {
    /// The snapshot numbers in pre-order.
    pub closed spec fn ids(&self) -> Seq<u32> {
        self.ids@
    }

    /// The depth of each entry (children of the root have depth 1).
    pub closed spec fn depths(&self) -> Seq<usize> {
        self.depths@
    }

    /// The tree is well formed.
    pub open spec fn wf(&self) -> bool {
        entries_wf(self.ids(), self.depths())
    }

    /// The tree holds snapshot `id`.
    pub open spec fn has(&self, id: u32) -> bool {
        self.ids().contains(id)
    }

    /// A tree that holds only the root.
    pub fn new() -> (t: SnapshotTree)
        ensures
            t.wf(),
            t.ids() == Seq::<u32>::empty(),
            t.depths() == Seq::<usize>::empty(),
    {
        SnapshotTree { ids: Vec::new(), depths: Vec::new() }
    }

    /// Builds a tree from its pre-order entries.
    pub(crate) fn from_entries(ids: Vec<u32>, depths: Vec<usize>) -> (t: SnapshotTree)
        ensures
            t.ids() == ids@,
            t.depths() == depths@,
    {
        SnapshotTree { ids, depths }
    }

    /// The number of snapshots in the tree.
    pub fn len(&self) -> (n: usize)
        requires
            self.wf(),
        ensures
            n == self.ids().len(),
            n == self.depths().len(),
    {
        self.ids.len()
    }

    /// The snapshot number of entry `i`.
    pub fn id_at(&self, i: usize) -> (id: u32)
        requires
            self.wf(),
            i < self.ids().len(),
        ensures
            id == self.ids()[i as int],
    {
        self.ids[i]
    }

    /// The depth of entry `i`.
    pub fn depth_at(&self, i: usize) -> (d: usize)
        requires
            self.wf(),
            i < self.ids().len(),
        ensures
            d == self.depths()[i as int],
    {
        self.depths[i]
    }

    /// The snapshot numbers in pre-order.
    pub fn preorder(&self) -> (v: Vec<u32>)
        ensures
            v@ == self.ids(),
    {
        self.ids.clone()
    }

    /// The position of snapshot `id`, if the tree holds it.
    pub fn find(&self, id: u32) -> (r: Option<usize>)
        requires
            self.wf(),
        ensures
            r is None <==> !self.has(id),
            r matches Some(i) ==> i < self.ids().len() && self.ids()[i as int] == id
                && i == index_of(self.ids(), id),
    {
        let mut i: usize = 0;
        while i < self.ids.len()
            invariant
                i <= self.ids@.len(),
                entries_wf(self.ids@, self.depths@),
                forall|j: int| 0 <= j < i ==> self.ids@[j] != id,
            decreases self.ids@.len() - i,
        {
            if self.ids[i] == id {
                proof {
                    let k = index_of(self.ids(), id);
                    assert(self.ids()[i as int] == id);
                    assert(0 <= k < self.ids().len() && self.ids()[k] == id);
                    assert(k == i as int);
                }
                return Some(i);
            }
            i = i + 1;
        }
        proof {
            if self.has(id) {
                let k = choose|k: int| 0 <= k < self.ids().len() && self.ids()[k] == id;
                assert(self.ids@[k] != id);
            }
        }
        None
    }

    /// Whether the tree holds snapshot `id`.
    pub fn contains(&self, id: u32) -> (b: bool)
        requires
            self.wf(),
        ensures
            b == self.has(id),
    {
        self.find(id).is_some()
    }

    /// One past the last entry of the subtree of entry `i`.
    pub fn subtree_end_of(&self, i: usize) -> (e: usize)
        requires
            self.wf(),
            i < self.ids().len(),
        ensures
            e == subtree_end(self.depths(), i as int),
    {
        proof { lemma_subtree_end(self.depths(), i as int); }
        let n = self.depths.len();
        assert(i < n);
        let mut k = i + 1;
        while k < self.depths.len() && self.depths[k] > self.depths[i]
            invariant
                i < k <= self.depths@.len(),
                end_from(self.depths@, i as int, k as int) == subtree_end(self.depths@, i as int),
            decreases self.depths@.len() - k,
        {
            k = k + 1;
        }
        k
    }

    /// The position of the parent of entry `i`, or `None` for the root.
    pub fn parent_position(&self, i: usize) -> (p: Option<usize>)
        requires
            self.wf(),
            i < self.ids().len(),
        ensures
            match p {
                Some(j) => j as int == parent_index(self.depths(), i as int),
                None => parent_index(self.depths(), i as int) == -1,
            },
    {
        let mut j = i;
        while j > 0
            invariant
                j <= i < self.depths@.len(),
                parent_from(self.depths@, i as int, j - 1) == parent_index(self.depths@, i as int),
            decreases j,
        {
            if self.depths[j - 1] < self.depths[i] {
                return Some(j - 1);
            }
            j = j - 1;
        }
        None
    }

    /// Inserts snapshot `id` at position `pos` with depth `depth`.
    fn insert_entry(&mut self, pos: usize, id: u32, depth: usize)
        requires
            pos <= old(self).ids().len(),
            old(self).ids().len() == old(self).depths().len(),
        ensures
            final(self).ids() == old(self).ids().insert(pos as int, id),
            final(self).depths() == old(self).depths().insert(pos as int, depth),
    {
        self.ids.insert(pos, id);
        self.depths.insert(pos, depth);
    }
}

/// Inserting a child of entry `p` (or of the root when `p` is -1) right
/// after the last entry of `p`'s subtree keeps the listing well formed.
#[verifier::rlimit(30)]
proof fn lemma_insert_child_wf(ids: Seq<u32>, d: Seq<usize>, p: int, val: u32)
    requires
        entries_wf(ids, d),
        -1 <= p < d.len(),
        !ids.contains(val),
        p >= 0 ==> d[p] < usize::MAX,
    ensures
        ({
            let e = if p < 0 { d.len() as int } else { subtree_end(d, p) };
            let nd: usize = if p < 0 { 1 } else { (d[p] + 1) as usize };
            entries_wf(ids.insert(e, val), d.insert(e, nd))
        }),
{
    let e = if p < 0 { d.len() as int } else { subtree_end(d, p) };
    let nd: usize = if p < 0 { 1 } else { (d[p] + 1) as usize };
    if p >= 0 {
        lemma_subtree_end(d, p);
    }
    let ids2 = ids.insert(e, val);
    let d2 = d.insert(e, nd);
    assert forall|i: int| 0 < i < d2.len() implies #[trigger] d2[i] <= d2[i - 1] + 1 by {
        if i < e {
            assert(d2[i] == d[i] && d2[i - 1] == d[i - 1]);
        } else if i == e {
            assert(d2[i - 1] == d[i - 1]);
            if p >= 0 {
                if e - 1 > p {
                    assert(d[e - 1] > d[p]);
                }
            }
        } else if i == e + 1 {
            assert(d2[i] == d[e]);
            if p >= 0 {
                assert(d[e] <= d[p]);
            } else {
                assert(false);
            }
        } else {
            assert(d2[i] == d[i - 1] && d2[i - 1] == d[i - 2]);
        }
    }
    assert forall|i: int| 0 <= i < d2.len() implies #[trigger] d2[i] >= 1 by {
        if i < e {
            assert(d2[i] == d[i]);
        } else if i > e {
            assert(d2[i] == d[i - 1]);
        }
    }
    if d2.len() > 0 {
        if e > 0 {
            assert(d2[0] == d[0]);
        } else if p >= 0 {
            assert(false);
        }
    }
    assert forall|i: int, j: int| 0 <= i < ids2.len() && 0 <= j < ids2.len() && i != j implies ids2[i] != ids2[j] by {
        if i == e {
            if j < e { assert(ids2[j] == ids[j]); } else { assert(ids2[j] == ids[j - 1]); }
        } else if j == e {
            if i < e { assert(ids2[i] == ids[i]); } else { assert(ids2[i] == ids[i - 1]); }
        } else {
            let ii = if i < e { i } else { i - 1 };
            let jj = if j < e { j } else { j - 1 };
            assert(ids2[i] == ids[ii] && ids2[j] == ids[jj]);
        }
    }
}

/// Depths never exceed the position plus one.
pub proof fn lemma_depth_bound(d: Seq<usize>)
    requires
        depths_wf(d),
    ensures
        forall|i: int| 0 <= i < d.len() ==> d[i] <= i + 1,
{
    assert forall|i: int| 0 <= i < d.len() implies d[i] <= i + 1 by {
        lemma_depth_bound_at(d, i);
    }
}

proof fn lemma_depth_bound_at(d: Seq<usize>, i: int)
    requires
        depths_wf(d),
        0 <= i < d.len(),
    ensures
        d[i] <= i + 1,
    decreases i,
{
    if i > 0 {
        lemma_depth_bound_at(d, i - 1);
        assert(d[i] <= d[i - 1] + 1);
    }
}

/// Entry `j` is the parent of entry `i` when it is shallower and every entry
/// between them is at least as deep as `i`.
pub proof fn lemma_parent_is(d: Seq<usize>, i: int, j: int)
    requires
        0 <= i < d.len(),
        -1 <= j < i,
        j >= 0 ==> d[j] < d[i],
        forall|m: int| j < m < i ==> d[m] >= d[i],
    ensures
        parent_index(d, i) == j,
{
    lemma_parent_from_is(d, i, i - 1, j);
}

proof fn lemma_parent_from_is(d: Seq<usize>, i: int, k: int, j: int)
    requires
        0 <= i < d.len(),
        -1 <= j <= k < i,
        j >= 0 ==> d[j] < d[i],
        forall|m: int| j < m < i ==> d[m] >= d[i],
    ensures
        parent_from(d, i, k) == j,
    decreases k + 1,
{
    if k > j {
        lemma_parent_from_is(d, i, k - 1, j);
    }
}

/// In a listing without repeated ids, `index_of` finds the one position
/// that holds the id.
pub proof fn lemma_index_of(ids: Seq<u32>, i: int)
    requires
        ids_unique(ids),
        0 <= i < ids.len(),
    ensures
        index_of(ids, ids[i]) == i,
{
    assert(ids.contains(ids[i]));
    let k = index_of(ids, ids[i]);
    assert(0 <= k < ids.len() && ids[k] == ids[i]);
}

/// The entries of a tree after a new snapshot `val` was added as the last
/// child of entry `p`, or of the root when `p` is -1.
pub open spec fn insert_child_ids(ids: Seq<u32>, d: Seq<usize>, p: int, val: u32) -> Seq<u32> {
    ids.insert(if p < 0 { d.len() as int } else { subtree_end(d, p) }, val)
}

/// The depths of a tree after a new child was added under entry `p`, or
/// under the root when `p` is -1.
pub open spec fn insert_child_depths(d: Seq<usize>, p: int) -> Seq<usize> {
    if p < 0 {
        d.insert(d.len() as int, 1)
    } else {
        d.insert(subtree_end(d, p), (d[p] + 1) as usize)
    }
}

/// Adding a child keeps the listing well formed and makes `p` the parent of
/// the new entry.
proof fn lemma_insert_child(ids: Seq<u32>, d: Seq<usize>, p: int, val: u32)
    requires
        entries_wf(ids, d),
        -1 <= p < d.len(),
        !ids.contains(val),
        d.len() < usize::MAX,
    ensures
        entries_wf(insert_child_ids(ids, d, p, val), insert_child_depths(d, p)),
        ({
            let ids2 = insert_child_ids(ids, d, p, val);
            let d2 = insert_child_depths(d, p);
            let e = index_of(ids2, val);
            &&& 0 <= e < ids2.len()
            &&& ids2[e] == val
            &&& parent_index(d2, e) == (if p < 0 { p } else {
                if p < e { p } else { p + 1 }
            })
            &&& p >= 0 ==> p < e
        }),
{
    lemma_depth_bound(d);
    lemma_insert_child_wf(ids, d, p, val);
    let e = if p < 0 { d.len() as int } else { subtree_end(d, p) };
    let ids2 = insert_child_ids(ids, d, p, val);
    let d2 = insert_child_depths(d, p);
    if p >= 0 {
        lemma_subtree_end(d, p);
    }
    assert(ids2[e] == val);
    lemma_index_of(ids2, e);
    if p < 0 {
        assert forall|m: int| -1 < m < e implies d2[m] >= d2[e] by {
            assert(d2[m] == d[m]);
        }
        lemma_parent_is(d2, e, -1);
    } else {
        assert(d2[p] == d[p]);
        assert forall|m: int| p < m < e implies d2[m] >= d2[e] by {
            assert(d2[m] == d[m]);
        }
        lemma_parent_is(d2, e, p);
    }
}

/// Adds snapshot `val` as the last child of the root.
pub fn append_base_tree(tree: &mut SnapshotTree, val: u32)
    requires
        old(tree).wf(),
        !old(tree).has(val),
        old(tree).ids().len() < usize::MAX,
    ensures
        final(tree).wf(),
        final(tree).ids() == old(tree).ids().push(val),
        final(tree).depths() == old(tree).depths().push(1),
        parent_node(final(tree).ids(), final(tree).depths(), index_of(final(tree).ids(), val))
            == ParentNode::Root,
{
    proof {
        lemma_insert_child(tree.ids(), tree.depths(), -1, val);
        assert(tree.ids().insert(tree.ids().len() as int, val) =~= tree.ids().push(val));
        assert(tree.depths().insert(tree.depths().len() as int, 1) =~= tree.depths().push(1));
    }
    let n = tree.len();
    tree.insert_entry(n, val, 1);
}

/// Adds snapshot `val` as the last child of snapshot `id`. A tree that does
/// not hold `id` is left unchanged.
pub fn add_node_to_parent(tree: &mut SnapshotTree, id: u32, val: u32)
    requires
        old(tree).wf(),
        !old(tree).has(val),
        old(tree).ids().len() < usize::MAX,
    ensures
        final(tree).wf(),
        old(tree).has(id) ==> {
            let p = index_of(old(tree).ids(), id);
            &&& final(tree).ids() == insert_child_ids(old(tree).ids(), old(tree).depths(), p, val)
            &&& final(tree).depths() == insert_child_depths(old(tree).depths(), p)
            &&& parent_node(final(tree).ids(), final(tree).depths(), index_of(final(tree).ids(), val))
                == ParentNode::Snapshot(id)
        },
        !old(tree).has(id) ==> final(tree).ids() == old(tree).ids() && final(tree).depths()
            == old(tree).depths(),
{
    match tree.find(id) {
        Some(p) => {
            let ghost ids0 = tree.ids();
            let ghost d0 = tree.depths();
            proof {
                lemma_insert_child(ids0, d0, p as int, val);
                lemma_depth_bound(d0);
                lemma_subtree_end(d0, p as int);
            }
            let e = tree.subtree_end_of(p);
            let dp = tree.depth_at(p);
            tree.insert_entry(e, val, dp + 1);
            assert(tree.ids() == insert_child_ids(ids0, d0, p as int, val));
            assert(tree.depths() == insert_child_depths(d0, p as int));
        },
        None => {},
    }
}

/// Adds snapshot `val` next to snapshot `id`: as the last child of `id`'s
/// parent, which may be the root.
pub fn add_node_to_level(tree: &mut SnapshotTree, id: u32, val: u32)
    requires
        old(tree).wf(),
        old(tree).has(id),
        !old(tree).has(val),
        old(tree).ids().len() < usize::MAX,
    ensures
        final(tree).wf(),
        ({
            let i = index_of(old(tree).ids(), id);
            let p = parent_index(old(tree).depths(), i);
            &&& final(tree).ids() == insert_child_ids(old(tree).ids(), old(tree).depths(), p, val)
            &&& final(tree).depths() == insert_child_depths(old(tree).depths(), p)
            &&& parent_node(final(tree).ids(), final(tree).depths(), index_of(final(tree).ids(), val))
                == parent_node(old(tree).ids(), old(tree).depths(), i)
        }),
{
    let i = tree.find(id).unwrap();
    let ghost ids0 = tree.ids();
    let ghost d0 = tree.depths();
    proof {
        lemma_parent_index(d0, i as int);
        lemma_depth_bound(d0);
    }
    match tree.parent_position(i) {
        Some(p) => {
            proof {
                lemma_insert_child(ids0, d0, p as int, val);
                lemma_subtree_end(d0, p as int);
            }
            let e = tree.subtree_end_of(p);
            let dp = tree.depth_at(p);
            tree.insert_entry(e, val, dp + 1);
            assert(tree.ids() == insert_child_ids(ids0, d0, p as int, val));
            assert(tree.depths() == insert_child_depths(d0, p as int));
        },
        None => {
            proof { lemma_insert_child(ids0, d0, -1, val); }
            let n = tree.len();
            tree.insert_entry(n, val, 1);
            assert(tree.ids() == insert_child_ids(ids0, d0, -1, val));
            assert(tree.depths() == insert_child_depths(d0, -1));
        },
    }
}

/// The parent of snapshot `id`, or `None` when the tree does not hold it.
pub fn get_parent(tree: &SnapshotTree, id: u32) -> (r: Option<ParentNode>)
    requires
        tree.wf(),
    ensures
        r == (if tree.has(id) {
            Some(parent_node(tree.ids(), tree.depths(), index_of(tree.ids(), id)))
        } else {
            None
        }),
{
    match tree.find(id) {
        Some(i) => {
            proof { lemma_parent_index(tree.depths(), i as int); }
            match tree.parent_position(i) {
                Some(p) => Some(ParentNode::Snapshot(tree.id_at(p))),
                None => Some(ParentNode::Root),
            }
        },
        None => None,
    }
}

/// The snapshots below `id`, in pre-order.
pub fn return_children(tree: &SnapshotTree, id: u32) -> (r: Vec<u32>)
    requires
        tree.wf(),
        tree.has(id),
    ensures
        ({
            let i = index_of(tree.ids(), id);
            r@ == tree.ids().subrange(i + 1, subtree_end(tree.depths(), i))
        }),
{
    let i = tree.find(id).unwrap();
    let e = tree.subtree_end_of(i);
    proof { lemma_subtree_end(tree.depths(), i as int); }
    let mut r: Vec<u32> = Vec::new();
    let mut k = i + 1;
    while k < e
        invariant
            tree.wf(),
            i < k <= e <= tree.ids().len(),
            r@ == tree.ids().subrange(i + 1, k as int),
        decreases e - k,
    {
        r.push(tree.id_at(k));
        k = k + 1;
        assert(r@ =~= tree.ids().subrange(i + 1, k as int));
    }
    r
}

/// Entries `2k` and `2k + 1` of `order` are the parent and the snapshot of
/// the `k`-th entry below entry `i`, and that parent lies within `i`'s subtree.
pub open spec fn recursion_pair(ids: Seq<u32>, d: Seq<usize>, order: Seq<u32>, i: int, k: int) -> bool {
    &&& i <= parent_index(d, i + 1 + k) < i + 1 + k
    &&& order[2 * k] == ids[parent_index(d, i + 1 + k)]
    &&& order[2 * k + 1] == ids[i + 1 + k]
}

/// For each snapshot below `cid`, in pre-order, its parent followed by the
/// snapshot itself: the order in which a change propagates down a tree.
pub fn recurse_tree(tree: &SnapshotTree, cid: u32) -> (order: Vec<u32>)
    requires
        tree.wf(),
        tree.has(cid),
    ensures
        ({
            let i = index_of(tree.ids(), cid);
            let e = subtree_end(tree.depths(), i);
            &&& order.len() == 2 * (e - i - 1)
            &&& forall|k: int| 0 <= k < e - i - 1 ==> #[trigger] recursion_pair(tree.ids(), tree.depths(), order@, i, k)
        }),
{
    let i = tree.find(cid).unwrap();
    let e = tree.subtree_end_of(i);
    proof { lemma_subtree_end(tree.depths(), i as int); }
    let mut order: Vec<u32> = Vec::new();
    let mut k = i + 1;
    while k < e
        invariant
            tree.wf(),
            i < k <= e <= tree.ids().len(),
            e == subtree_end(tree.depths(), i as int),
            order.len() == 2 * (k - i - 1),
            forall|j: int| 0 <= j < k - i - 1 ==> #[trigger] recursion_pair(tree.ids(), tree.depths(), order@, i as int, j),
        decreases e - k,
    {
        proof { lemma_subtree_parents(tree.depths(), i as int, k as int); }
        let p = tree.parent_position(k).unwrap();
        let ghost old_order = order@;
        order.push(tree.id_at(p));
        order.push(tree.id_at(k));
        assert(order@[2 * (k - i - 1)] == tree.ids()[parent_index(tree.depths(), k as int)]);
        assert(order@[2 * (k - i - 1) + 1] == tree.ids()[k as int]);
        k = k + 1;
        assert forall|j: int| 0 <= j < k - i - 1 implies #[trigger] recursion_pair(tree.ids(), tree.depths(), order@, i as int, j) by {
            if j < k - i - 2 {
                assert(recursion_pair(tree.ids(), tree.depths(), old_order, i as int, j));
                assert(order@[2 * j] == old_order[2 * j]);
                assert(order@[2 * j + 1] == old_order[2 * j + 1]);
            }
        }
    }
    order
}

/// Removes snapshot `id` and everything below it.
pub fn remove_node(tree: &mut SnapshotTree, id: u32)
    requires
        old(tree).wf(),
        old(tree).has(id),
    ensures
        final(tree).wf(),
        ({
            let i = index_of(old(tree).ids(), id);
            let e = subtree_end(old(tree).depths(), i);
            &&& final(tree).ids() == old(tree).ids().subrange(0, i) + old(tree).ids().subrange(
                e,
                old(tree).ids().len() as int,
            )
            &&& final(tree).depths() == old(tree).depths().subrange(0, i)
                + old(tree).depths().subrange(e, old(tree).depths().len() as int)
        }),
{
    let i = tree.find(id).unwrap();
    let e = tree.subtree_end_of(i);
    let n = tree.len();
    proof { lemma_subtree_end(tree.depths(), i as int); }
    let ghost ids0 = tree.ids();
    let ghost d0 = tree.depths();
    let mut ids: Vec<u32> = Vec::new();
    let mut depths: Vec<usize> = Vec::new();
    let mut k: usize = 0;
    while k < n
        invariant
            entries_wf(ids0, d0),
            tree.ids() == ids0,
            tree.depths() == d0,
            n == ids0.len(),
            n == d0.len(),
            i < e <= n,
            k <= n,
            ids@ == ids0.subrange(0, if k < i { k as int } else { i as int }) + ids0.subrange(
                e as int,
                if k < e { e as int } else { k as int },
            ),
            depths@ == d0.subrange(0, if k < i { k as int } else { i as int }) + d0.subrange(
                e as int,
                if k < e { e as int } else { k as int },
            ),
        decreases n - k,
    {
        if k < i || k >= e {
            ids.push(tree.id_at(k));
            depths.push(tree.depth_at(k));
        }
        k = k + 1;
        assert(ids@ =~= ids0.subrange(0, if k < i { k as int } else { i as int }) + ids0.subrange(
            e as int,
            if k < e { e as int } else { k as int },
        ));
        assert(depths@ =~= d0.subrange(0, if k < i { k as int } else { i as int }) + d0.subrange(
            e as int,
            if k < e { e as int } else { k as int },
        ));
    }
    proof {
        let ids2 = ids@;
        let d2 = depths@;
        assert forall|a: int| 0 < a < d2.len() implies #[trigger] d2[a] <= d2[a - 1] + 1 by {
            if a < i {
                assert(d2[a] == d0[a] && d2[a - 1] == d0[a - 1]);
            } else if a == i {
                assert(d2[a] == d0[e as int]);
                assert(d2[a - 1] == d0[a - 1]);
                assert(d0[e as int] <= d0[i as int]);
            } else {
                assert(d2[a] == d0[a - i + e] && d2[a - 1] == d0[a - 1 - i + e]);
            }
        }
        assert forall|a: int| 0 <= a < d2.len() implies #[trigger] d2[a] >= 1 by {
            if a < i {
                assert(d2[a] == d0[a]);
            } else {
                assert(d2[a] == d0[a - i + e]);
            }
        }
        if d2.len() > 0 {
            if i > 0 {
                assert(d2[0] == d0[0]);
            } else {
                assert(d2[0] == d0[e as int]);
                assert(d0[e as int] <= d0[0]);
            }
        }
        assert forall|a: int, b: int| 0 <= a < ids2.len() && 0 <= b < ids2.len() && a != b implies ids2[a]
            != ids2[b] by {
            let aa = if a < i { a } else { a - i + e };
            let bb = if b < i { b } else { b - i + e };
            assert(ids2[a] == ids0[aa] && ids2[b] == ids0[bb]);
        }
    }
    *tree = SnapshotTree::from_entries(ids, depths);
}


/// The pairs of a recursion order: each parent and snapshot pair, in turn,
/// as tree commands visit them.
pub open spec fn walk_pairs(order: Seq<u32>) -> Seq<(u32, u32)> {
    Seq::new(order.len() / 2, |k: int| (order[2 * k], order[2 * k + 1]))
}

/// The parent and snapshot pairs that a tree command visits, given the
/// recursion order of the tree: every snapshot below the tree's top, after
/// its parent.
pub fn walk_order(order: &Vec<u32>) -> (pairs: Vec<(u32, u32)>)
    ensures
        pairs@ == walk_pairs(order@),
{
    let mut pairs: Vec<(u32, u32)> = Vec::new();
    let mut k: usize = 0;
    let mut i: usize = 0;
    while order.len() - i >= 2
        invariant
            i == 2 * k,
            i <= order@.len(),
            pairs@.len() == k,
            forall|j: int| 0 <= j < k ==> #[trigger] pairs@[j] == (order@[2 * j], order@[2 * j + 1]),
        decreases order@.len() - i,
    {
        pairs.push((order[i], order[i + 1]));
        k = k + 1;
        i = i + 2;
    }
    assert(k == order@.len() / 2);
    assert(pairs@ =~= walk_pairs(order@));
    pairs
}


/// Deleting a snapshot removes it together with all its branches: after
/// [`remove_node`], no snapshot of the removed subtree is left, and every
/// other snapshot stays.
pub proof fn lemma_remove_node_removes_branches(ids: Seq<u32>, d: Seq<usize>, i: int)
    requires
        entries_wf(ids, d),
        0 <= i < ids.len(),
    ensures
        ({
            let e = subtree_end(d, i);
            let kept = ids.subrange(0, i) + ids.subrange(e, ids.len() as int);
            &&& forall|k: int| i <= k < e ==> !kept.contains(#[trigger] ids[k])
            &&& forall|k: int| 0 <= k < ids.len() && !(i <= k < e) ==> kept.contains(#[trigger] ids[k])
        }),
{
    lemma_subtree_end(d, i);
    let e = subtree_end(d, i);
    let kept = ids.subrange(0, i) + ids.subrange(e, ids.len() as int);
    assert forall|k: int| i <= k < e implies !kept.contains(#[trigger] ids[k]) by {
        if kept.contains(ids[k]) {
            let j = choose|j: int| 0 <= j < kept.len() && kept[j] == ids[k];
            let jj = if j < i { j } else { j - i + e };
            assert(kept[j] == ids[jj]);
            assert(jj != k);
        }
    }
    assert forall|k: int| 0 <= k < ids.len() && !(i <= k < e) implies kept.contains(#[trigger] ids[k]) by {
        let j = if k < i { k } else { k - e + i };
        assert(kept[j] == ids[k]);
    }
}


/// A tree command reaches every branch of the tree: walking the recursion
/// order of the snapshot at `i` visits each snapshot below it exactly once,
/// in pre-order, paired with its parent, and that parent is the tree's top
/// or a snapshot visited before.
pub proof fn lemma_walk_reaches_every_branch(ids: Seq<u32>, d: Seq<usize>, i: int, order: Seq<u32>)
    requires
        entries_wf(ids, d),
        0 <= i < ids.len(),
        order.len() == 2 * (subtree_end(d, i) - i - 1),
        forall|k: int| 0 <= k < subtree_end(d, i) - i - 1 ==> #[trigger] recursion_pair(ids, d, order, i, k),
    ensures
        walk_pairs(order).len() == subtree_end(d, i) - i - 1,
        forall|k: int| 0 <= k < walk_pairs(order).len() ==> (#[trigger] walk_pairs(order)[k]).1 == ids[i + 1 + k],
        forall|k: int| 0 <= k < walk_pairs(order).len() ==> {
            let p = parent_index(d, i + 1 + k);
            &&& (#[trigger] walk_pairs(order)[k]).0 == ids[p]
            &&& (p == i || (0 <= p - i - 1 < k && walk_pairs(order)[p - i - 1].1 == ids[p]))
        },
{
    lemma_subtree_end(d, i);
    let w = walk_pairs(order);
    assert forall|k: int| 0 <= k < w.len() implies (#[trigger] w[k]).1 == ids[i + 1 + k] by {
        assert(recursion_pair(ids, d, order, i, k));
    }
    assert forall|k: int| 0 <= k < w.len() implies {
        let p = parent_index(d, i + 1 + k);
        &&& (#[trigger] w[k]).0 == ids[p]
        &&& (p == i || (0 <= p - i - 1 < k && w[p - i - 1].1 == ids[p]))
    } by {
        assert(recursion_pair(ids, d, order, i, k));
        let p = parent_index(d, i + 1 + k);
        if p != i {
            assert(recursion_pair(ids, d, order, i, p - i - 1));
        }
    }
}

} // verus!
