//! Cloning a whole tree.
//!
//! A snapshot is cloned as a sibling of itself, then every snapshot below
//! it, in pre-order, is cloned under the clone of its parent, so that the
//! clones form a copy of the tree they were made from. Each clone is made on disk and
//! gets a fresh number there; this state machine says which clone to make
//! next and records the number each one got.
use vstd::prelude::*;
use crate::tree::{SnapshotTree, index_of, parent_index, subtree_end, lemma_subtree_end, lemma_subtree_parents};
use crate::error::{AshError, missing, missing_msg, ErrorKind};

verus! {

/// The next clone to make.
#[derive(PartialEq, Eq, Structural, Debug, Clone, Copy)]
pub enum CloneStep {
    /// Clone snapshot `0` next to itself, under its own parent.
    Branch(u32),
    /// Clone snapshot `branch` as a child of snapshot `parent`.
    Under { parent: u32, branch: u32 },
    /// The tree is cloned.
    Done,
}

/// The progress of cloning the tree of one snapshot.
pub struct TreeClone {
    sources: Vec<u32>,
    parents: Vec<usize>,
    clones: Vec<u32>,
}

impl TreeClone {
    /// The snapshots to clone: the top snapshot, then those below it in
    /// pre-order.
    pub closed spec fn sources(&self) -> Seq<u32> {
        self.sources@
    }

    /// For each snapshot to clone after the first, the position of its
    /// parent among the sources.
    pub closed spec fn parents(&self) -> Seq<usize> {
        self.parents@
    }

    /// The numbers of the clones made so far, in the order of the sources.
    pub closed spec fn clones(&self) -> Seq<u32> {
        self.clones@
    }

    /// The state is consistent: one parent per source, each before its child,
    /// and no more clones than sources.
    pub open spec fn wf(&self) -> bool {
        &&& self.sources().len() >= 1
        &&& self.parents().len() == self.sources().len()
        &&& self.clones().len() <= self.sources().len()
        &&& forall|k: int| 1 <= k < self.sources().len() ==> #[trigger] self.parents()[k] < k
    }

    /// The clone to make next.
    pub open spec fn step_of(&self) -> CloneStep {
        let k = self.clones().len() as int;
        if k == 0 {
            CloneStep::Branch(self.sources()[0])
        } else if k < self.sources().len() {
            CloneStep::Under { parent: self.clones()[self.parents()[k] as int], branch: self.sources()[k] }
        } else {
            CloneStep::Done
        }
    }

    /// The clone to make next: first the top snapshot next to itself, then
    /// each snapshot below it under the clone of its parent.
    pub fn next_step(&self) -> (s: CloneStep)
        requires
            self.wf(),
        ensures
            s == self.step_of(),
    {
        let k = self.clones.len();
        if k == 0 {
            CloneStep::Branch(self.sources[0])
        } else if k < self.sources.len() {
            let p = self.parents[k];
            CloneStep::Under { parent: self.clones[p], branch: self.sources[k] }
        } else {
            CloneStep::Done
        }
    }

    /// Records the number that the clone made last got.
    pub fn record(&mut self, made: u32)
        requires
            old(self).wf(),
            old(self).clones().len() < old(self).sources().len(),
        ensures
            final(self).wf(),
            final(self).sources() == old(self).sources(),
            final(self).parents() == old(self).parents(),
            final(self).clones() == old(self).clones().push(made),
    {
        self.clones.push(made);
    }

    /// The numbers of the clones made so far.
    pub fn made(&self) -> (v: Vec<u32>)
        ensures
            v@ == self.clones(),
    {
        self.clones.clone()
    }
}

/// Starts cloning the tree of `snapshot`; `exists` says whether its
/// subvolume exists. The sources are `snapshot` and the snapshots below it in
/// pre-order, and each one's parent is recorded by its position among them.
pub fn clone_recursive(tree: &SnapshotTree, snapshot: u32, name: &str, exists: bool) -> (r: Result<TreeClone, AshError>)
    requires
        tree.wf(),
        exists ==> tree.has(snapshot),
    ensures
        !exists ==> (r matches Err(e) && e.kind == ErrorKind::NotFound && e.message@ == missing_msg("clone"@, name@)),
        exists ==> (r matches Ok(c) && {
            let i = index_of(tree.ids(), snapshot);
            let e = subtree_end(tree.depths(), i);
            &&& c.wf()
            &&& c.clones().len() == 0
            &&& c.sources() == tree.ids().subrange(i, e)
            &&& forall|k: int| 1 <= k < c.sources().len() ==> #[trigger] c.parents()[k] == parent_index(tree.depths(), i + k) - i
        }),
{
    if !exists {
        return Err(missing("clone", name));
    }
    let i = tree.find(snapshot).unwrap();
    let e = tree.subtree_end_of(i);
    proof { lemma_subtree_end(tree.depths(), i as int); }
    let mut sources: Vec<u32> = Vec::new();
    let mut parents: Vec<usize> = Vec::new();
    sources.push(snapshot);
    parents.push(0);
    let mut k = i + 1;
    while k < e
        invariant
            tree.wf(),
            i < k <= e <= tree.ids().len(),
            i as int == index_of(tree.ids(), snapshot),
            tree.ids()[i as int] == snapshot,
            e as int == subtree_end(tree.depths(), i as int),
            sources@ == tree.ids().subrange(i as int, k as int),
            parents@.len() == sources@.len(),
            forall|j: int| 1 <= j < sources@.len() ==> #[trigger] parents@[j] as int == parent_index(tree.depths(), i + j) - i,
            forall|j: int| 1 <= j < sources@.len() ==> #[trigger] parents@[j] < j,
        decreases e - k,
    {
        proof { lemma_subtree_parents(tree.depths(), i as int, k as int); }
        let p = tree.parent_position(k).unwrap();
        let ghost before = parents@;
        sources.push(tree.id_at(k));
        parents.push(p - i);
        proof {
            assert(sources@ =~= tree.ids().subrange(i as int, k + 1));
            assert forall|j: int| 1 <= j < sources@.len() implies #[trigger] parents@[j] as int == parent_index(tree.depths(), i + j) - i
                && parents@[j] < j by {
                if j < before.len() {
                    assert(parents@[j] == before[j]);
                }
            }
        }
        k = k + 1;
    }
    let c = TreeClone { sources, parents, clones: Vec::new() };
    proof {
        assert forall|j: int| 1 <= j < c.sources().len() implies #[trigger] c.parents()[j] < j by {
            assert(parents@[j] < j);
        }
    }
    Ok(c)
}

} // verus!
