//! Copies of trees.

use crate::geometry2d::{Coordinate, Spacial};
use crate::r_tree::{ChildRecord, Config, Entry, ObjectId, ObjectRecord, RTree};
use vstd::prelude::*;

verus! {

impl<T: Coordinate, O: ObjectId> Entry<T, O> {
    /// The two nodes are of the same kind and level and hold the same entries
    /// in the same order, and so at every depth.
    pub open spec fn is_copy_of(self, other: Self) -> bool
        decreases self,
    {
        match (self, other) {
            (Entry::Leaf { children }, Entry::Leaf { children: others }) => children@ == others@,
            (
                Entry::NonLeaf { level, children },
                Entry::NonLeaf { level: other_level, children: others },
            ) => {
                &&& level == other_level
                &&& children@.len() == others@.len()
                &&& forall|i: int|
                    0 <= i < children@.len() ==> (#[trigger] children@[i]).0 == others@[i].0
                        && children@[i].1.is_copy_of(others@[i].1)
            },
            _ => false,
        }
    }
}

/// The records below the children of a copy are those below the children that
/// were copied.
pub proof fn lemma_copies_hold_the_same<T: Coordinate, O: ObjectId>(
    copies: Seq<ChildRecord<T, O>>,
    children: Seq<ChildRecord<T, O>>,
)
    requires
        copies.len() == children.len(),
        forall|i: int|
            0 <= i < copies.len() ==> (#[trigger] copies[i]).1.is_copy_of(children[i].1),
    ensures
        ChildRecord::records_of(copies) == ChildRecord::records_of(children),
    decreases copies, 0nat,
{
    if copies.len() > 0 {
        assert forall|i: int| 0 <= i < copies.drop_last().len() implies (
        #[trigger] copies.drop_last()[i]).1.is_copy_of(children.drop_last()[i].1) by {
            assert(copies.drop_last()[i] == copies[i]);
            assert(copies[i].1.is_copy_of(children[i].1));
        }
        lemma_copies_hold_the_same(copies.drop_last(), children.drop_last());
        assert(copies[copies.len() - 1].1.is_copy_of(children[copies.len() - 1].1));
        lemma_copy_agrees(copies.last().1, children.last().1);
    }
}

/// A copy has the level, the number of entries, the rectangles and the
/// records of what was copied.
pub proof fn lemma_copy_agrees<T: Coordinate, O: ObjectId>(copy: Entry<T, O>, entry: Entry<T, O>)
    requires
        copy.is_copy_of(entry),
    ensures
        copy.spec_level() == entry.spec_level(),
        copy.spec_len() == entry.spec_len(),
        copy.rectangles() == entry.rectangles(),
        copy.spec_mbb() == entry.spec_mbb(),
        copy.records() == entry.records(),
    decreases copy, 1nat,
{
    match (copy, entry) {
        (Entry::NonLeaf { children, .. }, Entry::NonLeaf { children: others, .. }) => {
            lemma_copies_hold_the_same(children@, others@);
            assert(copy.rectangles() =~= entry.rectangles());
        },
        _ => {},
    }
}

/// A copy of a well-formed node is well formed.
pub proof fn lemma_copy_is_well_formed<T: Coordinate, O: ObjectId>(
    copy: Entry<T, O>,
    entry: Entry<T, O>,
    config: Config,
)
    requires
        copy.is_copy_of(entry),
        entry.well_formed(config),
    ensures
        copy.well_formed(config),
    decreases copy,
{
    match (copy, entry) {
        (Entry::NonLeaf { level, children }, Entry::NonLeaf { children: others, .. }) => {
            assert forall|i: int| 0 <= i < children@.len() implies {
                &&& (#[trigger] children@[i]).1.spec_level() + 1 == level
                &&& children@[i].well_formed(config)
            } by {
                assert(others@[i].well_formed(config));
                lemma_copy_agrees(children@[i].1, others@[i].1);
                lemma_copy_is_well_formed(children@[i].1, others@[i].1, config);
            }
        },
        _ => {},
    }
}

impl<T: Coordinate, O: ObjectId> Clone for Entry<T, O> {
    fn clone(&self) -> (copy: Self)
        ensures
            copy.is_copy_of(*self),
        decreases self,
    {
        match self {
            Entry::Leaf { children } => {
                let mut copies: Vec<ObjectRecord<T, O>> = Vec::new();
                let mut i: usize = 0;
                while i < children.len()
                    invariant
                        i <= children.len(),
                        copies@ == children@.take(i as int),
                    decreases children.len() - i,
                {
                    copies.push(children[i]);
                    assert(copies@ =~= children@.take(i + 1));
                    i += 1;
                }
                assert(children@.take(i as int) =~= children@);
                Entry::Leaf { children: copies }
            },
            Entry::NonLeaf { level, children } => {
                let mut copies: Vec<ChildRecord<T, O>> = Vec::new();
                let mut i: usize = 0;
                while i < children.len()
                    invariant
                        i <= children.len(),
                        self matches Entry::NonLeaf { children: c, .. } && c == children,
                        copies@.len() == i,
                        forall|k: int|
                            0 <= k < i ==> (#[trigger] copies@[k]).0 == children@[k].0
                                && copies@[k].1.is_copy_of(children@[k].1),
                    decreases children.len() - i,
                {
                    let below = children[i].1.clone();
                    copies.push(ChildRecord(children[i].0, below));
                    i += 1;
                }
                Entry::NonLeaf { level: *level, children: copies }
            },
        }
    }
}

impl<T: Coordinate, O: ObjectId> Clone for ChildRecord<T, O> {
    fn clone(&self) -> (copy: Self)
        ensures
            copy.0 == self.0,
            copy.1.is_copy_of(self.1),
    {
        ChildRecord(self.0, self.1.clone())
    }
}

impl<T: Coordinate, O: ObjectId> Clone for RTree<T, O> {
    /// A tree with the same configuration and a copy of every node.
    fn clone(&self) -> (copy: Self)
        ensures
            copy.config == self.config,
            match (copy.root, self.root) {
                (Some(root), Some(other)) => root.is_copy_of(other),
                (None, None) => true,
                _ => false,
            },
            copy.records() == self.records(),
            copy@ == self@,
            self.well_formed() ==> copy.well_formed(),
    {
        match &self.root {
            None => RTree { root: None, config: self.config },
            Some(root) => {
                let copy = root.clone();
                proof {
                    lemma_copy_agrees(copy, *root);
                    if self.well_formed() {
                        lemma_copy_is_well_formed(copy, *root, self.config);
                    }
                }
                RTree { root: Some(copy), config: self.config }
            },
        }
    }
}

} // verus!
