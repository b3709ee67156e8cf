//! The R-tree: its nodes, its configuration, and the invariants that every
//! operation keeps.
//!
//! After Guttman, "R-trees: a dynamic index structure for spatial searching".

use crate::geometry2d::{Coordinate, Rectangle, Spacial};
use crate::text::{decimal, signed_text, unsigned_text};
use vstd::multiset::Multiset;
use vstd::prelude::*;

pub mod bounding;
pub mod content;
pub mod copy;
pub mod delete;
pub mod display;
pub mod insert;
pub mod laws;
pub mod query;
pub mod vizgraph;

verus! {

/// An identifier that tags a stored rectangle.
///
/// The tree compares identifiers and copies them; it never looks inside.
/// Identifiers of the records that a tree holds are meant to differ from one
/// another, which the tree does not enforce (see `RTree::ids_are_unique`).
pub trait ObjectId: Copy + Sized {
    /// The identifier as text.
    spec fn spec_text(&self) -> Seq<char>;

    /// Whether the two are the same identifier.
    fn same(&self, other: &Self) -> (b: bool)
        ensures
            b == (*self == *other),
    ;

    /// The identifier as text.
    fn to_text(&self) -> (text: String)
        ensures
            text@ == self.spec_text(),
    ;
}

impl ObjectId for u32 {
    open spec fn spec_text(&self) -> Seq<char> {
        decimal(*self as int)
    }

    fn same(&self, other: &Self) -> (b: bool) {
        *self == *other
    }

    fn to_text(&self) -> (text: String) {
        unsigned_text(*self as u64)
    }
}

impl ObjectId for u64 {
    open spec fn spec_text(&self) -> Seq<char> {
        decimal(*self as int)
    }

    fn same(&self, other: &Self) -> (b: bool) {
        *self == *other
    }

    fn to_text(&self) -> (text: String) {
        unsigned_text(*self)
    }
}

impl ObjectId for usize {
    open spec fn spec_text(&self) -> Seq<char> {
        decimal(*self as int)
    }

    fn same(&self, other: &Self) -> (b: bool) {
        *self == *other
    }

    fn to_text(&self) -> (text: String) {
        unsigned_text(*self as u64)
    }
}

impl ObjectId for i32 {
    open spec fn spec_text(&self) -> Seq<char> {
        decimal(*self as int)
    }

    fn same(&self, other: &Self) -> (b: bool) {
        *self == *other
    }

    fn to_text(&self) -> (text: String) {
        signed_text(*self as i64)
    }
}

impl ObjectId for i64 {
    open spec fn spec_text(&self) -> Seq<char> {
        decimal(*self as int)
    }

    fn same(&self, other: &Self) -> (b: bool) {
        *self == *other
    }

    fn to_text(&self) -> (text: String) {
        signed_text(*self)
    }
}

/// What the index stores: a rectangle and the identifier of its object.
#[derive(Debug, Clone, Copy)]
pub struct ObjectRecord<T: Coordinate, O: ObjectId>(pub Rectangle<T>, pub O);

/// A subtree together with the cached bounding box of all it holds.
#[derive(Debug)]
pub struct ChildRecord<T: Coordinate, O: ObjectId>(pub Rectangle<T>, pub Entry<T, O>);

/// A node of the tree.
#[derive(Debug)]
#[allow(inconsistent_fields)]
pub enum Entry<T: Coordinate, O: ObjectId> {
    /// Holds records; its level is 0.
    Leaf { children: Vec<ObjectRecord<T, O>> },
    /// Holds subtrees, all of level `level - 1`.
    NonLeaf { level: usize, children: Vec<ChildRecord<T, O>> },
}

/// An entry that was detached from a dissolved node and waits to be put back:
/// a record of a leaf, or a whole subtree.
pub enum Orphan<T: Coordinate, O: ObjectId> {
    Record(ObjectRecord<T, O>),
    Subtree(ChildRecord<T, O>),
}

/// The bounds on the number of entries in a node.
#[derive(Debug, Clone, Copy)]
pub struct Config {
    pub maximum_entries_per_node: usize,
    pub minimum_entries_per_node: usize,
}

/// Why a configuration was refused.
#[derive(Debug, Clone, Copy, PartialEq, Eq)]
pub enum RTreeError {
    MaxMustBeAtLeastFour,
    MinMustBeAtMostHalfOfMax,
    MinMustBeAtLeastTwo,
}

/// An R-tree over rectangles with coordinates of type `T`, tagged by
/// identifiers of type `O`.
#[derive(Debug)]
pub struct RTree<T: Coordinate, O: ObjectId> {
    pub root: Option<Entry<T, O>>,
    pub config: Config,
}

/// What inserting into a node did to it.
pub enum InsertionResult<T: Coordinate, O: ObjectId> {
    /// The node overflowed: its entries now live in these two nodes.
    Split(ChildRecord<T, O>, ChildRecord<T, O>),
    NoSplit,
}

/// What deleting from a node did to it.
pub enum DeleteResult<T: Coordinate, O: ObjectId> {
    /// found and removed
    Success,
    /// record could not be found
    NoSuchRecord,
    /// found and removed, but some node below fell under the minimum: the
    /// orphans wait to be put back. The flag says whether the node that
    /// reports this has itself been emptied and is to be removed.
    Dissolved(Vec<Orphan<T, O>>, bool),
}

/// The rectangles of a sequence merged from left to right.
pub open spec fn merge_all<T: Coordinate>(rectangles: Seq<Rectangle<T>>) -> Rectangle<T>
    recommends
        rectangles.len() > 0,
    decreases rectangles.len(),
{
    if rectangles.len() <= 1 {
        rectangles[0]
    } else {
        merge_all(rectangles.drop_last()).spec_merge(rectangles.last())
    }
}

//////////////////
// CONSTRUCTION //
//////////////////
impl Config {
    /// The bounds that a configuration must meet.
    pub open spec fn valid(self) -> bool {
        &&& self.maximum_entries_per_node >= 4
        &&& self.minimum_entries_per_node >= 2
        &&& self.minimum_entries_per_node <= self.maximum_entries_per_node / 2
    }

    /// The least number of entries that a node other than the root ever has.
    ///
    /// It is the configured minimum, but for one case: where the maximum is
    /// exactly twice the minimum, splitting a node of `maximum + 1` entries can
    /// leave one half with `minimum - 1`.
    pub open spec fn spec_node_floor(self) -> nat {
        if 2 * self.minimum_entries_per_node == self.maximum_entries_per_node {
            (self.minimum_entries_per_node - 1) as nat
        } else {
            self.minimum_entries_per_node as nat
        }
    }

    /// The least number of children of a root that is not a leaf.
    pub open spec fn spec_root_floor(self) -> nat {
        if self.spec_node_floor() >= 2 {
            2
        } else {
            1
        }
    }

    /// The configuration with these bounds, or the first bound that they break.
    pub open spec fn spec_new(max: usize, min: usize) -> Result<Self, RTreeError> {
        if max < 4 {
            Err(RTreeError::MaxMustBeAtLeastFour)
        } else if min > max / 2 {
            Err(RTreeError::MinMustBeAtMostHalfOfMax)
        } else if min < 2 {
            Err(RTreeError::MinMustBeAtLeastTwo)
        } else {
            Ok(Config { maximum_entries_per_node: max, minimum_entries_per_node: min })
        }
    }

    /// The configuration with these bounds. The maximum must be at least 4,
    /// the minimum at least 2 and at most half the maximum.
    pub fn new(max: usize, min: usize) -> (r: Result<Self, RTreeError>)
        ensures
            r == Self::spec_new(max, min),
            r matches Ok(config) ==> config.valid(),
    {
        if max < 4 {
            Err(RTreeError::MaxMustBeAtLeastFour)
        } else if min > max / 2 {
            Err(RTreeError::MinMustBeAtMostHalfOfMax)
        } else if min < 2 {
            Err(RTreeError::MinMustBeAtLeastTwo)
        } else {
            Ok(Config { maximum_entries_per_node: max, minimum_entries_per_node: min })
        }
    }

    /// The most entries that a node may hold.
    pub fn maximum_entries_per_node(&self) -> (max: usize)
        ensures
            max == self.maximum_entries_per_node,
    {
        self.maximum_entries_per_node
    }

    /// The number of entries under which a node dissolves when it loses one.
    pub fn minimum_entries_per_node(&self) -> (min: usize)
        ensures
            min == self.minimum_entries_per_node,
    {
        self.minimum_entries_per_node
    }
}

impl<T: Coordinate, O: ObjectId> RTree<T, O> {
    /// The empty tree with these bounds on the entries of a node, where they
    /// make a configuration (`Config::new`).
    pub fn new(max: usize, min: usize) -> (r: Result<Self, RTreeError>)
        ensures
            match (r, Config::spec_new(max, min)) {
                (Ok(tree), Ok(config)) => {
                    &&& tree.config == config
                    &&& tree.root is None
                    &&& tree.well_formed()
                    &&& tree@ == Multiset::<ObjectRecord<T, O>>::empty()
                },
                (Err(e), Err(expected)) => e == expected,
                _ => false,
            },
    {
        let config = Config::new(max, min);
        proof {
            content::lemma_empty_content::<ObjectRecord<T, O>>();
        }
        match config {
            Ok(config) => Ok(Self { root: None, config }),
            Err(e) => Err(e),
        }
    }
}

///////////
// MODEL //
///////////
impl<T: Coordinate, O: ObjectId> Orphan<T, O> {
    /// The level of the node that can hold this entry directly: 0 for a record,
    /// one more than its own level for a subtree.
    pub open spec fn spec_rank(self) -> nat {
        match self {
            Orphan::Record(_) => 0,
            Orphan::Subtree(child) => child.1.spec_level() + 1,
        }
    }

    /// The rectangle of the record, or the box cached for the subtree.
    pub open spec fn spec_box(self) -> Rectangle<T> {
        match self {
            Orphan::Record(object) => object.0,
            Orphan::Subtree(child) => child.0,
        }
    }

    /// The records that come back into the tree with this entry.
    pub open spec fn records(self) -> Seq<ObjectRecord<T, O>> {
        match self {
            Orphan::Record(record) => seq![record],
            Orphan::Subtree(child) => child.1.records(),
        }
    }

    /// A record within the limit, or a subtree that is well formed as a child.
    pub open spec fn well_formed(self, config: Config) -> bool {
        match self {
            Orphan::Record(record) => record.0.within_limit(),
            Orphan::Subtree(child) => child.well_formed(config),
        }
    }

    /// The records of a sequence of orphans, in order.
    pub open spec fn records_of(orphans: Seq<Self>) -> Seq<ObjectRecord<T, O>>
        decreases orphans.len(),
    {
        if orphans.len() == 0 {
            Seq::empty()
        } else {
            Self::records_of(orphans.drop_last()) + orphans.last().records()
        }
    }
}

impl<T: Coordinate, O: ObjectId> ChildRecord<T, O> {
    /// The child record of a subtree, with the bounding box of the subtree as
    /// its cached rectangle.
    pub fn new(entry: Entry<T, O>) -> (child: Self)
        requires
            entry.spec_len() > 0,
        ensures
            child.1 == entry,
            child.0 == entry.spec_mbb(),
    {
        ChildRecord(entry.mbb(), entry)
    }

    /// What holds of every child of a node: its cached rectangle is the
    /// bounding box of its subtree and lies within the limit, the subtree has
    /// neither too few nor too many entries, and it is well formed in turn.
    pub open spec fn well_formed(self, config: Config) -> bool
        decreases self, 0nat,
    {
        &&& self.0 == self.1.spec_mbb()
        &&& self.0.within_limit()
        &&& config.spec_node_floor() <= self.1.spec_len() <= config.maximum_entries_per_node
        &&& self.1.well_formed(config)
    }

    /// The records of a sequence of children, subtree after subtree.
    pub open spec fn records_of(children: Seq<Self>) -> Seq<ObjectRecord<T, O>>
        decreases children, 0nat,
    {
        if children.len() == 0 {
            Seq::empty()
        } else {
            Self::records_of(children.drop_last()) + children.last().1.records()
        }
    }
}

impl<T: Coordinate, O: ObjectId> Entry<T, O> {
    /// The distance to the leaves: 0 for a leaf.
    pub open spec fn spec_level(self) -> nat {
        match self {
            Entry::Leaf { .. } => 0,
            Entry::NonLeaf { level, .. } => level as nat,
        }
    }

    /// The number of entries that the node holds directly.
    pub open spec fn spec_len(self) -> nat {
        match self {
            Entry::Leaf { children } => children@.len(),
            Entry::NonLeaf { children, .. } => children@.len(),
        }
    }

    /// The rectangles of the node's entries, in order: those of its records, or
    /// those cached for its children.
    pub open spec fn rectangles(self) -> Seq<Rectangle<T>> {
        match self {
            Entry::Leaf { children } => children@.map_values(|r: ObjectRecord<T, O>| r.0),
            Entry::NonLeaf { children, .. } => children@.map_values(|c: ChildRecord<T, O>| c.0),
        }
    }

    /// All records below the node, leaf after leaf from left to right.
    pub open spec fn records(self) -> Seq<ObjectRecord<T, O>>
        decreases self, 1nat,
    {
        match self {
            Entry::Leaf { children } => children@,
            Entry::NonLeaf { children, .. } => ChildRecord::records_of(children@),
        }
    }

    /// The invariant of a subtree.
    ///
    /// Every stored rectangle lies within the coordinate limit. Below a node of
    /// level `n` stand only nodes of level `n - 1`, so all leaves are equally
    /// deep, and each child is well formed: see `ChildRecord::well_formed`.
    pub open spec fn well_formed(self, config: Config) -> bool
        decreases self, 1nat,
    {
        match self {
            Entry::Leaf { children } => forall|i: int|
                0 <= i < children@.len() ==> (#[trigger] children@[i]).0.within_limit(),
            Entry::NonLeaf { level, children } => {
                &&& level >= 1
                &&& forall|i: int|
                    0 <= i < children@.len() ==> {
                        &&& (#[trigger] children@[i]).1.spec_level() + 1 == level
                        &&& children@[i].well_formed(config)
                    }
            },
        }
    }

    /// The distance to the leaves: 0 for a leaf.
    pub fn level(&self) -> (level: usize)
        ensures
            level == self.spec_level(),
    {
        match self {
            Entry::Leaf { .. } => 0,
            Entry::NonLeaf { level, .. } => *level,
        }
    }

    /// The number of entries that the node holds directly.
    pub fn len(&self) -> (len: usize)
        ensures
            len == self.spec_len(),
    {
        match self {
            Entry::Leaf { children } => children.len(),
            Entry::NonLeaf { children, .. } => children.len(),
        }
    }
}

impl<T: Coordinate, O: ObjectId> View for RTree<T, O> {
    type V = Multiset<ObjectRecord<T, O>>;

    /// The records that the tree holds, each as often as it was inserted.
    open spec fn view(&self) -> Multiset<ObjectRecord<T, O>> {
        self.records().to_multiset()
    }
}

impl<T: Coordinate, O: ObjectId> RTree<T, O> {
    /// The records that the tree holds, leaf after leaf from left to right.
    pub open spec fn records(self) -> Seq<ObjectRecord<T, O>> {
        match self.root {
            None => Seq::empty(),
            Some(root) => root.records(),
        }
    }

    /// The number of levels: 0 for the empty tree, 1 for a single leaf.
    pub open spec fn spec_height(self) -> nat {
        match self.root {
            None => 0,
            Some(root) => root.spec_level() + 1,
        }
    }

    /// The invariant of the tree.
    ///
    /// The configuration is valid. A root, where there is one, is a well-formed
    /// subtree that holds at least one entry and at most the maximum; a root
    /// that is not a leaf has at least `spec_root_floor` children.
    pub open spec fn well_formed(self) -> bool {
        &&& self.config.valid()
        &&& match self.root {
            None => true,
            Some(root) => {
                &&& root.well_formed(self.config)
                &&& 1 <= root.spec_len() <= self.config.maximum_entries_per_node
                &&& root is NonLeaf ==> root.spec_len() >= self.config.spec_root_floor()
            },
        }
    }

    /// Whether the tree can grow by a level, as an insertion may ask.
    pub fn has_room_to_insert(&self) -> (b: bool)
        ensures
            b == (self.spec_height() < usize::MAX),
    {
        match &self.root {
            None => true,
            Some(root) => root.level() < usize::MAX - 1,
        }
    }

    /// Whether the tree can grow by a level for every entry that a deletion
    /// may put back.
    pub fn has_room_to_delete(&self) -> (b: bool)
        ensures
            b == (self.spec_height() * self.config.minimum_entries_per_node < usize::MAX),
    {
        let min = self.config.minimum_entries_per_node;
        let ghost height = self.spec_height() as int;
        match &self.root {
            None => {
                assert(0 * min == 0) by (nonlinear_arith);
                true
            },
            Some(root) => {
                let level = root.level();
                if min == 0 {
                    assert(height * 0 == 0) by (nonlinear_arith);
                    true
                } else if level == usize::MAX {
                    assert(height * min >= height) by (nonlinear_arith)
                        requires
                            height >= 0,
                            min >= 1,
                    ;
                    false
                } else {
                    match (level + 1).checked_mul(min) {
                        Some(product) => product < usize::MAX,
                        None => false,
                    }
                }
            },
        }
    }

    /// No two records of the tree carry the same identifier.
    pub open spec fn ids_are_unique(self) -> bool {
        forall|i: int, j: int|
            0 <= i < j < self.records().len() ==> (#[trigger] self.records()[i]).1 != (
            #[trigger] self.records()[j]).1
    }
}

////////////////////
// BOUNDING BOXES //
////////////////////
impl<T: Coordinate, O: ObjectId> Spacial<T> for ObjectRecord<T, O> {
    open spec fn has_mbb(&self) -> bool {
        true
    }

    open spec fn spec_mbb(&self) -> Rectangle<T> {
        self.0
    }

    fn mbb(&self) -> (r: Rectangle<T>) {
        self.0
    }
}

impl<T: Coordinate, O: ObjectId> Spacial<T> for ChildRecord<T, O> {
    open spec fn has_mbb(&self) -> bool {
        true
    }

    /// The cached rectangle.
    open spec fn spec_mbb(&self) -> Rectangle<T> {
        self.0
    }

    fn mbb(&self) -> (r: Rectangle<T>) {
        self.0
    }
}

impl<T: Coordinate, O: ObjectId> Spacial<T> for Entry<T, O> {
    open spec fn has_mbb(&self) -> bool {
        self.spec_len() > 0
    }

    /// The rectangles of the node's entries, merged.
    open spec fn spec_mbb(&self) -> Rectangle<T> {
        merge_all(self.rectangles())
    }

    fn mbb(&self) -> (r: Rectangle<T>) {
        let ghost rectangles = self.rectangles();
        match self {
            Entry::Leaf { children } => {
                let mut merged = children[0].0;
                let mut i: usize = 1;
                assert(rectangles.take(1) =~= seq![rectangles[0]]);
                while i < children.len()
                    invariant
                        1 <= i <= children.len(),
                        rectangles.len() == children.len(),
                        forall|j: int| 0 <= j < children.len() ==> rectangles[j] == children@[j].0,
                        merged == merge_all(rectangles.take(i as int)),
                    decreases children.len() - i,
                {
                    assert(rectangles.take(i + 1).drop_last() =~= rectangles.take(i as int));
                    merged = merged.merge(&children[i].0);
                    i += 1;
                }
                assert(rectangles.take(i as int) =~= rectangles);
                merged
            },
            Entry::NonLeaf { children, .. } => {
                let mut merged = children[0].0;
                let mut i: usize = 1;
                assert(rectangles.take(1) =~= seq![rectangles[0]]);
                while i < children.len()
                    invariant
                        1 <= i <= children.len(),
                        rectangles.len() == children.len(),
                        forall|j: int| 0 <= j < children.len() ==> rectangles[j] == children@[j].0,
                        merged == merge_all(rectangles.take(i as int)),
                    decreases children.len() - i,
                {
                    assert(rectangles.take(i + 1).drop_last() =~= rectangles.take(i as int));
                    merged = merged.merge(&children[i].0);
                    i += 1;
                }
                assert(rectangles.take(i as int) =~= rectangles);
                merged
            },
        }
    }
}

impl<T: Coordinate, O: ObjectId> Spacial<T> for Orphan<T, O> {
    open spec fn has_mbb(&self) -> bool {
        true
    }

    open spec fn spec_mbb(&self) -> Rectangle<T> {
        self.spec_box()
    }

    fn mbb(&self) -> (r: Rectangle<T>) {
        match self {
            Orphan::Record(object) => object.mbb(),
            Orphan::Subtree(child) => child.mbb(),
        }
    }
}

} // verus!
