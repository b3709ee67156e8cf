//! Deletion: finding a record by its identifier, taking it out, dissolving
//! nodes that fall under the minimum, and putting their entries back.

use crate::geometry2d::{Coordinate, Rectangle, Spacial};
use crate::r_tree::content::{
    lemma_content_after_remove, lemma_content_after_update, lemma_empty_content,
    lemma_orphans_push, lemma_records_of_push,
};
use crate::r_tree::bounding::lemma_box_within_limit;
use crate::r_tree::laws::{
    lemma_cached_boxes_are_true, lemma_deleted_is_absent, lemma_fanout, lemma_few_records,
};
use crate::r_tree::query::hits;
use crate::r_tree::{ChildRecord, Config, DeleteResult, Entry, ObjectId, ObjectRecord, Orphan, RTree};
use vstd::multiset::Multiset;
use vstd::prelude::*;

verus! {

////////////
// LOCATE //
////////////
/// The position of the first record of the run that carries `id`.
pub open spec fn first_with_id<T: Coordinate, O: ObjectId>(
    records: Seq<ObjectRecord<T, O>>,
    id: O,
) -> Option<usize>
    decreases records.len(),
{
    if records.len() == 0 {
        None
    } else {
        match first_with_id(records.drop_last(), id) {
            Some(i) => Some(i),
            None => if records.last().1 == id {
                Some((records.len() - 1) as usize)
            } else {
                None
            },
        }
    }
}

impl<T: Coordinate, O: ObjectId> Entry<T, O> {
    /// The way to the record that a deletion of `id` with the rectangle `area`
    /// removes, if it finds one: the position of the record in its leaf, then
    /// the position of that leaf in its parent, and so on up to the position
    /// of a child of this node.
    ///
    /// The search goes through the children in order, and only into those
    /// whose cached box intersects `area`; in a leaf it takes the first record
    /// that carries `id`.
    pub open spec fn spec_locate(self, area: Rectangle<T>, id: O) -> Option<Seq<usize>>
        decreases self, 1nat,
    {
        match self {
            Entry::Leaf { children } => match first_with_id(children@, id) {
                Some(i) => Some(seq![i]),
                None => None,
            },
            Entry::NonLeaf { children, .. } => Self::locate_among(children@, area, id),
        }
    }

    /// The way to the record below the first child of the run under which the
    /// search finds one.
    pub open spec fn locate_among(children: Seq<ChildRecord<T, O>>, area: Rectangle<T>, id: O)
        -> Option<Seq<usize>>
        decreases children, 0nat,
    {
        if children.len() == 0 {
            None
        } else {
            match Self::locate_among(children.drop_last(), area, id) {
                Some(path) => Some(path),
                None => if children.last().0.spec_intersects(area) {
                    match children.last().1.spec_locate(area, id) {
                        Some(path) => Some(path.push((children.len() - 1) as usize)),
                        None => None,
                    }
                } else {
                    None
                },
            }
        }
    }

    /// `path` leads from this node down to a record.
    pub open spec fn has_path(self, path: Seq<usize>) -> bool
        decreases self,
    {
        match self {
            Entry::Leaf { children } => path.len() == 1 && path[0] < children@.len(),
            Entry::NonLeaf { children, .. } => {
                &&& path.len() >= 2
                &&& path.last() < children@.len()
                &&& children@[path.last() as int].1.has_path(path.drop_last())
            },
        }
    }

    /// The record to which `path` leads.
    pub open spec fn record_at(self, path: Seq<usize>) -> ObjectRecord<T, O>
        recommends
            self.has_path(path),
        decreases self,
    {
        match self {
            Entry::Leaf { children } => children@[path[0] as int],
            Entry::NonLeaf { children, .. } => if path.len() >= 1 && path.last() < children@.len() {
                children@[path.last() as int].1.record_at(path.drop_last())
            } else {
                arbitrary()
            },
        }
    }

    /// The way to the record that a deletion of `to_delete` removes: see
    /// `spec_locate`.
    pub fn locate(&self, to_delete: &ObjectRecord<T, O>) -> (found: Option<Vec<usize>>)
        ensures
            match found {
                Some(path) => self.spec_locate(to_delete.0, to_delete.1) == Some(path@),
                None => self.spec_locate(to_delete.0, to_delete.1) is None,
            },
        decreases self,
    {
        match self {
            Entry::Leaf { children } => {
                let mut i: usize = 0;
                assert(children@.take(0) =~= Seq::empty());
                while i < children.len()
                    invariant
                        i <= children.len(),
                        self matches Entry::Leaf { children: c } && c == children,
                        first_with_id(children@.take(i as int), to_delete.1) is None,
                    decreases children.len() - i,
                {
                    assert(children@.take(i + 1).drop_last() =~= children@.take(i as int));
                    if children[i].1.same(&to_delete.1) {
                        assert(first_with_id(children@.take(i + 1), to_delete.1) == Some(i));
                        proof {
                            lemma_first_with_id_extends(children@, to_delete.1, i + 1);
                        }
                        let path = vec![i];
                        assert(path@ =~= seq![i]);
                        return Some(path);
                    }
                    i += 1;
                }
                assert(children@.take(i as int) =~= children@);
                None
            },
            Entry::NonLeaf { children, .. } => {
                let mut i: usize = 0;
                assert(children@.take(0) =~= Seq::empty());
                while i < children.len()
                    invariant
                        i <= children.len(),
                        self matches Entry::NonLeaf { children: c, .. } && c == children,
                        Self::locate_among(children@.take(i as int), to_delete.0, to_delete.1)
                            is None,
                    decreases children.len() - i,
                {
                    assert(children@.take(i + 1).drop_last() =~= children@.take(i as int));
                    if children[i].0.intersects(&to_delete.0) {
                        match children[i].1.locate(to_delete) {
                            Some(mut path) => {
                                path.push(i);
                                proof {
                                    lemma_locate_among_extends(
                                        children@,
                                        to_delete.0,
                                        to_delete.1,
                                        i + 1,
                                    );
                                }
                                return Some(path);
                            },
                            None => {},
                        }
                    }
                    i += 1;
                }
                assert(children@.take(i as int) =~= children@);
                None
            },
        }
    }
}

/// A record found among the first records of a run is found in the run.
pub proof fn lemma_first_with_id_extends<T: Coordinate, O: ObjectId>(
    records: Seq<ObjectRecord<T, O>>,
    id: O,
    n: int,
)
    requires
        0 <= n <= records.len(),
        first_with_id(records.take(n), id) is Some,
    ensures
        first_with_id(records, id) == first_with_id(records.take(n), id),
    decreases records.len() - n,
{
    if n < records.len() {
        assert(records.take(n + 1).drop_last() =~= records.take(n));
        lemma_first_with_id_extends(records, id, n + 1);
    } else {
        assert(records.take(n) =~= records);
    }
}

/// A record found under the first children of a run is found under the run.
pub proof fn lemma_locate_among_extends<T: Coordinate, O: ObjectId>(
    children: Seq<ChildRecord<T, O>>,
    area: Rectangle<T>,
    id: O,
    n: int,
)
    requires
        0 <= n <= children.len(),
        Entry::locate_among(children.take(n), area, id) is Some,
    ensures
        Entry::locate_among(children, area, id) == Entry::locate_among(children.take(n), area, id),
    decreases children.len() - n,
{
    if n < children.len() {
        assert(children.take(n + 1).drop_last() =~= children.take(n));
        lemma_locate_among_extends(children, area, id, n + 1);
    } else {
        assert(children.take(n) =~= children);
    }
}

/// What the search finds is a path to a record that carries the identifier.
pub proof fn lemma_located<T: Coordinate, O: ObjectId>(
    entry: Entry<T, O>,
    area: Rectangle<T>,
    id: O,
)
    requires
        entry.spec_locate(area, id) is Some,
    ensures
        entry.has_path(entry.spec_locate(area, id)->Some_0),
        entry.record_at(entry.spec_locate(area, id)->Some_0).1 == id,
    decreases entry, 1nat,
{
    match entry {
        Entry::Leaf { children } => {
            assert(children@.len() == children.len());
            lemma_first_found(children@, id);
        },
        Entry::NonLeaf { children, .. } => {
            assert(children@.len() == children.len());
            lemma_located_among(children@, area, id);
            let path = entry.spec_locate(area, id)->Some_0;
            assert(path.drop_last().push(path.last()) =~= path);
        },
    }
}

/// The first record with an identifier is a record with that identifier.
pub proof fn lemma_first_found<T: Coordinate, O: ObjectId>(
    records: Seq<ObjectRecord<T, O>>,
    id: O,
)
    requires
        records.len() <= usize::MAX,
        first_with_id(records, id) is Some,
    ensures
        first_with_id(records, id)->Some_0 < records.len(),
        records[first_with_id(records, id)->Some_0 as int].1 == id,
    decreases records.len(),
{
    if records.len() > 0 && first_with_id(records.drop_last(), id) is Some {
        lemma_first_found(records.drop_last(), id);
    }
}

/// What the search finds under a run of children is a path through one of them
/// to a record that carries the identifier.
pub proof fn lemma_located_among<T: Coordinate, O: ObjectId>(
    children: Seq<ChildRecord<T, O>>,
    area: Rectangle<T>,
    id: O,
)
    requires
        children.len() <= usize::MAX,
        Entry::locate_among(children, area, id) is Some,
    ensures
        ({
            let path = Entry::locate_among(children, area, id)->Some_0;
            &&& path.len() >= 2
            &&& path.last() < children.len()
            &&& children[path.last() as int].0.spec_intersects(area)
            &&& children[path.last() as int].1.spec_locate(area, id) == Some(path.drop_last())
            &&& children[path.last() as int].1.has_path(path.drop_last())
            &&& children[path.last() as int].1.record_at(path.drop_last()).1 == id
        }),
    decreases children, 0nat,
{
    if children.len() > 0 {
        let init = children.drop_last();
        if Entry::locate_among(init, area, id) is Some {
            lemma_located_among(init, area, id);
            let path = Entry::locate_among(init, area, id)->Some_0;
            assert(init[path.last() as int] == children[path.last() as int]);
        } else {
            let below = children.last().1.spec_locate(area, id)->Some_0;
            lemma_located(children.last().1, area, id);
            let path = below.push((children.len() - 1) as usize);
            assert(path.drop_last() =~= below);
            assert(children[children.len() - 1] == children.last());
        }
    }
}

//////////////
// DISSOLVE //
//////////////
/// The most orphans that a deletion detaches at and below a node of level
/// `top`: fewer than the minimum from each level.
pub open spec fn orphan_bound(top: nat, config: Config) -> int {
    (top + 1) * (config.minimum_entries_per_node - 1)
}

/// The orphans are entries that can be put back one after the other: each is
/// well formed, and they are ordered by the level at which they belong, the
/// lowest first.
pub open spec fn orphans_are_ordered<T: Coordinate, O: ObjectId>(
    orphans: Seq<Orphan<T, O>>,
    config: Config,
) -> bool {
    &&& forall|i: int| 0 <= i < orphans.len() ==> (#[trigger] orphans[i]).well_formed(config)
    &&& forall|i: int, j: int|
        0 <= i <= j < orphans.len() ==> (#[trigger] orphans[i]).spec_rank() <= (
        #[trigger] orphans[j]).spec_rank()
}

/// The orphans are what a deletion can detach at and below a node of level
/// `top`: they are ordered, none belongs higher than level `top`, and they are
/// no more than `orphan_bound`.
pub open spec fn orphans_fit<T: Coordinate, O: ObjectId>(
    orphans: Seq<Orphan<T, O>>,
    config: Config,
    top: nat,
) -> bool {
    &&& orphans_are_ordered(orphans, config)
    &&& forall|i: int| 0 <= i < orphans.len() ==> (#[trigger] orphans[i]).spec_rank() <= top
    &&& orphans.len() <= orphan_bound(top, config)
}

/// One level more allows for as many more orphans as one node can leave.
pub proof fn lemma_orphan_bound(top: nat, config: Config)
    requires
        config.valid(),
    ensures
        orphan_bound(top + 1, config) == orphan_bound(top, config)
            + config.minimum_entries_per_node - 1,
        orphan_bound(top, config) >= 0,
        orphan_bound(0, config) == config.minimum_entries_per_node - 1,
{
    let m = config.minimum_entries_per_node - 1;
    assert((top + 2) * m == (top + 1) * m + m && (top + 1) * m >= 0 && (0 + 1) * m == m)
        by (nonlinear_arith)
        requires
            m >= 1,
            top >= 0,
    ;
}

/// The records of orphans followed by detached records.
pub proof fn lemma_orphaned_records<T: Coordinate, O: ObjectId>(
    orphans: Seq<Orphan<T, O>>,
    records: Seq<ObjectRecord<T, O>>,
)
    ensures
        Orphan::records_of(orphans + records.map_values(|r: ObjectRecord<T, O>| Orphan::Record(r)))
            == Orphan::records_of(orphans) + records,
    decreases records.len(),
{
    let wrap = |r: ObjectRecord<T, O>| Orphan::Record(r);
    if records.len() == 0 {
        assert(orphans + records.map_values(wrap) =~= orphans);
        assert(Orphan::records_of(orphans) + records =~= Orphan::records_of(orphans));
    } else {
        let init = records.drop_last();
        lemma_orphaned_records(orphans, init);
        lemma_orphans_push(orphans + init.map_values(wrap), Orphan::Record(records.last()));
        assert((orphans + init.map_values(wrap)).push(Orphan::Record(records.last())) =~= orphans
            + records.map_values(wrap));
        assert(Orphan::records_of(orphans) + init + seq![records.last()] =~= Orphan::records_of(
            orphans,
        ) + records);
    }
}

/// The records of orphans followed by detached children.
pub proof fn lemma_orphaned_children<T: Coordinate, O: ObjectId>(
    orphans: Seq<Orphan<T, O>>,
    children: Seq<ChildRecord<T, O>>,
)
    ensures
        Orphan::records_of(
            orphans + children.map_values(|c: ChildRecord<T, O>| Orphan::Subtree(c)),
        ) == Orphan::records_of(orphans) + ChildRecord::records_of(children),
    decreases children.len(),
{
    let wrap = |c: ChildRecord<T, O>| Orphan::Subtree(c);
    if children.len() == 0 {
        assert(orphans + children.map_values(wrap) =~= orphans);
        assert(Orphan::records_of(orphans) + ChildRecord::records_of(children)
            =~= Orphan::records_of(orphans));
    } else {
        let init = children.drop_last();
        lemma_orphaned_children(orphans, init);
        lemma_orphans_push(orphans + init.map_values(wrap), Orphan::Subtree(children.last()));
        assert((orphans + init.map_values(wrap)).push(Orphan::Subtree(children.last()))
            =~= orphans + children.map_values(wrap));
        assert(Orphan::records_of(orphans) + ChildRecord::records_of(init)
            + children.last().1.records() =~= Orphan::records_of(orphans) + (
        ChildRecord::records_of(init) + children.last().1.records()));
    }
}

/// Moves every record out of a leaf that dissolves, the first first.
fn dissolve_records<T: Coordinate, O: ObjectId>(
    children: &mut Vec<ObjectRecord<T, O>>,
    orphans: &mut Vec<Orphan<T, O>>,
)
    ensures
        final(children)@.len() == 0,
        final(orphans)@ == old(orphans)@ + old(children)@.map_values(
            |r: ObjectRecord<T, O>| Orphan::Record(r),
        ),
{
    let ghost all = children@;
    let ghost start = orphans@;
    let ghost wrap = |r: ObjectRecord<T, O>| Orphan::Record(r);
    let ghost moved: int = 0;
    assert(start + all.take(0).map_values(wrap) =~= start);
    assert(all.skip(0) =~= all);
    while children.len() > 0
        invariant
            0 <= moved <= all.len(),
            wrap == |r: ObjectRecord<T, O>| Orphan::Record(r),
            children@ == all.skip(moved),
            orphans@ == start + all.take(moved).map_values(wrap),
        decreases children.len(),
    {
        let record = children.remove(0);
        orphans.push(Orphan::Record(record));
        proof {
            assert(children@ =~= all.skip(moved + 1));
            assert(orphans@ =~= start + all.take(moved + 1).map_values(wrap));
            moved = moved + 1;
        }
    }
    assert(all.take(moved) =~= all);
}

/// Moves every child out of a node that dissolves, the first first.
fn dissolve_children<T: Coordinate, O: ObjectId>(
    children: &mut Vec<ChildRecord<T, O>>,
    orphans: &mut Vec<Orphan<T, O>>,
)
    ensures
        final(children)@.len() == 0,
        final(orphans)@ == old(orphans)@ + old(children)@.map_values(
            |c: ChildRecord<T, O>| Orphan::Subtree(c),
        ),
{
    let ghost all = children@;
    let ghost start = orphans@;
    let ghost wrap = |c: ChildRecord<T, O>| Orphan::Subtree(c);
    let ghost moved: int = 0;
    assert(start + all.take(0).map_values(wrap) =~= start);
    assert(all.skip(0) =~= all);
    while children.len() > 0
        invariant
            0 <= moved <= all.len(),
            wrap == |c: ChildRecord<T, O>| Orphan::Subtree(c),
            children@ == all.skip(moved),
            orphans@ == start + all.take(moved).map_values(wrap),
        decreases children.len(),
    {
        let child = children.remove(0);
        orphans.push(Orphan::Subtree(child));
        proof {
            assert(children@ =~= all.skip(moved + 1));
            assert(orphans@ =~= start + all.take(moved + 1).map_values(wrap));
            moved = moved + 1;
        }
    }
    assert(all.take(moved) =~= all);
}

////////////
// REMOVE //
////////////
/// A leaf that has lost the record at `idx`.
pub proof fn lemma_record_removed<T: Coordinate, O: ObjectId>(
    before: Entry<T, O>,
    after: Entry<T, O>,
    idx: int,
    config: Config,
)
    requires
        before.well_formed(config),
        before matches Entry::Leaf { children: b },
        after matches Entry::Leaf { children: a },
        0 <= idx < before.spec_len(),
        after->Leaf_children@ == before->Leaf_children@.remove(idx),
    ensures
        after.well_formed(config),
        after.spec_len() == before.spec_len() - 1,
        after.records().to_multiset().insert(before->Leaf_children@[idx])
            == before.records().to_multiset(),
{
    broadcast use vstd::seq_lib::group_to_multiset_ensures;

    let b = before->Leaf_children@;
    let a = after->Leaf_children@;
    assert forall|i: int| 0 <= i < a.len() implies (#[trigger] a[i]).0.within_limit() by {
        if i < idx {
            assert(a[i] == b[i]);
        } else {
            assert(a[i] == b[i + 1]);
        }
    }
    assert(b =~= a.insert(idx, b[idx]));
}

/// The records of a dissolved leaf as orphans.
pub proof fn lemma_leaf_dissolved<T: Coordinate, O: ObjectId>(
    rest: Seq<ObjectRecord<T, O>>,
    orphans: Seq<Orphan<T, O>>,
    config: Config,
)
    requires
        config.valid(),
        rest.len() < config.minimum_entries_per_node,
        forall|i: int| 0 <= i < rest.len() ==> (#[trigger] rest[i]).0.within_limit(),
        orphans == Seq::<Orphan<T, O>>::empty() + rest.map_values(
            |r: ObjectRecord<T, O>| Orphan::Record(r),
        ),
    ensures
        orphans_fit(orphans, config, 0),
        Orphan::records_of(orphans) == rest,
{
    lemma_orphan_bound(0, config);
    lemma_orphaned_records(Seq::<Orphan<T, O>>::empty(), rest);
    assert(Seq::<ObjectRecord<T, O>>::empty() + rest =~= rest);
    assert forall|i: int| 0 <= i < orphans.len() implies (#[trigger] orphans[i]).well_formed(
        config,
    ) by {
        assert(orphans[i] == Orphan::Record(rest[i]));
    }
    assert forall|i: int| 0 <= i < orphans.len() implies (#[trigger] orphans[i]).spec_rank()
        <= 0 by {
        assert(orphans[i] == Orphan::Record(rest[i]));
    }
    assert forall|i: int, j: int| 0 <= i <= j < orphans.len() implies (
    #[trigger] orphans[i]).spec_rank() <= (#[trigger] orphans[j]).spec_rank() by {
        assert(orphans[i] == Orphan::Record(rest[i]));
        assert(orphans[j] == Orphan::Record(rest[j]));
    }
}

/// A node one of whose children has lost what `gone` holds and stays.
pub proof fn lemma_child_settled<T: Coordinate, O: ObjectId>(
    before: Entry<T, O>,
    after: Entry<T, O>,
    idx: int,
    gone: Multiset<ObjectRecord<T, O>>,
    config: Config,
)
    requires
        config.valid(),
        before.well_formed(config),
        before matches Entry::NonLeaf { level: bl, children: b },
        after matches Entry::NonLeaf { level: al, children: a },
        after->NonLeaf_level == before->NonLeaf_level,
        0 <= idx < before.spec_len(),
        after->NonLeaf_children@.len() == before.spec_len(),
        forall|i: int|
            0 <= i < before.spec_len() && i != idx ==> after->NonLeaf_children@[i]
                == before->NonLeaf_children@[i],
        ({
            let old_child = before->NonLeaf_children@[idx];
            let new_child = after->NonLeaf_children@[idx];
            &&& new_child.0 == new_child.1.spec_mbb()
            &&& new_child.1.well_formed(config)
            &&& new_child.1.spec_level() == old_child.1.spec_level()
            &&& 1 <= new_child.1.spec_len() <= old_child.1.spec_len()
            &&& new_child.1.spec_len() == old_child.1.spec_len() || new_child.1.spec_len()
                >= config.minimum_entries_per_node
            &&& new_child.1.records().to_multiset().add(gone)
                == old_child.1.records().to_multiset()
        }),
    ensures
        after.well_formed(config),
        after.spec_len() == before.spec_len(),
        after.records().to_multiset().add(gone) == before.records().to_multiset(),
{
    let b = before->NonLeaf_children@;
    let a = after->NonLeaf_children@;
    assert(b[idx].well_formed(config));
    lemma_box_within_limit(a[idx].1, config);
    assert forall|i: int| 0 <= i < a.len() implies {
        &&& (#[trigger] a[i]).1.spec_level() + 1 == after->NonLeaf_level
        &&& a[i].well_formed(config)
    } by {
        if i != idx {
            assert(a[i] == b[i]);
        }
    }
    assert(a =~= b.update(idx, a[idx]));
    lemma_content_after_update(b, idx, a[idx]);
    let kept = a[idx].1.records().to_multiset();
    assert(after.records().to_multiset().add(gone).add(kept) =~= after.records().to_multiset().add(
        b[idx].1.records().to_multiset(),
    ));
    crate::r_tree::content::lemma_cancel(
        after.records().to_multiset().add(gone),
        kept,
        before.records().to_multiset(),
    );
}

/// A node one of whose children has dissolved and left.
pub proof fn lemma_child_gone<T: Coordinate, O: ObjectId>(
    before: Entry<T, O>,
    after: Entry<T, O>,
    idx: int,
    config: Config,
)
    requires
        before.well_formed(config),
        before matches Entry::NonLeaf { level: bl, children: b },
        after matches Entry::NonLeaf { level: al, children: a },
        after->NonLeaf_level == before->NonLeaf_level,
        0 <= idx < before.spec_len(),
        after->NonLeaf_children@ == before->NonLeaf_children@.remove(idx),
    ensures
        after.well_formed(config),
        after.spec_len() == before.spec_len() - 1,
        after.records().to_multiset().add(
            before->NonLeaf_children@[idx].1.records().to_multiset(),
        ) == before.records().to_multiset(),
{
    let b = before->NonLeaf_children@;
    let a = after->NonLeaf_children@;
    assert forall|i: int| 0 <= i < a.len() implies {
        &&& (#[trigger] a[i]).1.spec_level() + 1 == after->NonLeaf_level
        &&& a[i].well_formed(config)
    } by {
        if i < idx {
            assert(a[i] == b[i]);
        } else {
            assert(a[i] == b[i + 1]);
        }
    }
    lemma_content_after_remove(b, idx);
}

/// The orphans of a node that dissolves: those that came up from below,
/// followed by the children that it still had.
pub proof fn lemma_node_dissolved<T: Coordinate, O: ObjectId>(
    node: Entry<T, O>,
    below: Seq<Orphan<T, O>>,
    orphans: Seq<Orphan<T, O>>,
    config: Config,
)
    requires
        config.valid(),
        node.well_formed(config),
        node matches Entry::NonLeaf { level, children },
        node.spec_len() < config.minimum_entries_per_node,
        orphans_fit(below, config, (node.spec_level() - 1) as nat),
        orphans == below + node->NonLeaf_children@.map_values(
            |c: ChildRecord<T, O>| Orphan::Subtree(c),
        ),
    ensures
        orphans_fit(orphans, config, node.spec_level()),
        Orphan::records_of(orphans).to_multiset() == Orphan::records_of(below).to_multiset().add(
            node.records().to_multiset(),
        ),
{
    broadcast use vstd::seq_lib::lemma_multiset_commutative;

    let children = node->NonLeaf_children@;
    let top = node.spec_level();
    lemma_orphan_bound((top - 1) as nat, config);
    lemma_orphaned_children(below, children);
    assert forall|i: int| 0 <= i < orphans.len() implies (#[trigger] orphans[i]).well_formed(
        config,
    ) by {
        if i < below.len() {
            assert(orphans[i] == below[i]);
        } else {
            assert(orphans[i] == Orphan::Subtree(children[i - below.len()]));
        }
    }
    assert forall|i: int| 0 <= i < orphans.len() implies (#[trigger] orphans[i]).spec_rank()
        <= top by {
        if i < below.len() {
            assert(orphans[i] == below[i]);
        } else {
            assert(orphans[i] == Orphan::Subtree(children[i - below.len()]));
        }
    }
    assert forall|i: int, j: int| 0 <= i <= j < orphans.len() implies (
    #[trigger] orphans[i]).spec_rank() <= (#[trigger] orphans[j]).spec_rank() by {
        if j < below.len() {
            assert(orphans[i] == below[i]);
            assert(orphans[j] == below[j]);
        } else {
            assert(orphans[j] == Orphan::Subtree(children[j - below.len()]));
            if i < below.len() {
                assert(orphans[i] == below[i]);
            } else {
                assert(orphans[i] == Orphan::Subtree(children[i - below.len()]));
            }
        }
    }
}

/// Orphans that fit below a level fit below every higher one.
pub proof fn lemma_orphans_fit_higher<T: Coordinate, O: ObjectId>(
    orphans: Seq<Orphan<T, O>>,
    config: Config,
    top: nat,
)
    requires
        config.valid(),
        orphans_fit(orphans, config, top),
    ensures
        orphans_fit(orphans, config, top + 1),
{
    lemma_orphan_bound(top, config);
}

impl<T: Coordinate, O: ObjectId> Entry<T, O> {
    /// What removing the record at `path` from below this node is to achieve:
    /// see `delete`.
    pub open spec fn is_removal_at(
        self,
        path: Seq<usize>,
        after: Self,
        result: DeleteResult<T, O>,
        config: Config,
    ) -> bool {
        let target = self.record_at(path);
        match result {
            DeleteResult::Success => {
                &&& after.well_formed(config)
                &&& after.spec_level() == self.spec_level()
                &&& 1 <= after.spec_len() <= self.spec_len()
                &&& after.spec_len() == self.spec_len() || after.spec_len()
                    >= config.minimum_entries_per_node
                &&& after.records().to_multiset().insert(target) == self.records().to_multiset()
            },
            DeleteResult::NoSuchRecord => false,
            DeleteResult::Dissolved(orphans, true) => {
                &&& after.spec_len() == 0
                &&& orphans_fit(orphans@, config, self.spec_level())
                &&& Orphan::records_of(orphans@).to_multiset().insert(target)
                    == self.records().to_multiset()
            },
            DeleteResult::Dissolved(orphans, false) => {
                &&& self is NonLeaf
                &&& after.well_formed(config)
                &&& after.spec_level() == self.spec_level()
                &&& config.minimum_entries_per_node <= after.spec_len() <= self.spec_len()
                &&& orphans_fit(orphans@, config, (self.spec_level() - 1) as nat)
                &&& after.records().to_multiset().add(
                    Orphan::records_of(orphans@).to_multiset(),
                ).insert(target) == self.records().to_multiset()
            },
        }
    }

    /// What becomes of this inner node once the removal below its child `idx`
    /// is done: `below` is that child after the removal and `outcome` what
    /// the removal reported; `now` are the children of the node after all,
    /// and `result` is what the node reports in turn.
    ///
    /// A child that stays has its box refreshed; a child that has dissolved is
    /// dropped. A node that is then left with fewer children than the minimum
    /// dissolves: its children become orphans, after those from below.
    pub open spec fn settles_after(
        self,
        idx: int,
        below: Self,
        outcome: DeleteResult<T, O>,
        now: Seq<ChildRecord<T, O>>,
        result: DeleteResult<T, O>,
        config: Config,
    ) -> bool {
        let children = self->NonLeaf_children@;
        let refreshed = children.update(idx, ChildRecord(below.spec_mbb(), below));
        match outcome {
            DeleteResult::Success => result is Success && now == refreshed,
            DeleteResult::NoSuchRecord => false,
            DeleteResult::Dissolved(from_below, removed) => {
                let kept = if removed {
                    children.remove(idx)
                } else {
                    refreshed
                };
                if kept.len() < config.minimum_entries_per_node {
                    &&& result matches DeleteResult::Dissolved(orphans, true)
                    &&& orphans@ == from_below@ + kept.map_values(
                        |c: ChildRecord<T, O>| Orphan::Subtree(c),
                    )
                    &&& now.len() == 0
                } else {
                    &&& result matches DeleteResult::Dissolved(orphans, false)
                    &&& orphans@ == from_below@
                    &&& now == kept
                }
            },
        }
    }

    /// `after` is this node with the record at `path` removed from below it,
    /// and `result` what the removal reports: see `remove_at`.
    pub open spec fn loses_at(
        self,
        path: Seq<usize>,
        after: Self,
        result: DeleteResult<T, O>,
        config: Config,
    ) -> bool
        decreases self,
    {
        match (self, after) {
            (Entry::Leaf { children }, Entry::Leaf { children: now }) => {
                let rest = children@.remove(path[0] as int);
                if rest.len() < config.minimum_entries_per_node {
                    &&& result matches DeleteResult::Dissolved(orphans, true)
                    &&& orphans@ == rest.map_values(|r: ObjectRecord<T, O>| Orphan::Record(r))
                    &&& now@.len() == 0
                } else {
                    result is Success && now@ == rest
                }
            },
            (Entry::NonLeaf { level, children }, Entry::NonLeaf { level: same, children: now }) => {
                &&& same == level
                &&& path.len() >= 1
                &&& path.last() < children@.len()
                &&& exists|below: Self, outcome: DeleteResult<T, O>|
                    children@[path.last() as int].1.loses_at(
                        path.drop_last(),
                        below,
                        outcome,
                        config,
                    ) && #[trigger] self.settles_after(
                        path.last() as int,
                        below,
                        outcome,
                        now@,
                        result,
                        config,
                    )
            },
            _ => false,
        }
    }

    /// Removes the record at `path` from below this node.
    ///
    /// A leaf that is left with fewer records than the minimum dissolves: its
    /// records become orphans. A node whose child reports success refreshes
    /// the box cached for that child. A node whose child has dissolved drops
    /// that child, or refreshes its box where the child stays; where the node
    /// is then left with fewer children than the minimum, it dissolves in
    /// turn, and its children become orphans after those from below.
    pub fn remove_at(&mut self, config: &Config, path: &mut Vec<usize>) -> (result: DeleteResult<
        T,
        O,
    >)
        requires
            config.valid(),
            old(self).well_formed(*config),
            old(self).has_path(old(path)@),
        ensures
            old(self).is_removal_at(old(path)@, *final(self), result, *config),
            old(self).loses_at(old(path)@, *final(self), result, *config),
        decreases *old(self),
    {
        let ghost before = *self;
        let ghost way = path@;
        let ghost target = self.record_at(path@);
        match self {
            Entry::Leaf { children } => {
                let idx = path.pop().unwrap();
                children.remove(idx);
                let ghost shrunk = Entry::Leaf { children: *children };
                proof {
                    lemma_record_removed(before, shrunk, idx as int, *config);
                }
                if children.len() < config.minimum_entries_per_node() {
                    let mut orphans: Vec<Orphan<T, O>> = Vec::new();
                    let ghost rest = children@;
                    dissolve_records(children, &mut orphans);
                    proof {
                        assert forall|i: int| 0 <= i < rest.len() implies (
                        #[trigger] rest[i]).0.within_limit() by {
                            assert(shrunk.well_formed(*config));
                        }
                        lemma_leaf_dissolved(rest, orphans@, *config);
                        assert(orphans@ =~= rest.map_values(
                            |r: ObjectRecord<T, O>| Orphan::Record(r),
                        ));
                    }
                    DeleteResult::Dissolved(orphans, true)
                } else {
                    DeleteResult::Success
                }
            },
            Entry::NonLeaf { children, level } => {
                let idx = path.pop().unwrap();
                let ghost old_child = children@[idx as int];
                assert(old_child.well_formed(*config));
                let child = &mut children[idx];
                let reported = child.1.remove_at(config, path);
                let ghost outcome = reported;
                let ghost below = child.1;
                match reported {
                    DeleteResult::Success => {
                        child.0 = child.1.mbb();
                        proof {
                            assert(before.settles_after(
                                idx as int,
                                below,
                                outcome,
                                children@,
                                DeleteResult::Success,
                                *config,
                            ));
                            let gone = Multiset::<ObjectRecord<T, O>>::empty().insert(target);
                            assert(children@[idx as int].1.records().to_multiset().add(gone)
                                =~= children@[idx as int].1.records().to_multiset().insert(target));
                            lemma_child_settled(before, *self, idx as int, gone, *config);
                            assert(self.records().to_multiset().add(gone)
                                =~= self.records().to_multiset().insert(target));
                        }
                        DeleteResult::Success
                    },
                    DeleteResult::Dissolved(old_orphans, remove) => {
                        let mut orphans = old_orphans;
                        let ghost sunk = below;
                        let ghost below = orphans@;
                        let ghost orphaned = Orphan::records_of(below).to_multiset();
                        if remove {
                            children.remove(idx);
                            assert(children@ =~= before->NonLeaf_children@.remove(idx as int));
                            proof {
                                lemma_child_gone(
                                    before,
                                    Entry::NonLeaf { level: *level, children: *children },
                                    idx as int,
                                    *config,
                                );
                            }
                        } else {
                            let child = &mut children[idx];
                            child.0 = child.1.mbb();
                            proof {
                                let gone = orphaned.insert(target);
                                assert(children@[idx as int].1.records().to_multiset().add(gone)
                                    =~= children@[idx as int].1.records().to_multiset().add(
                                    orphaned,
                                ).insert(target));
                                lemma_child_settled(
                                    before,
                                    Entry::NonLeaf { level: *level, children: *children },
                                    idx as int,
                                    gone,
                                    *config,
                                );
                                lemma_orphans_fit_higher(
                                    below,
                                    *config,
                                    (old_child.1.spec_level() - 1) as nat,
                                );
                            }
                        }
                        let ghost settled = Entry::NonLeaf { level: *level, children: *children };
                        let ghost kept = children@;
                        proof {
                            assert(outcome == DeleteResult::Dissolved(old_orphans, remove));
                            if remove {
                                assert(kept == before->NonLeaf_children@.remove(idx as int));
                            } else {
                                assert(kept =~= before->NonLeaf_children@.update(
                                    idx as int,
                                    ChildRecord(sunk.spec_mbb(), sunk),
                                ));
                            }
                        }
                        assert(settled.records().to_multiset().add(orphaned).insert(target)
                            =~= before.records().to_multiset());
                        if children.len() < config.minimum_entries_per_node() {
                            dissolve_children(children, &mut orphans);
                            proof {
                                lemma_node_dissolved(settled, below, orphans@, *config);
                                assert(Orphan::records_of(orphans@).to_multiset().insert(target)
                                    =~= settled.records().to_multiset().add(orphaned).insert(
                                    target,
                                ));
                                assert(before.settles_after(
                                    idx as int,
                                    sunk,
                                    outcome,
                                    children@,
                                    DeleteResult::Dissolved(orphans, true),
                                    *config,
                                ));
                            }
                            DeleteResult::Dissolved(orphans, true)
                        } else {
                            proof {
                                assert(before.settles_after(
                                    idx as int,
                                    sunk,
                                    outcome,
                                    children@,
                                    DeleteResult::Dissolved(orphans, false),
                                    *config,
                                ));
                            }
                            DeleteResult::Dissolved(orphans, false)
                        }
                    },
                    DeleteResult::NoSuchRecord => {
                        proof {
                            assert(false);
                        }
                        unreached()
                    },
                }
            },
        }
    }

    /// Deletes the record that carries the identifier of `to_delete`, if the
    /// search finds one (`spec_locate`); its rectangle need not be that of
    /// `to_delete`. Without such a record the node is left as it was.
    pub fn delete(&mut self, config: &Config, to_delete: &ObjectRecord<T, O>) -> (result:
        DeleteResult<T, O>)
        requires
            config.valid(),
            old(self).well_formed(*config),
        ensures
            match old(self).spec_locate(to_delete.0, to_delete.1) {
                None => result is NoSuchRecord && *final(self) == *old(self),
                Some(path) => old(self).is_removal_at(path, *final(self), result, *config) && old(
                    self,
                ).loses_at(path, *final(self), result, *config),
            },
    {
        match self.locate(to_delete) {
            None => DeleteResult::NoSuchRecord,
            Some(mut path) => {
                proof {
                    lemma_located(*self, to_delete.0, to_delete.1);
                }
                self.remove_at(config, &mut path)
            },
        }
    }
}

//////////////
// THE TREE //
//////////////
/// An orphan that is not put back: a subtree whose root is an inner node
/// without children.
pub open spec fn is_left_out<T: Coordinate, O: ObjectId>(orphan: Orphan<T, O>) -> bool {
    orphan matches Orphan::Subtree(child) && child.1 is NonLeaf && child.1.spec_len() == 0
}

/// The level at which the last of the orphans belongs, or 0 without orphans.
pub open spec fn highest_rank<T: Coordinate, O: ObjectId>(orphans: Seq<Orphan<T, O>>) -> nat {
    if orphans.len() == 0 {
        0
    } else {
        orphans.last().spec_rank()
    }
}

/// The greater of two numbers.
pub open spec fn larger(a: nat, b: nat) -> nat {
    if a >= b {
        a
    } else {
        b
    }
}

impl<T: Coordinate, O: ObjectId> RTree<T, O> {
    /// The record that a deletion of `to_delete` removes, if it finds one: the
    /// first record with the identifier of `to_delete` in a leaf that the
    /// search reaches (`Entry::spec_locate`).
    pub open spec fn spec_find(self, to_delete: ObjectRecord<T, O>) -> Option<ObjectRecord<T, O>> {
        match self.root {
            None => None,
            Some(root) => match root.spec_locate(to_delete.0, to_delete.1) {
                None => None,
                Some(path) => Some(root.record_at(path)),
            },
        }
    }

    /// `after` is this tree made shorter: without its root where the root has
    /// no entries, with the only child of its root as the root where the root
    /// is an inner node with a single child, and else as it is.
    pub open spec fn shortens_to(self, after: Self) -> bool {
        &&& after.config == self.config
        &&& match self.root {
            None => after.root is None,
            Some(root) => if root.spec_len() == 0 {
                after.root is None
            } else if root is NonLeaf && root.spec_len() == 1 {
                after.root == Some(root->NonLeaf_children@[0].1)
            } else {
                after.root == self.root
            },
        }
    }

    /// `after` is this tree with the orphans put back into it, the last
    /// first, those left out that are left out: see `reinsert`.
    pub open spec fn reinserts(self, orphans: Seq<Orphan<T, O>>, after: Self) -> bool
        decreases orphans.len(),
    {
        if orphans.len() == 0 {
            after == self
        } else if is_left_out(orphans.last()) {
            self.reinserts(orphans.drop_last(), after)
        } else {
            exists|mid: Self|
                (#[trigger] self.places(orphans.last(), mid)) && mid.reinserts(
                    orphans.drop_last(),
                    after,
                )
        }
    }

    /// The steps of a deletion that found its record at `path` below `root`:
    /// the removal leaves `below` of the root and reports `outcome`; with the
    /// orphans put back the tree is `restored`, and made shorter it is `after`.
    pub open spec fn restores(
        self,
        root: Entry<T, O>,
        path: Seq<usize>,
        below: Entry<T, O>,
        outcome: DeleteResult<T, O>,
        restored: Self,
        after: Self,
    ) -> bool {
        &&& root.loses_at(path, below, outcome, self.config)
        &&& match outcome {
            DeleteResult::Success => restored == (RTree { root: Some(below), config: self.config }),
            DeleteResult::NoSuchRecord => false,
            DeleteResult::Dissolved(orphans, emptied) => (RTree {
                root: if emptied {
                    None
                } else {
                    Some(below)
                },
                config: self.config,
            }).reinserts(orphans@, restored),
        }
        &&& restored.shortens_to(after)
    }

    /// `after` is this tree after a deletion of `to_delete`, and `found` what
    /// the deletion returns: see `delete`.
    pub open spec fn deletes(self, to_delete: ObjectRecord<T, O>, after: Self, found: bool) -> bool {
        match self.root {
            None => !found && after == self,
            Some(root) => match root.spec_locate(to_delete.0, to_delete.1) {
                None => !found && after == self,
                Some(path) => found && exists|
                    below: Entry<T, O>,
                    outcome: DeleteResult<T, O>,
                    restored: Self,
                | #[trigger] self.restores(root, path, below, outcome, restored, after),
            },
        }
    }

    /// Takes a root without entries away, and puts the only child of a root in
    /// the place of that root.
    pub fn shorten(&mut self)
        requires
            old(self).well_formed(),
        ensures
            final(self).well_formed(),
            old(self).shortens_to(*final(self)),
            final(self).config == old(self).config,
            final(self).records() == old(self).records(),
            final(self).spec_height() <= old(self).spec_height(),
    {
        match self.root.take() {
            Some(Entry::Leaf { children }) => {
                if children.len() != 0 {
                    self.root = Some(Entry::Leaf { children });
                }
            },
            Some(Entry::NonLeaf { level, mut children }) => {
                if children.len() == 0 {
                } else if children.len() == 1 {
                    let ghost only = children@[0];
                    proof {
                        assert(only.well_formed(self.config));
                        assert(children@ =~= seq![only]);
                        crate::r_tree::content::lemma_records_of_single(only);
                    }
                    self.root = Some(children.remove(0).1);
                } else {
                    self.root = Some(Entry::NonLeaf { level, children });
                }
            },
            None => {},
        }
    }

    /// Puts orphans back into the tree, the last first. A subtree without
    /// entries is left out.
    pub fn reinsert(&mut self, orphans: Vec<Orphan<T, O>>)
        requires
            old(self).well_formed(),
            orphans_are_ordered(orphans@, old(self).config),
            old(self).has_place_for(highest_rank(orphans@)),
            larger(old(self).spec_height(), highest_rank(orphans@)) + orphans.len() < usize::MAX,
        ensures
            final(self).well_formed(),
            old(self).reinserts(orphans@, *final(self)),
            final(self).config == old(self).config,
            final(self)@ == old(self)@.add(Orphan::records_of(orphans@).to_multiset()),
            final(self).spec_height() <= larger(old(self).spec_height(), highest_rank(orphans@))
                + orphans.len(),
    {
        let ghost all = orphans@;
        let ghost config = self.config;
        let ghost start = *self;
        let ghost cap = larger(self.spec_height(), highest_rank(orphans@));
        let mut orphans = orphans;
        proof {
            lemma_empty_content::<ObjectRecord<T, O>>();
            assert(all.take(all.len() as int) =~= all);
            assert(self@.add(Orphan::records_of(all).to_multiset()) =~= start@.add(
                Orphan::records_of(all).to_multiset(),
            ));
        }
        while orphans.len() > 0
            invariant
                self.well_formed(),
                self.config == config,
                orphans@ == all.take(orphans.len() as int),
                orphans.len() <= all.len(),
                orphans_are_ordered(all, config),
                self.has_place_for(highest_rank(orphans@)),
                highest_rank(all) <= cap,
                cap + all.len() < usize::MAX,
                self.spec_height() + orphans.len() <= cap + all.len(),
                self@.add(Orphan::records_of(orphans@).to_multiset()) == start@.add(
                    Orphan::records_of(all).to_multiset(),
                ),
                forall|end: Self| #[trigger]
                    self.reinserts(orphans@, end) ==> start.reinserts(all, end),
            decreases orphans.len(),
        {
            let ghost waiting = orphans@;
            let ghost held = self@;
            let ghost prior = *self;
            let orphan = orphans.pop().unwrap();
            proof {
                assert(waiting.last() == all[waiting.len() - 1]);
                assert(orphan.well_formed(config));
                assert(orphans@ =~= all.take(orphans.len() as int));
                assert(waiting =~= orphans@.push(orphan));
                lemma_orphans_push(orphans@, orphan);
                if orphans.len() > 0 {
                    assert(orphans@.last() == all[orphans.len() - 1]);
                }
                assert(highest_rank(orphans@) <= orphan.spec_rank());
                assert(orphan.spec_rank() <= highest_rank(all));
            }
            let keep = match &orphan {
                Orphan::Record(_) => true,
                Orphan::Subtree(ChildRecord(_, entry)) => match entry {
                    Entry::NonLeaf { children, .. } => children.len() != 0,
                    _ => true,
                },
            };
            if keep {
                self.place(orphan);
                assert(self@.add(Orphan::records_of(orphans@).to_multiset()) =~= held.add(
                    Orphan::records_of(waiting).to_multiset(),
                ));
                proof {
                    let placed = *self;
                    assert(waiting.drop_last() =~= orphans@);
                    assert(!is_left_out(orphan));
                    assert forall|end: Self| #[trigger]
                        placed.reinserts(orphans@, end) implies start.reinserts(all, end) by {
                        assert(prior.places(waiting.last(), placed));
                        assert(prior.reinserts(waiting, end));
                    }
                }
            } else {
                proof {
                    assert(config.spec_node_floor() >= 1);
                    assert(false);
                }
            }
        }
        proof {
            assert(orphans@ =~= Seq::<Orphan<T, O>>::empty());
            assert(self@.add(Orphan::records_of(orphans@).to_multiset()) =~= self@);
            assert(self.reinserts(orphans@, *self));
        }
    }

    /// Deletes from the tree the record that carries the identifier of
    /// `to_delete`, if the search finds one: see `spec_find`. The rectangle of
    /// `to_delete` only guides the search.
    ///
    /// Entries that dissolved nodes leave behind are put back into the tree
    /// (`reinsert`); then the tree is shortened by one level where its root is
    /// left with a single child (`shorten`). Where the search finds nothing
    /// the tree is left as it was.
    pub fn delete(&mut self, to_delete: ObjectRecord<T, O>) -> (found: bool)
        requires
            old(self).well_formed(),
            old(self).spec_height() * old(self).config.minimum_entries_per_node < usize::MAX,
        ensures
            final(self).well_formed(),
            old(self).deletes(to_delete, *final(self), found),
            final(self).config == old(self).config,
            match old(self).spec_find(to_delete) {
                None => !found && *final(self) == *old(self),
                Some(target) => {
                    &&& found
                    &&& target.1 == to_delete.1
                    &&& old(self)@.contains(target)
                    &&& final(self)@ == old(self)@.remove(target)
                },
            },
            final(self).spec_height() <= old(self).spec_height()
                * old(self).config.minimum_entries_per_node,
            final(self).root matches Some(root) ==> root.boxes_are_true() && root.fanout_within(
                old(self).config.spec_node_floor(),
                old(self).config.maximum_entries_per_node as nat,
            ),
            final(self)@.len() == 0 ==> final(self).root is None,
            final(self)@.len() == 1 && old(self).config.spec_node_floor() >= 2 ==> (final(self).root
                matches Some(Entry::Leaf { children }) && children@ == final(self).records()),
            found && old(self).ids_are_unique() ==> {
                &&& final(self).ids_are_unique()
                &&& final(self).spec_find(to_delete) is None
                &&& forall|area: Rectangle<T>|
                    !(#[trigger] hits(final(self).records(), area)).contains(to_delete.1)
            },
    {
        let config = self.config;
        let ghost before = *self;
        let ghost height = self.spec_height();
        proof {
            let m = config.minimum_entries_per_node as int;
            assert(height <= height * m && height * m == height + height * (m - 1))
                by (nonlinear_arith)
                requires
                    m >= 2,
                    height >= 0,
            ;
        }
        let found = match self.root.take() {
            None => false,
            Some(mut root) => {
                let ghost old_root = root;
                proof {
                    if root.spec_locate(to_delete.0, to_delete.1) is Some {
                        lemma_located(root, to_delete.0, to_delete.1);
                    }
                }
                let reported = root.delete(&config, &to_delete);
                let ghost outcome = reported;
                let ghost below = root;
                let ghost path = old_root.spec_locate(to_delete.0, to_delete.1);
                match reported {
                    DeleteResult::NoSuchRecord => {
                        self.root = Some(root);
                        false
                    },
                    DeleteResult::Success => {
                        self.root = Some(root);
                        proof {
                            let target = before.spec_find(to_delete)->Some_0;
                            assert(before@.remove(target) =~= self@);
                        }
                        let ghost restored = *self;
                        self.shorten();
                        proof {
                            assert(before.restores(
                                old_root,
                                path->Some_0,
                                below,
                                outcome,
                                restored,
                                *self,
                            ));
                        }
                        true
                    },
                    DeleteResult::Dissolved(orphans, emptied) => {
                        let ghost target = before.spec_find(to_delete)->Some_0;
                        let ghost orphaned = Orphan::records_of(orphans@).to_multiset();
                        let ghost detached = orphans@;
                        if !emptied {
                            self.root = Some(root);
                        }
                        let ghost rest = *self;
                        proof {
                            lemma_empty_content::<ObjectRecord<T, O>>();
                            assert(self@.add(orphaned).insert(target) =~= before@);
                            assert(before@.remove(target) =~= self@.add(orphaned));
                            lemma_orphan_bound(old_root.spec_level(), config);
                            assert(orphan_bound(old_root.spec_level(), config) == height * (
                            config.minimum_entries_per_node - 1));
                            let top = if emptied {
                                old_root.spec_level()
                            } else {
                                (old_root.spec_level() - 1) as nat
                            };
                            if !emptied {
                                lemma_orphans_fit_higher(orphans@, config, top);
                            }
                            lemma_orphans_fit_lower(orphans@, config, old_root.spec_level());
                        }
                        self.reinsert(orphans);
                        let ghost restored = *self;
                        self.shorten();
                        proof {
                            assert(outcome == DeleteResult::Dissolved(orphans, emptied));
                            assert(rest.reinserts(detached, restored));
                            assert(before.restores(
                                old_root,
                                path->Some_0,
                                below,
                                outcome,
                                restored,
                                *self,
                            ));
                        }
                        true
                    },
                }
            },
        };
        proof {
            lemma_cached_boxes_are_true(*self);
            lemma_fanout(*self);
            lemma_few_records(*self);
            if found && before.ids_are_unique() {
                assert forall|area: Rectangle<T>|
                    !(#[trigger] hits(self.records(), area)).contains(to_delete.1) by {
                    lemma_deleted_is_absent(before, *self, to_delete, area);
                }
                lemma_deleted_is_absent(before, *self, to_delete, to_delete.0);
            }
        }
        found
    }
}

/// Of orphans that fit below a level, the last belongs no higher than that
/// level.
pub proof fn lemma_orphans_fit_lower<T: Coordinate, O: ObjectId>(
    orphans: Seq<Orphan<T, O>>,
    config: Config,
    top: nat,
)
    requires
        config.valid(),
        orphans_fit(orphans, config, top),
    ensures
        highest_rank(orphans) <= top,
        orphans.len() <= orphan_bound(top, config),
        orphans_are_ordered(orphans, config),
{
    if orphans.len() > 0 {
        assert(orphans[orphans.len() - 1].spec_rank() <= top);
    }
}

} // verus!
