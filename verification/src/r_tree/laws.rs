//! What holds of every well-formed tree, and of the trees that insertion and
//! deletion make of it.

use crate::geometry2d::{Coordinate, Point, Rectangle, Spacial};
use crate::r_tree::bounding::{covers, lemma_box_covers, lemma_well_formed_boxes};
use crate::r_tree::content::lemma_records_of_split;
use crate::r_tree::delete::{first_with_id, lemma_locate_among_extends, lemma_located};
use crate::r_tree::query::hits;
use crate::r_tree::{merge_all, ChildRecord, Config, Entry, ObjectId, ObjectRecord, RTree};
use vstd::prelude::*;

verus! {

//////////////////////
// SEARCH FINDS ALL //
//////////////////////
/// An ordered rectangle intersects every rectangle that contains it.
pub proof fn lemma_contained_intersects<T: Coordinate>(inner: Rectangle<T>, outer: Rectangle<T>)
    requires
        inner.is_ordered(),
        outer.spec_contains_rectangle(inner),
    ensures
        inner.spec_intersects(outer),
{
}

/// A rectangle intersects the area that is just a point where it contains the
/// point: a search by point returns the records whose rectangle contains it.
pub proof fn lemma_point_area<T: Coordinate>(rectangle: Rectangle<T>, point: Point<T>)
    ensures
        rectangle.spec_intersects(Rectangle::spec_at(point)) == rectangle.spec_contains_point(
            point,
        ),
{
}

/// Where every record intersects the area, every record is a hit.
pub proof fn lemma_all_hit<T: Coordinate, O: ObjectId>(
    records: Seq<ObjectRecord<T, O>>,
    area: Rectangle<T>,
)
    requires
        forall|i: int| 0 <= i < records.len() ==> (#[trigger] records[i]).0.spec_intersects(area),
    ensures
        hits(records, area) == records.map_values(|r: ObjectRecord<T, O>| r.1),
{
    lemma_all_kept(records, area);
}

/// Where every record intersects the area, the filter for the area keeps all.
pub proof fn lemma_all_kept<T: Coordinate, O: ObjectId>(
    records: Seq<ObjectRecord<T, O>>,
    area: Rectangle<T>,
)
    requires
        forall|i: int| 0 <= i < records.len() ==> (#[trigger] records[i]).0.spec_intersects(area),
    ensures
        records.filter(|r: ObjectRecord<T, O>| r.0.spec_intersects(area)) == records,
    decreases records.len(),
{
    let pred = |r: ObjectRecord<T, O>| r.0.spec_intersects(area);
    reveal(Seq::filter);
    if records.len() > 0 {
        let init = records.drop_last();
        assert forall|i: int| 0 <= i < init.len() implies (#[trigger] init[i]).0.spec_intersects(
            area,
        ) by {
            assert(init[i] == records[i]);
        }
        lemma_all_kept(init, area);
        assert(records[records.len() - 1].0.spec_intersects(area));
        assert(records.filter(pred) =~= records);
    } else {
        assert(records.filter(pred) =~= records);
    }
}

/// A hit is the identifier of a record that intersects the area, and the
/// identifier of every such record is a hit.
pub proof fn lemma_hits_are_records<T: Coordinate, O: ObjectId>(
    records: Seq<ObjectRecord<T, O>>,
    area: Rectangle<T>,
    id: O,
)
    ensures
        hits(records, area).contains(id) <==> exists|i: int|
            0 <= i < records.len() && (#[trigger] records[i]).1 == id && records[i].0.spec_intersects(
                area,
            ),
{
    let pred = |r: ObjectRecord<T, O>| r.0.spec_intersects(area);
    let kept = records.filter(pred);
    let found = hits(records, area);
    if found.contains(id) {
        let k = choose|k: int| 0 <= k < found.len() && found[k] == id;
        assert(kept[k].1 == id);
        records.lemma_filter_pred(pred, k);
        assert(kept.contains(kept[k]));
        records.lemma_filter_contains_rev(pred, kept[k]);
        let i = choose|i: int| 0 <= i < records.len() && records[i] == kept[k];
        assert(records[i].1 == id && records[i].0.spec_intersects(area));
    }
    if exists|i: int|
        0 <= i < records.len() && (#[trigger] records[i]).1 == id && records[i].0.spec_intersects(
            area,
        ) {
        let i = choose|i: int|
            0 <= i < records.len() && (#[trigger] records[i]).1 == id
                && records[i].0.spec_intersects(area);
        records.lemma_filter_contains(pred, i);
        let k = choose|k: int| 0 <= k < kept.len() && kept[k] == records[i];
        assert(found[k] == id);
    }
}

/// Round trip: a search of an area that contains the rectangles of all the
/// records of a tree, each of them ordered, returns the identifier of every
/// record, once for each time that the tree holds the record.
pub proof fn lemma_search_of_all<T: Coordinate, O: ObjectId>(tree: RTree<T, O>, area: Rectangle<T>)
    requires
        forall|i: int|
            0 <= i < tree.records().len() ==> (#[trigger] tree.records()[i]).0.is_ordered()
                && area.spec_contains_rectangle(tree.records()[i].0),
    ensures
        hits(tree.records(), area) == tree.records().map_values(|r: ObjectRecord<T, O>| r.1),
        forall|r: ObjectRecord<T, O>| #[trigger]
            tree@.contains(r) ==> hits(tree.records(), area).contains(r.1),
        tree.ids_are_unique() ==> hits(tree.records(), area).no_duplicates(),
{
    broadcast use vstd::seq_lib::group_to_multiset_ensures;

    let records = tree.records();
    let found = hits(records, area);
    assert forall|i: int| 0 <= i < records.len() implies (#[trigger] records[i]).0.spec_intersects(
        area,
    ) by {
        lemma_contained_intersects(records[i].0, area);
    }
    lemma_all_hit(records, area);
    assert forall|r: ObjectRecord<T, O>| #[trigger] tree@.contains(r) implies found.contains(
        r.1,
    ) by {
        assert(records.contains(r));
        let i = choose|i: int| 0 <= i < records.len() && records[i] == r;
        assert(found[i] == r.1);
    }
    if tree.ids_are_unique() {
        assert forall|i: int, j: int| 0 <= i < found.len() && 0 <= j < found.len() && i
            != j implies found[i] != found[j] by {
            assert(found[i] == records[i].1);
            assert(found[j] == records[j].1);
        }
    }
}

/// What was inserted is found: after an insertion, every search of an area
/// that the rectangle of the new record intersects returns its identifier.
pub proof fn lemma_inserted_is_found<T: Coordinate, O: ObjectId>(
    before: RTree<T, O>,
    after: RTree<T, O>,
    record: ObjectRecord<T, O>,
    area: Rectangle<T>,
)
    requires
        after@ == before@.insert(record),
        record.0.spec_intersects(area),
    ensures
        hits(after.records(), area).contains(record.1),
{
    broadcast use vstd::seq_lib::group_to_multiset_ensures;

    let records = after.records();
    assert(after@.count(record) > 0);
    assert(records.contains(record));
    let i = choose|i: int| 0 <= i < records.len() && records[i] == record;
    lemma_hits_are_records(records, area, record.1);
}

//////////////////////////////
// WHAT IS STORED IS FOUND //
//////////////////////////////
/// A run of records that holds a record with an identifier has a first one.
pub proof fn lemma_first_with_id_exists<T: Coordinate, O: ObjectId>(
    records: Seq<ObjectRecord<T, O>>,
    id: O,
    i: int,
)
    requires
        0 <= i < records.len(),
        records[i].1 == id,
    ensures
        first_with_id(records, id) is Some,
    decreases records.len(),
{
    if i < records.len() - 1 {
        lemma_first_with_id_exists(records.drop_last(), id, i);
    }
}

/// A record below a run of children is below one of them.
pub proof fn lemma_record_below_child<T: Coordinate, O: ObjectId>(
    children: Seq<ChildRecord<T, O>>,
    record: ObjectRecord<T, O>,
) -> (k: int)
    requires
        ChildRecord::records_of(children).contains(record),
    ensures
        0 <= k < children.len(),
        children[k].1.records().contains(record),
    decreases children.len(),
{
    let all = ChildRecord::records_of(children);
    let i = choose|i: int| 0 <= i < all.len() && all[i] == record;
    if children.len() == 0 {
        0
    } else {
        let before = ChildRecord::records_of(children.drop_last());
        if i < before.len() {
            assert(before[i] == record);
            let k = lemma_record_below_child(children.drop_last(), record);
            assert(children.drop_last()[k] == children[k]);
            k
        } else {
            assert(children.last().1.records()[i - before.len()] == record);
            children.len() - 1
        }
    }
}

/// Where boxes are exact, the search for a stored record with an ordered
/// rectangle, guided by that rectangle, finds a record with its identifier.
pub proof fn lemma_locates_stored<T: Coordinate, O: ObjectId>(
    entry: Entry<T, O>,
    record: ObjectRecord<T, O>,
)
    requires
        entry.boxes_are_exact(),
        entry.records().contains(record),
        record.0.is_ordered(),
    ensures
        entry.spec_locate(record.0, record.1) is Some,
    decreases entry,
{
    match entry {
        Entry::Leaf { children } => {
            let i = choose|i: int| 0 <= i < children@.len() && children@[i] == record;
            lemma_first_with_id_exists(children@, record.1, i);
        },
        Entry::NonLeaf { children, .. } => {
            let k = lemma_record_below_child(children@, record);
            let child = children@[k];
            lemma_locates_stored(child.1, record);
            lemma_box_covers(child.1);
            let j = choose|j: int| 0 <= j < child.1.records().len() && child.1.records()[j] == record;
            assert(child.0.spec_contains_rectangle(child.1.records()[j].0));
            assert(child.0.spec_intersects(record.0));
            assert(children@.take(k + 1).drop_last() =~= children@.take(k));
            assert(children@.take(k + 1).last() == child);
            lemma_locate_among_extends(children@, record.0, record.1, k + 1);
        },
    }
}

/// Deletion succeeds for what is stored: in a well-formed tree, a deletion
/// with a stored record whose rectangle is ordered finds a record with the
/// identifier of that record.
pub proof fn lemma_delete_finds_stored<T: Coordinate, O: ObjectId>(
    tree: RTree<T, O>,
    record: ObjectRecord<T, O>,
)
    requires
        tree.well_formed(),
        tree@.contains(record),
        record.0.is_ordered(),
    ensures
        tree.spec_find(record) is Some,
        tree.ids_are_unique() ==> tree.spec_find(record) == Some(record),
{
    broadcast use vstd::seq_lib::group_to_multiset_ensures;

    let records = tree.records();
    assert(records.contains(record));
    let root = tree.root->Some_0;
    lemma_well_formed_boxes(root, tree.config);
    lemma_locates_stored(root, record);
    if tree.ids_are_unique() {
        let path = root.spec_locate(record.0, record.1)->Some_0;
        lemma_located(root, record.0, record.1);
        lemma_record_at_is_held(root, path);
        let found = root.record_at(path);
        let i = choose|i: int| 0 <= i < records.len() && records[i] == record;
        let j = choose|j: int| 0 <= j < records.len() && records[j] == found;
        if i < j {
            assert(records[i].1 != records[j].1);
        } else if j < i {
            assert(records[j].1 != records[i].1);
        }
    }
}

//////////////////////////
// DELETED MEANS ABSENT //
//////////////////////////
/// The record to which a path leads is one of the records below the node.
pub proof fn lemma_record_at_is_held<T: Coordinate, O: ObjectId>(
    entry: Entry<T, O>,
    path: Seq<usize>,
)
    requires
        entry.has_path(path),
    ensures
        entry.records().contains(entry.record_at(path)),
    decreases entry,
{
    match entry {
        Entry::Leaf { children } => {
            assert(children@[path[0] as int] == entry.record_at(path));
        },
        Entry::NonLeaf { children, .. } => {
            let k = path.last() as int;
            let child = children@[k];
            let target = child.1.record_at(path.drop_last());
            lemma_record_at_is_held(child.1, path.drop_last());
            let j = choose|j: int| 0 <= j < child.1.records().len() && child.1.records()[j] == target;
            lemma_records_of_split(children@, k);
            let before = ChildRecord::records_of(children@.take(k));
            assert(entry.records()[before.len() + j] == target);
        },
    }
}

/// Records with different identifiers are different records.
pub proof fn lemma_unique_ids_no_duplicates<T: Coordinate, O: ObjectId>(tree: RTree<T, O>)
    requires
        tree.ids_are_unique(),
    ensures
        tree.records().no_duplicates(),
{
    let records = tree.records();
    assert forall|i: int, j: int| 0 <= i < records.len() && 0 <= j < records.len() && i
        != j implies records[i] != records[j] by {
        if i < j {
            assert(records[i].1 != records[j].1);
        } else {
            assert(records[j].1 != records[i].1);
        }
    }
}

/// Deletion correctness: where identifiers are unique, after a deletion that
/// found its record no search, by area or by point, returns the identifier of
/// that record again, and a second deletion with that identifier finds
/// nothing and leaves the tree as the first left it. Identifiers stay unique.
pub proof fn lemma_deleted_is_absent<T: Coordinate, O: ObjectId>(
    before: RTree<T, O>,
    after: RTree<T, O>,
    to_delete: ObjectRecord<T, O>,
    area: Rectangle<T>,
)
    requires
        before.ids_are_unique(),
        before.spec_find(to_delete) is Some,
        after@ == before@.remove(before.spec_find(to_delete)->Some_0),
    ensures
        !hits(after.records(), area).contains(to_delete.1),
        forall|point: Point<T>|
            !(#[trigger] hits(after.records(), Rectangle::spec_at(point))).contains(to_delete.1),
        after.spec_find(to_delete) is None,
        forall|again: RTree<T, O>, found: bool| #[trigger]
            after.deletes(to_delete, again, found) ==> !found && again == after,
        after.ids_are_unique(),
        forall|i: int| 0 <= i < after.records().len() ==> (#[trigger] after.records()[i]).1
            != to_delete.1,
{
    broadcast use vstd::seq_lib::group_to_multiset_ensures;

    let id = to_delete.1;
    let target = before.spec_find(to_delete)->Some_0;
    let old_records = before.records();
    let new_records = after.records();
    let root = before.root->Some_0;
    lemma_located(root, to_delete.0, id);
    lemma_record_at_is_held(root, root.spec_locate(to_delete.0, id)->Some_0);
    assert(old_records.contains(target));
    let at = choose|i: int| 0 <= i < old_records.len() && old_records[i] == target;
    lemma_unique_ids_no_duplicates(before);
    old_records.lemma_multiset_has_no_duplicates();
    assert(before@.count(target) == 1);
    assert forall|x: ObjectRecord<T, O>| after@.contains(x) implies after@.count(x) == 1
        && old_records.contains(x) && x.1 != id by {
        assert(after@.count(x) <= before@.count(x));
        assert(before@.contains(x));
        assert(x != target);
        let i = choose|i: int| 0 <= i < old_records.len() && old_records[i] == x;
        if i < at {
            assert(old_records[i].1 != old_records[at].1);
        } else {
            assert(old_records[at].1 != old_records[i].1);
        }
    }
    assert forall|i: int| 0 <= i < new_records.len() implies (#[trigger] new_records[i]).1
        != id by {
        assert(new_records.contains(new_records[i]));
        assert(after@.contains(new_records[i]));
    }
    lemma_hits_are_records(new_records, area, id);
    assert forall|point: Point<T>|
        !(#[trigger] hits(new_records, Rectangle::spec_at(point))).contains(id) by {
        lemma_hits_are_records(new_records, Rectangle::spec_at(point), id);
    }
    if after.spec_find(to_delete) is Some {
        let new_root = after.root->Some_0;
        lemma_located(new_root, to_delete.0, id);
        let path = new_root.spec_locate(to_delete.0, id)->Some_0;
        lemma_record_at_is_held(new_root, path);
        let found = new_root.record_at(path);
        let j = choose|j: int| 0 <= j < new_records.len() && new_records[j] == found;
        assert(new_records[j].1 != id);
    }
    new_records.lemma_multiset_has_no_duplicates_conv();
    assert forall|i: int, j: int| 0 <= i < j < new_records.len() implies (
    #[trigger] new_records[i]).1 != (#[trigger] new_records[j]).1 by {
        let x = new_records[i];
        let y = new_records[j];
        assert(new_records.contains(x));
        assert(new_records.contains(y));
        assert(after@.contains(x));
        assert(after@.contains(y));
        let a = choose|a: int| 0 <= a < old_records.len() && old_records[a] == x;
        let b = choose|b: int| 0 <= b < old_records.len() && old_records[b] == y;
        assert(x != y);
        if a < b {
            assert(old_records[a].1 != old_records[b].1);
        } else if b < a {
            assert(old_records[b].1 != old_records[a].1);
        }
    }
}

/////////////////
// TRUE BOXES //
/////////////////
impl<T: Coordinate, O: ObjectId> Entry<T, O> {
    /// Every rectangle cached for a child, at any depth, is the true bounding
    /// box of the subtree of that child.
    pub open spec fn boxes_are_true(self) -> bool
        decreases self,
    {
        match self {
            Entry::Leaf { .. } => true,
            Entry::NonLeaf { children, .. } => forall|i: int|
                0 <= i < children@.len() ==> {
                    &&& (#[trigger] children@[i]).0 == children@[i].1.true_mbb()
                    &&& children@[i].1.boxes_are_true()
                },
        }
    }

    /// Every node below this one holds at least `least` and at most `most`
    /// entries.
    pub open spec fn fanout_within(self, least: nat, most: nat) -> bool
        decreases self,
    {
        match self {
            Entry::Leaf { .. } => true,
            Entry::NonLeaf { children, .. } => forall|i: int|
                0 <= i < children@.len() ==> {
                    &&& least <= (#[trigger] children@[i]).1.spec_len() <= most
                    &&& children@[i].1.fanout_within(least, most)
                },
        }
    }
}

/// The true boxes of a run of children, one by one.
pub proof fn lemma_true_mbbs_of<T: Coordinate, O: ObjectId>(children: Seq<ChildRecord<T, O>>)
    ensures
        Entry::true_mbbs_of(children).len() == children.len(),
        forall|i: int|
            0 <= i < children.len() ==> Entry::true_mbbs_of(children)[i] == (
            #[trigger] children[i]).1.true_mbb(),
    decreases children.len(),
{
    if children.len() > 0 {
        lemma_true_mbbs_of(children.drop_last());
        assert forall|i: int| 0 <= i < children.len() implies Entry::true_mbbs_of(children)[i] == (
        #[trigger] children[i]).1.true_mbb() by {
            if i < children.len() - 1 {
                assert(children.drop_last()[i] == children[i]);
            }
        }
    }
}

/// Where boxes are exact, the box of a node is its true bounding box, and so
/// is every box cached below it.
pub proof fn lemma_exact_boxes_are_true<T: Coordinate, O: ObjectId>(entry: Entry<T, O>)
    requires
        entry.boxes_are_exact(),
    ensures
        entry.spec_mbb() == entry.true_mbb(),
        entry.boxes_are_true(),
    decreases entry,
{
    match entry {
        Entry::Leaf { .. } => {},
        Entry::NonLeaf { children, .. } => {
            lemma_true_mbbs_of(children@);
            assert forall|i: int| 0 <= i < children@.len() implies {
                &&& (#[trigger] children@[i]).0 == children@[i].1.true_mbb()
                &&& children@[i].1.boxes_are_true()
            } by {
                lemma_exact_boxes_are_true(children@[i].1);
            }
            assert(entry.rectangles() =~= Entry::true_mbbs_of(children@));
        },
    }
}

/// The cached boxes are the true ones: in a well-formed tree every rectangle
/// cached for a child is the bounding box of the subtree of that child, as
/// merging the rectangles of its records level by level computes it.
pub proof fn lemma_cached_boxes_are_true<T: Coordinate, O: ObjectId>(tree: RTree<T, O>)
    requires
        tree.well_formed(),
    ensures
        tree.root matches Some(root) ==> root.boxes_are_true(),
{
    if let Some(root) = tree.root {
        lemma_well_formed_boxes(root, tree.config);
        lemma_exact_boxes_are_true(root);
    }
}

////////////
// FANOUT //
////////////
/// Below a well-formed node every node holds at least the floor of the
/// configuration and at most its maximum.
pub proof fn lemma_fanout_below<T: Coordinate, O: ObjectId>(entry: Entry<T, O>, config: Config)
    requires
        entry.well_formed(config),
    ensures
        entry.fanout_within(config.spec_node_floor(), config.maximum_entries_per_node as nat),
    decreases entry,
{
    match entry {
        Entry::Leaf { .. } => {},
        Entry::NonLeaf { children, .. } => {
            assert forall|i: int| 0 <= i < children@.len() implies {
                &&& config.spec_node_floor() <= (#[trigger] children@[i]).1.spec_len()
                    <= config.maximum_entries_per_node
                &&& children@[i].1.fanout_within(
                    config.spec_node_floor(),
                    config.maximum_entries_per_node as nat,
                )
            } by {
                assert(children@[i].well_formed(config));
                lemma_fanout_below(children@[i].1, config);
            }
        },
    }
}

/// The fanout of a well-formed tree: every node but the root holds at least
/// `spec_node_floor` entries and at most the maximum, and the root at most the
/// maximum. Where the maximum is not exactly twice the minimum, the floor is
/// the minimum.
pub proof fn lemma_fanout<T: Coordinate, O: ObjectId>(tree: RTree<T, O>)
    requires
        tree.well_formed(),
    ensures
        tree.root matches Some(root) ==> {
            &&& root.fanout_within(
                tree.config.spec_node_floor(),
                tree.config.maximum_entries_per_node as nat,
            )
            &&& root.spec_len() <= tree.config.maximum_entries_per_node
        },
        2 * tree.config.minimum_entries_per_node != tree.config.maximum_entries_per_node
            ==> tree.config.spec_node_floor() == tree.config.minimum_entries_per_node,
{
    if let Some(root) = tree.root {
        lemma_fanout_below(root, tree.config);
    }
}

////////////
// HEIGHT //
////////////
/// A well-formed node holds at least as many records as it has entries.
pub proof fn lemma_records_at_least_entries<T: Coordinate, O: ObjectId>(
    entry: Entry<T, O>,
    config: Config,
)
    requires
        config.valid(),
        entry.well_formed(config),
    ensures
        entry.records().len() >= entry.spec_len(),
    decreases entry, 1nat,
{
    match entry {
        Entry::Leaf { .. } => {},
        Entry::NonLeaf { children, .. } => {
            lemma_records_of_at_least(children@, config);
        },
    }
}

/// A run of well-formed children holds at least as many records as the
/// children have entries, and at least one for each child.
pub proof fn lemma_records_of_at_least<T: Coordinate, O: ObjectId>(
    children: Seq<ChildRecord<T, O>>,
    config: Config,
)
    requires
        config.valid(),
        forall|i: int| 0 <= i < children.len() ==> (#[trigger] children[i]).well_formed(config),
    ensures
        ChildRecord::records_of(children).len() >= children.len(),
        forall|i: int|
            0 <= i < children.len() ==> ChildRecord::records_of(children).len() >= children.len()
                - 1 + (#[trigger] children[i]).1.spec_len(),
    decreases children, 0nat,
{
    if children.len() > 0 {
        let init = children.drop_last();
        let last = children.last();
        assert forall|i: int| 0 <= i < init.len() implies (#[trigger] init[i]).well_formed(
            config,
        ) by {
            assert(init[i] == children[i]);
        }
        lemma_records_of_at_least(init, config);
        assert(children[children.len() - 1] == last);
        lemma_records_at_least_entries(last.1, config);
        assert forall|i: int| 0 <= i < children.len() implies ChildRecord::records_of(
            children,
        ).len() >= children.len() - 1 + (#[trigger] children[i]).1.spec_len() by {
            if i < init.len() {
                assert(init[i] == children[i]);
            }
        }
    }
}

/// Height shrink: a well-formed tree without records has no root, and one
/// with a single record is a single leaf, unless the floor of its
/// configuration is 1.
pub proof fn lemma_few_records<T: Coordinate, O: ObjectId>(tree: RTree<T, O>)
    requires
        tree.well_formed(),
    ensures
        tree@.len() == 0 ==> tree.root is None,
        tree@.len() == 1 && tree.config.spec_node_floor() >= 2 ==> (tree.root matches Some(
            Entry::Leaf { children },
        ) && children@ == tree.records()),
{
    broadcast use vstd::seq_lib::group_to_multiset_ensures;

    if let Some(root) = tree.root {
        lemma_records_at_least_entries(root, tree.config);
        if tree.config.spec_node_floor() >= 2 {
            match root {
                Entry::Leaf { .. } => {},
                Entry::NonLeaf { children, .. } => {
                    assert(children@[0].well_formed(tree.config));
                    lemma_records_of_at_least(children@, tree.config);
                },
            }
        }
    }
}

} // verus!
