//! Insertion: choosing a subtree, descending, and splitting nodes that
//! overflow.

use crate::geometry2d::{
    lemma_area_within_limit, lemma_merge_within_limit, Coordinate, Rectangle, Spacial,
};
use crate::r_tree::bounding::{
    lemma_box_within_limit, lemma_mbb_after_growth, lemma_mbb_after_push, lemma_mbb_after_split,
};
use crate::r_tree::content::{
    lemma_cancel, lemma_content_after_remove, lemma_content_after_update, lemma_empty_content,
    lemma_records_of_push, lemma_records_of_single, lemma_single_content,
};
use crate::r_tree::laws::{lemma_cached_boxes_are_true, lemma_fanout, lemma_inserted_is_found};
use crate::r_tree::query::hits;
use crate::r_tree::{
    ChildRecord, Config, Entry, InsertionResult, ObjectId, ObjectRecord, Orphan, RTree,
};
use vstd::prelude::*;

pub mod dimensions;
pub mod split;

verus! {

/////////////////////
// CHOOSING A CHILD //
/////////////////////
/// By how much the area of `held` grows when `added` is merged into it.
pub open spec fn enlargement<T: Coordinate>(held: Rectangle<T>, added: Rectangle<T>) -> int {
    held.spec_merge(added).spec_area() - held.spec_area()
}

/// `a` takes `added` in at less cost than `b`: it grows by less, or by as much
/// and to a smaller area.
pub open spec fn fits_better<T: Coordinate>(
    a: Rectangle<T>,
    b: Rectangle<T>,
    added: Rectangle<T>,
) -> bool {
    ||| enlargement(a, added) < enlargement(b, added)
    ||| (enlargement(a, added) == enlargement(b, added) && a.spec_merge(added).spec_area()
        < b.spec_merge(added).spec_area())
}

/// Child `best` is the first of those that take `added` in at the least cost.
pub open spec fn is_least_enlargement<T: Coordinate, O: ObjectId>(
    children: Seq<ChildRecord<T, O>>,
    added: Rectangle<T>,
    best: int,
) -> bool {
    &&& 0 <= best < children.len()
    &&& forall|j: int|
        0 <= j < children.len() ==> !fits_better((#[trigger] children[j]).0, children[best].0, added)
    &&& forall|j: int|
        0 <= j < best ==> fits_better(children[best].0, (#[trigger] children[j]).0, added)
}

/// The child into which an entry with the box `added` descends, and the box of
/// that child merged with `added`.
pub fn choose_subtree<T: Coordinate, O: ObjectId>(
    children: &Vec<ChildRecord<T, O>>,
    added: &Rectangle<T>,
) -> (choice: (usize, Rectangle<T>))
    requires
        children.len() > 0,
        added.within_limit(),
        forall|i: int| 0 <= i < children.len() ==> (#[trigger] children@[i]).0.within_limit(),
    ensures
        is_least_enlargement(children@, *added, choice.0 as int),
        choice.1 == children@[choice.0 as int].0.spec_merge(*added),
{
    proof {
        lemma_area_bounds(children@[0].0, *added);
    }
    let mut best_candidate: usize = 0;
    let mut best_mbb = children[best_candidate].0.merge(added);
    let mut best_diff = best_mbb.area().minus(children[best_candidate].0.area());
    let mut candidate: usize = 0;
    while candidate < children.len()
        invariant
            candidate <= children.len(),
            best_candidate < children.len(),
            best_candidate <= candidate,
            added.within_limit(),
            forall|i: int| 0 <= i < children.len() ==> (#[trigger] children@[i]).0.within_limit(),
            best_mbb == children@[best_candidate as int].0.spec_merge(*added),
            best_diff.value() == enlargement(children@[best_candidate as int].0, *added),
            forall|j: int|
                0 <= j < candidate ==> !fits_better(
                    (#[trigger] children@[j]).0,
                    children@[best_candidate as int].0,
                    *added,
                ),
            forall|j: int|
                0 <= j < best_candidate ==> fits_better(
                    children@[best_candidate as int].0,
                    (#[trigger] children@[j]).0,
                    *added,
                ),
        decreases children.len() - candidate,
    {
        let child = &children[candidate];
        proof {
            lemma_area_bounds(child.0, *added);
            lemma_area_bounds(children@[best_candidate as int].0, *added);
        }
        let test_mbb = child.0.merge(added);
        let test_diff = test_mbb.area().minus(child.0.area());
        if test_diff.less_than(best_diff) || (test_diff.equals(best_diff) && test_mbb.area().less_than(
            best_mbb.area(),
        )) {
            best_mbb = test_mbb;
            best_diff = test_diff;
            best_candidate = candidate;
        }
        candidate += 1;
    }
    (best_candidate, best_mbb)
}

/// Within the limit, the areas that choosing a child computes fit the
/// coordinate type, and so does their difference.
pub proof fn lemma_area_bounds<T: Coordinate>(held: Rectangle<T>, added: Rectangle<T>)
    requires
        held.within_limit(),
        added.within_limit(),
    ensures
        held.area_fits(),
        held.spec_merge(added).area_fits(),
        held.spec_merge(added).within_limit(),
        T::holds(enlargement(held, added)),
{
    lemma_merge_within_limit(held, added);
    lemma_area_within_limit(held);
    lemma_area_within_limit(held.spec_merge(added));
    let square = T::limit() * T::limit();
    let before = held.spec_area();
    let after = held.spec_merge(added).spec_area();
    assert(-4 * square <= before <= 4 * square);
    assert(-4 * square <= after <= 4 * square);
    assert(enlargement(held, added) == after - before);
    assert(-8 * square <= after - before <= 8 * square) by (nonlinear_arith)
        requires
            -4 * square <= before <= 4 * square,
            -4 * square <= after <= 4 * square,
    ;
    T::limit_is_safe(enlargement(held, added));
}

////////////
// INSERT //
////////////
/// A leaf that has taken one more record.
pub proof fn lemma_leaf_grown<T: Coordinate, O: ObjectId>(
    before: Entry<T, O>,
    after: Entry<T, O>,
    record: ObjectRecord<T, O>,
    config: Config,
)
    requires
        before.well_formed(config),
        before.spec_len() >= 1,
        record.0.within_limit(),
        before matches Entry::Leaf { children: b },
        after matches Entry::Leaf { children: a },
        after->Leaf_children@ == before->Leaf_children@.push(record),
    ensures
        after.well_formed(config),
        after.spec_len() == before.spec_len() + 1,
        after.records().to_multiset() == before.records().to_multiset().add(
            seq![record].to_multiset(),
        ),
        after.spec_mbb() == before.spec_mbb().spec_merge(record.0),
{
    broadcast use vstd::seq_lib::group_to_multiset_ensures;

    lemma_single_content(record);
    assert(after.records().to_multiset() =~= before.records().to_multiset().add(
        seq![record].to_multiset(),
    ));
    assert(after.rectangles() =~= before.rectangles().push(record.0));
    lemma_mbb_after_push(before.rectangles(), record.0);
}

/// A node that has taken one more child.
pub proof fn lemma_child_added<T: Coordinate, O: ObjectId>(
    before: Entry<T, O>,
    after: Entry<T, O>,
    child: ChildRecord<T, O>,
    config: Config,
)
    requires
        before.well_formed(config),
        before.spec_len() >= 1,
        child.well_formed(config),
        child.1.spec_level() + 1 == before.spec_level(),
        before matches Entry::NonLeaf { level: bl, children: b },
        after matches Entry::NonLeaf { level: al, children: a },
        after->NonLeaf_level == before->NonLeaf_level,
        after->NonLeaf_children@ == before->NonLeaf_children@.push(child),
    ensures
        after.well_formed(config),
        after.spec_len() == before.spec_len() + 1,
        after.records().to_multiset() == before.records().to_multiset().add(
            child.1.records().to_multiset(),
        ),
        after.spec_mbb() == before.spec_mbb().spec_merge(child.0),
{
    let b = before->NonLeaf_children@;
    let a = after->NonLeaf_children@;
    assert forall|i: int| 0 <= i < a.len() implies {
        &&& (#[trigger] a[i]).1.spec_level() + 1 == after->NonLeaf_level
        &&& a[i].well_formed(config)
    } by {
        if i < b.len() {
            assert(a[i] == b[i]);
        }
    }
    lemma_records_of_push(b, child);
    assert(after.rectangles() =~= before.rectangles().push(child.0));
    lemma_mbb_after_push(before.rectangles(), child.0);
}

/// A node one of whose children has taken an entry in without splitting.
pub proof fn lemma_child_grown<T: Coordinate, O: ObjectId>(
    before: Entry<T, O>,
    after: Entry<T, O>,
    best: int,
    added: Rectangle<T>,
    extra: vstd::multiset::Multiset<ObjectRecord<T, O>>,
    config: Config,
)
    requires
        config.valid(),
        before.well_formed(config),
        added.within_limit(),
        before matches Entry::NonLeaf { level: bl, children: b },
        after matches Entry::NonLeaf { level: al, children: a },
        after->NonLeaf_level == before->NonLeaf_level,
        0 <= best < before.spec_len(),
        after->NonLeaf_children@.len() == before.spec_len(),
        forall|i: int|
            0 <= i < before.spec_len() && i != best ==> after->NonLeaf_children@[i]
                == before->NonLeaf_children@[i],
        ({
            let old_child = before->NonLeaf_children@[best];
            let new_child = after->NonLeaf_children@[best];
            &&& new_child.0 == old_child.0.spec_merge(added)
            &&& new_child.1.well_formed(config)
            &&& new_child.1.spec_level() == old_child.1.spec_level()
            &&& old_child.1.spec_len() <= new_child.1.spec_len() <= config.maximum_entries_per_node
            &&& new_child.1.spec_mbb() == old_child.1.spec_mbb().spec_merge(added)
            &&& new_child.1.records().to_multiset() == old_child.1.records().to_multiset().add(
                extra,
            )
        }),
    ensures
        after.well_formed(config),
        after.spec_len() == before.spec_len(),
        after.records().to_multiset() == before.records().to_multiset().add(extra),
        after.spec_mbb() == before.spec_mbb().spec_merge(added),
{
    let b = before->NonLeaf_children@;
    let a = after->NonLeaf_children@;
    assert(b[best].well_formed(config));
    lemma_merge_within_limit(b[best].0, added);
    assert forall|i: int| 0 <= i < a.len() implies {
        &&& (#[trigger] a[i]).1.spec_level() + 1 == after->NonLeaf_level
        &&& a[i].well_formed(config)
    } by {
        if i != best {
            assert(a[i] == b[i]);
        }
    }
    assert(a =~= b.update(best, a[best]));
    lemma_content_after_update(b, best, a[best]);
    let shared = b[best].1.records().to_multiset();
    assert(before.records().to_multiset().add(shared.add(extra)) =~= before.records().to_multiset().add(
        extra,
    ).add(shared));
    lemma_cancel(
        after.records().to_multiset(),
        shared,
        before.records().to_multiset().add(extra),
    );
    assert(after.rectangles() =~= before.rectangles().update(
        best,
        before.rectangles()[best].spec_merge(added),
    ));
    lemma_mbb_after_growth(before.rectangles(), best, added);
}

/// A node one of whose children has taken an entry in and split in two.
pub proof fn lemma_child_split<T: Coordinate, O: ObjectId>(
    before: Entry<T, O>,
    after: Entry<T, O>,
    best: int,
    left: ChildRecord<T, O>,
    right: ChildRecord<T, O>,
    added: Rectangle<T>,
    extra: vstd::multiset::Multiset<ObjectRecord<T, O>>,
    config: Config,
)
    requires
        config.valid(),
        before.well_formed(config),
        added.within_limit(),
        before matches Entry::NonLeaf { level: bl, children: b },
        after matches Entry::NonLeaf { level: al, children: a },
        after->NonLeaf_level == before->NonLeaf_level,
        0 <= best < before.spec_len(),
        after->NonLeaf_children@ == before->NonLeaf_children@.remove(best).push(left).push(right),
        left.well_formed(config),
        right.well_formed(config),
        left.1.spec_level() == before->NonLeaf_children@[best].1.spec_level(),
        right.1.spec_level() == before->NonLeaf_children@[best].1.spec_level(),
        left.1.records().to_multiset().add(right.1.records().to_multiset())
            == before->NonLeaf_children@[best].1.records().to_multiset().add(extra),
        left.0.spec_merge(right.0) == before->NonLeaf_children@[best].0.spec_merge(added),
    ensures
        after.well_formed(config),
        after.spec_len() == before.spec_len() + 1,
        after.records().to_multiset() == before.records().to_multiset().add(extra),
        after.spec_mbb() == before.spec_mbb().spec_merge(added),
{
    let b = before->NonLeaf_children@;
    let a = after->NonLeaf_children@;
    let n = b.len() as int;
    assert(b[best].well_formed(config));
    assert forall|i: int| 0 <= i < a.len() implies {
        &&& (#[trigger] a[i]).1.spec_level() + 1 == after->NonLeaf_level
        &&& a[i].well_formed(config)
    } by {
        if i < best {
            assert(a[i] == b[i]);
        } else if i < n - 1 {
            assert(a[i] == b[i + 1]);
        } else if i == n - 1 {
            assert(a[i] == left);
        } else {
            assert(a[i] == right);
        }
    }
    lemma_content_after_remove(b, best);
    lemma_records_of_push(b.remove(best), left);
    lemma_records_of_push(b.remove(best).push(left), right);
    let shared = b[best].1.records().to_multiset();
    let kept = ChildRecord::records_of(b.remove(best)).to_multiset();
    assert(after.records().to_multiset().add(shared) =~= kept.add(shared).add(
        left.1.records().to_multiset().add(right.1.records().to_multiset()),
    ));
    assert(before.records().to_multiset().add(extra).add(shared) =~= kept.add(shared).add(
        shared.add(extra),
    ));
    lemma_cancel(
        after.records().to_multiset(),
        shared,
        before.records().to_multiset().add(extra),
    );
    let grown = before.rectangles().update(best, before.rectangles()[best].spec_merge(added));
    assert(grown.len() == b.len());
    lemma_mbb_after_growth(before.rectangles(), best, added);
    lemma_mbb_after_split(grown, best, left.0, right.0);
    assert(after.rectangles() =~= grown.remove(best).push(left.0).push(right.0));
}

impl<T: Coordinate, O: ObjectId> Entry<T, O> {
    /// What inserting `record` below this node is to achieve: see `insert`.
    pub open spec fn is_insertion_of(
        self,
        record: Orphan<T, O>,
        after: Self,
        result: InsertionResult<T, O>,
        config: Config,
    ) -> bool {
        match result {
            InsertionResult::NoSplit => {
                &&& after.well_formed(config)
                &&& after.spec_level() == self.spec_level()
                &&& self.spec_len() <= after.spec_len() <= config.maximum_entries_per_node
                &&& after.records().to_multiset() == self.records().to_multiset().add(
                    record.records().to_multiset(),
                )
                &&& after.spec_mbb() == self.spec_mbb().spec_merge(record.spec_box())
            },
            InsertionResult::Split(left, right) => {
                &&& left.well_formed(config)
                &&& right.well_formed(config)
                &&& left.1.spec_level() == self.spec_level()
                &&& right.1.spec_level() == self.spec_level()
                &&& left.1.records().to_multiset().add(right.1.records().to_multiset())
                    == self.records().to_multiset().add(record.records().to_multiset())
                &&& left.0.spec_merge(right.0) == self.spec_mbb().spec_merge(record.spec_box())
            },
        }
    }

    /// `grown` is this node after it has taken the entry in, before it is seen
    /// whether it must split.
    ///
    /// A leaf takes a record in at its end, and so does an inner node a
    /// subtree of the level below its own. Anything else goes down from an
    /// inner node into the child of least enlargement: see `descends`.
    pub open spec fn grows_into(self, record: Orphan<T, O>, grown: Self, config: Config) -> bool
        decreases self, 1nat,
    {
        match (self, grown) {
            (Entry::Leaf { children }, Entry::Leaf { children: now }) => {
                record matches Orphan::Record(r) && now@ == children@.push(r)
            },
            (Entry::NonLeaf { level, children }, Entry::NonLeaf { level: same, children: now }) => {
                &&& same == level
                &&& if record.spec_rank() == level {
                    record matches Orphan::Subtree(c) && now@ == children@.push(c)
                } else {
                    exists|best: int|
                        (#[trigger] is_least_enlargement(children@, record.spec_box(), best))
                            && self.descends(now@, best, record, config)
                }
            },
            _ => false,
        }
    }

    /// The children `now` are those of this inner node after the entry has
    /// gone down into child `best`: either that child took it in whole and
    /// its cached box grew by the box of the entry, or the child split and
    /// its two halves stand at the end in its place. The other children are as
    /// they were.
    pub open spec fn descends(
        self,
        now: Seq<ChildRecord<T, O>>,
        best: int,
        record: Orphan<T, O>,
        config: Config,
    ) -> bool
        decreases self, 0nat,
    {
        match self {
            Entry::NonLeaf { children, .. } => {
                &&& 0 <= best < children@.len()
                &&& if now.len() == children@.len() {
                    &&& now[best].0 == children@[best].0.spec_merge(record.spec_box())
                    &&& forall|i: int|
                        0 <= i < children@.len() && i != best ==> now[i] == children@[i]
                    &&& children@[best].1.takes_in_whole(record, now[best].1, config)
                } else {
                    &&& now.len() == children@.len() + 1
                    &&& now.take(children@.len() - 1) == children@.remove(best)
                    &&& children@[best].1.takes_in_split(
                        record,
                        now[children@.len() - 1],
                        now[children@.len() as int],
                        config,
                    )
                }
            },
            Entry::Leaf { .. } => false,
        }
    }

    /// This node takes the entry in and, not holding more than the maximum
    /// then, is `after`.
    pub open spec fn takes_in_whole(self, record: Orphan<T, O>, after: Self, config: Config) -> bool
        decreases self, 2nat,
    {
        self.grows_into(record, after, config) && after.spec_len()
            <= config.maximum_entries_per_node
    }

    /// This node takes the entry in and, holding more than the maximum then,
    /// splits into `left` and `right`.
    pub open spec fn takes_in_split(
        self,
        record: Orphan<T, O>,
        left: ChildRecord<T, O>,
        right: ChildRecord<T, O>,
        config: Config,
    ) -> bool
        decreases self, 2nat,
    {
        exists|grown: Self|
            self.grows_into(record, grown, config) && (#[trigger] grown.spec_len())
                > config.maximum_entries_per_node && grown.splits_into(left, right)
    }

    /// Puts a record, or a subtree, into the subtree below this node.
    ///
    /// A record goes into a leaf; a subtree goes into a node one level above
    /// its own. On the way down, the child whose box grows least takes the
    /// entry (`choose_subtree`), and its cached box grows to hold it. A node
    /// that ends with more entries than the maximum splits (`try_split`): it
    /// then returns its two halves for its parent to hold in its place.
    pub fn insert(&mut self, config: &Config, record: Orphan<T, O>) -> (result: InsertionResult<
        T,
        O,
    >)
        requires
            config.valid(),
            old(self).well_formed(*config),
            1 <= old(self).spec_len() <= config.maximum_entries_per_node,
            record.well_formed(*config),
            record.spec_rank() <= old(self).spec_level(),
        ensures
            old(self).is_insertion_of(record, *final(self), result, *config),
            match result {
                InsertionResult::NoSplit => old(self).takes_in_whole(record, *final(self), *config),
                InsertionResult::Split(left, right) => old(self).takes_in_split(
                    record,
                    left,
                    right,
                    *config,
                ) && final(self).is_emptied(*old(self)),
            },
        decreases *old(self),
    {
        let ghost before = *self;
        let ghost orphan = record;
        let ghost added = record.spec_box();
        let ghost extra = record.records().to_multiset();
        match self {
            Entry::Leaf { children } => {
                match record {
                    Orphan::Record(record) => {
                        children.push(record);
                        let ghost grown = *self;
                        proof {
                            lemma_leaf_grown(before, grown, record, *config);
                            assert(before.grows_into(orphan, grown, *config));
                        }
                        let result = self.try_split(config);
                        proof {
                            if result is NoSplit {
                                assert(before.takes_in_whole(orphan, *self, *config));
                            } else {
                                assert(before.grows_into(orphan, grown, *config)
                                    && grown.spec_len() > config.maximum_entries_per_node
                                    && grown.splits_into(result->Split_0, result->Split_1));
                                assert(before.takes_in_split(
                                    orphan,
                                    result->Split_0,
                                    result->Split_1,
                                    *config,
                                ));
                            }
                        }
                        result
                    },
                    Orphan::Subtree(_) => {
                        proof {
                            assert(false);
                        }
                        unreached()
                    },
                }
            },
            Entry::NonLeaf { children, level } => {
                let sink = match &record {
                    Orphan::Record(_) => true,
                    Orphan::Subtree(ChildRecord(_, child)) => child.level() + 1 != *level,
                };

                if sink {
                    // insert into subtree
                    proof {
                        assert forall|i: int| 0 <= i < children.len() implies (
                        #[trigger] children@[i]).0.within_limit() by {
                            assert(children@[i].well_formed(*config));
                        }
                    }
                    let (best_candidate, best_mbb) = choose_subtree(children, &record.mbb());
                    assert(children@[best_candidate as int].well_formed(*config));
                    let candidate = &mut children[best_candidate];
                    candidate.0 = best_mbb;
                    match candidate.1.insert(config, record) {
                        InsertionResult::NoSplit => {
                            proof {
                                lemma_child_grown(
                                    before,
                                    *self,
                                    best_candidate as int,
                                    added,
                                    extra,
                                    *config,
                                );
                                assert(is_least_enlargement(
                                    before->NonLeaf_children@,
                                    added,
                                    best_candidate as int,
                                ));
                                assert(before.descends(
                                    self->NonLeaf_children@,
                                    best_candidate as int,
                                    orphan,
                                    *config,
                                ));
                                assert(before.grows_into(orphan, *self, *config));
                                assert(before.takes_in_whole(orphan, *self, *config));
                            }
                            InsertionResult::NoSplit
                        },
                        InsertionResult::Split(left, right) => {
                            children.remove(best_candidate);
                            children.push(left);
                            children.push(right);
                            assert(children@ =~= before->NonLeaf_children@.remove(
                                best_candidate as int,
                            ).push(left).push(right));
                            assert(children@.take(before->NonLeaf_children@.len() - 1)
                                =~= before->NonLeaf_children@.remove(best_candidate as int));
                            let ghost grown = *self;
                            assert(before.descends(
                                grown->NonLeaf_children@,
                                best_candidate as int,
                                orphan,
                                *config,
                            ));
                            assert(before.grows_into(orphan, grown, *config));
                            proof {
                                lemma_child_split(
                                    before,
                                    grown,
                                    best_candidate as int,
                                    left,
                                    right,
                                    added,
                                    extra,
                                    *config,
                                );
                            }
                            let result = self.try_split(config);
                            proof {
                                if result is NoSplit {
                                    assert(before.takes_in_whole(orphan, *self, *config));
                                } else {
                                    assert(before.grows_into(orphan, grown, *config)
                                        && grown.spec_len() > config.maximum_entries_per_node
                                        && grown.splits_into(result->Split_0, result->Split_1));
                                    assert(before.takes_in_split(
                                        orphan,
                                        result->Split_0,
                                        result->Split_1,
                                        *config,
                                    ));
                                }
                            }
                            result
                        },
                    }
                } else {
                    // insert here
                    match record {
                        Orphan::Subtree(record) => {
                            children.push(record);
                            let ghost grown = *self;
                            proof {
                                lemma_child_added(before, grown, record, *config);
                                assert(before.grows_into(orphan, grown, *config));
                            }
                            let result = self.try_split(config);
                            proof {
                                if result is NoSplit {
                                    assert(before.takes_in_whole(orphan, *self, *config));
                                } else {
                                    assert(before.grows_into(orphan, grown, *config)
                                        && grown.spec_len() > config.maximum_entries_per_node
                                        && grown.splits_into(result->Split_0, result->Split_1));
                                    assert(before.takes_in_split(
                                        orphan,
                                        result->Split_0,
                                        result->Split_1,
                                        *config,
                                    ));
                                }
                            }
                            result
                        },
                        Orphan::Record(_) => {
                            proof {
                                assert(false);
                            }
                            unreached()
                        },
                    }
                }
            },
        }
    }
}


/// A new root above two children.
pub proof fn lemma_two_children<T: Coordinate, O: ObjectId>(
    root: Entry<T, O>,
    left: ChildRecord<T, O>,
    right: ChildRecord<T, O>,
    config: Config,
)
    requires
        left.well_formed(config),
        right.well_formed(config),
        root matches Entry::NonLeaf { level, children },
        root->NonLeaf_children@ == seq![left, right],
        root->NonLeaf_level == left.1.spec_level() + 1,
        root->NonLeaf_level == right.1.spec_level() + 1,
    ensures
        root.well_formed(config),
        root.spec_len() == 2,
        root.records().to_multiset() == left.1.records().to_multiset().add(
            right.1.records().to_multiset(),
        ),
{
    let children = root->NonLeaf_children@;
    assert(children[0] == left);
    assert(children[1] == right);
    assert(children =~= seq![left].push(right));
    lemma_records_of_single(left);
    lemma_records_of_push(seq![left], right);
}

impl<T: Coordinate, O: ObjectId> RTree<T, O> {
    /// The tree can take in an entry of this rank: it is empty, or the entry
    /// belongs at or below its root, or right beside a root that holds enough
    /// entries to become a child itself.
    pub open spec fn has_place_for(self, rank: nat) -> bool {
        match self.root {
            None => true,
            Some(root) => {
                &&& rank <= root.spec_level() + 1
                &&& root.spec_len() < self.config.spec_node_floor() ==> rank <= root.spec_level()
            },
        }
    }

    /// Adds a record to the tree.
    ///
    /// The first record of a tree becomes a leaf, which is the root. Later
    /// ones descend from the root (`Entry::insert`). Where the root splits, a
    /// new root takes its two halves as children, and the tree is one level
    /// higher.
    pub fn insert(&mut self, record: ObjectRecord<T, O>)
        requires
            old(self).well_formed(),
            record.0.within_limit(),
            old(self).spec_height() < usize::MAX,
        ensures
            final(self).well_formed(),
            old(self).places(Orphan::Record(record), *final(self)),
            final(self)@ == old(self)@.insert(record),
            final(self).config == old(self).config,
            final(self).root is Some,
            old(self).spec_height() <= final(self).spec_height() <= old(self).spec_height() + 1,
            final(self).root matches Some(root) && root.boxes_are_true() && root.fanout_within(
                old(self).config.spec_node_floor(),
                old(self).config.maximum_entries_per_node as nat,
            ),
            forall|area: Rectangle<T>|
                record.0.spec_intersects(area) ==> (#[trigger] hits(
                    final(self).records(),
                    area,
                )).contains(record.1),
    {
        let ghost before = *self;
        proof {
            lemma_single_content(record);
            assert(self@.add(seq![record].to_multiset()) =~= self@.insert(record));
        }
        self.place(Orphan::Record(record));
        proof {
            lemma_cached_boxes_are_true(*self);
            lemma_fanout(*self);
            assert forall|area: Rectangle<T>| record.0.spec_intersects(area) implies (
            #[trigger] hits(self.records(), area)).contains(record.1) by {
                lemma_inserted_is_found(before, *self, record, area);
            }
        }
    }

    /// `after` is this tree with the entry put into it: see `place`.
    pub open spec fn places(self, orphan: Orphan<T, O>, after: Self) -> bool {
        &&& after.config == self.config
        &&& match self.root {
            None => match orphan {
                Orphan::Record(record) => after.root matches Some(Entry::Leaf { children })
                    && children@ == seq![record],
                Orphan::Subtree(child) => after.root == Some(child.1),
            },
            Some(root) => if orphan.spec_rank() == root.spec_level() + 1 {
                &&& orphan matches Orphan::Subtree(child)
                &&& after.root matches Some(Entry::NonLeaf { level, children })
                &&& level == root.spec_level() + 1
                &&& children@ == seq![ChildRecord(root.spec_mbb(), root), child]
            } else {
                ||| (after.root matches Some(now) && root.takes_in_whole(orphan, now, self.config))
                ||| {
                    &&& after.root matches Some(Entry::NonLeaf { level, children })
                    &&& level == root.spec_level() + 1
                    &&& children@.len() == 2
                    &&& root.takes_in_split(orphan, children@[0], children@[1], self.config)
                }
            },
        }
    }

    /// Puts a record, or a subtree, into the tree.
    ///
    /// An empty tree takes the entry as its root: a record in a new leaf, a
    /// subtree as it is. A subtree as high as the root becomes its sibling
    /// under a new root. Anything else descends from the root
    /// (`Entry::insert`), and where the root splits, a new root takes its two
    /// halves.
    pub fn place(&mut self, orphan: Orphan<T, O>)
        requires
            old(self).well_formed(),
            orphan.well_formed(old(self).config),
            old(self).has_place_for(orphan.spec_rank()),
            old(self).spec_height() < usize::MAX,
        ensures
            final(self).well_formed(),
            old(self).places(orphan, *final(self)),
            final(self)@ == old(self)@.add(orphan.records().to_multiset()),
            final(self).config == old(self).config,
            final(self).root is Some,
            final(self).has_place_for(orphan.spec_rank()),
            old(self).spec_height() <= final(self).spec_height(),
            final(self).spec_height() <= old(self).spec_height() + 1
                || final(self).spec_height() == orphan.spec_rank(),
    {
        let config = self.config;
        let ghost before = *self;
        match self.root.take() {
            None => {
                proof {
                    lemma_empty_content::<ObjectRecord<T, O>>();
                    assert(before@.add(orphan.records().to_multiset())
                        =~= orphan.records().to_multiset());
                }
                match orphan {
                    Orphan::Record(record) => {
                        let children = vec![record];
                        assert(children@ =~= seq![record]);
                        self.root = Some(Entry::Leaf { children });
                    },
                    Orphan::Subtree(child) => {
                        self.root = Some(child.1);
                    },
                }
            },
            Some(mut root) => {
                let beside = match &orphan {
                    Orphan::Record(_) => false,
                    Orphan::Subtree(ChildRecord(_, child)) => child.level() == root.level(),
                };
                if beside {
                    match orphan {
                        Orphan::Subtree(child) => {
                            proof {
                                lemma_box_within_limit(root, config);
                            }
                            let level = root.level() + 1;
                            let sibling = ChildRecord::new(root);
                            let children = vec![sibling, child];
                            assert(children@ =~= seq![sibling, child]);
                            let grown = Entry::NonLeaf { level, children };
                            proof {
                                lemma_two_children(grown, sibling, child, config);
                            }
                            self.root = Some(grown);
                            },
                        Orphan::Record(_) => {
                            proof {
                                assert(false);
                            }
                            unreached()
                        },
                    }
                } else {
                    match root.insert(&config, orphan) {
                        InsertionResult::NoSplit => {
                            self.root = Some(root);
                            },
                        InsertionResult::Split(left, right) => {
                            let level = left.1.level() + 1;
                            let children = vec![left, right];
                            assert(children@ =~= seq![left, right]);
                            let grown = Entry::NonLeaf { level, children };
                            proof {
                                lemma_two_children(grown, left, right, config);
                            }
                            self.root = Some(grown);
                        },
                    }
                }
            },
        }
    }
}

} // verus!
