//! Search by area and by point.

use crate::geometry2d::{Coordinate, Point, Rectangle, Spacial};
use crate::r_tree::bounding::{covers, lemma_box_covers, lemma_well_formed_boxes};
use crate::r_tree::{ChildRecord, Entry, ObjectId, ObjectRecord, RTree};
use vstd::prelude::*;

verus! {

/// The identifiers of the records whose rectangle intersects `area`, in the
/// order of the records.
pub open spec fn hits<T: Coordinate, O: ObjectId>(
    records: Seq<ObjectRecord<T, O>>,
    area: Rectangle<T>,
) -> Seq<O> {
    records.filter(|r: ObjectRecord<T, O>| r.0.spec_intersects(area)).map_values(
        |r: ObjectRecord<T, O>| r.1,
    )
}

/// The hits among no records.
pub proof fn lemma_hits_empty<T: Coordinate, O: ObjectId>(area: Rectangle<T>)
    ensures
        hits(Seq::<ObjectRecord<T, O>>::empty(), area) == Seq::<O>::empty(),
{
    let none = Seq::<ObjectRecord<T, O>>::empty();
    let pred = |r: ObjectRecord<T, O>| r.0.spec_intersects(area);
    assert(none.filter(pred).len() <= 0) by {
        none.lemma_filter_len(pred);
    }
    assert(hits(none, area) =~= Seq::<O>::empty());
}

/// The hits of one more record.
pub proof fn lemma_hits_push<T: Coordinate, O: ObjectId>(
    records: Seq<ObjectRecord<T, O>>,
    record: ObjectRecord<T, O>,
    area: Rectangle<T>,
)
    ensures
        hits(records.push(record), area) == if record.0.spec_intersects(area) {
            hits(records, area).push(record.1)
        } else {
            hits(records, area)
        },
{
    let pred = |r: ObjectRecord<T, O>| r.0.spec_intersects(area);
    let pick = |r: ObjectRecord<T, O>| r.1;
    assert(records.push(record).drop_last() =~= records);
    reveal(Seq::filter);
    if record.0.spec_intersects(area) {
        assert(records.push(record).filter(pred) =~= records.filter(pred).push(record));
        assert(records.filter(pred).push(record).map_values(pick) =~= records.filter(
            pred,
        ).map_values(pick).push(record.1));
    } else {
        assert(records.push(record).filter(pred) =~= records.filter(pred));
    }
}

/// The hits of two runs of records, one after the other.
pub proof fn lemma_hits_concat<T: Coordinate, O: ObjectId>(
    a: Seq<ObjectRecord<T, O>>,
    b: Seq<ObjectRecord<T, O>>,
    area: Rectangle<T>,
)
    ensures
        hits(a + b, area) == hits(a, area) + hits(b, area),
{
    let pred = |r: ObjectRecord<T, O>| r.0.spec_intersects(area);
    let pick = |r: ObjectRecord<T, O>| r.1;
    Seq::filter_distributes_over_add(a, b, pred);
    assert((a.filter(pred) + b.filter(pred)).map_values(pick) =~= a.filter(pred).map_values(pick)
        + b.filter(pred).map_values(pick));
}

/// No record under a box that misses `area` is a hit.
pub proof fn lemma_no_hits_outside<T: Coordinate, O: ObjectId>(
    records: Seq<ObjectRecord<T, O>>,
    m: Rectangle<T>,
    area: Rectangle<T>,
)
    requires
        covers(m, records),
        !m.spec_intersects(area),
    ensures
        hits(records, area) == Seq::<O>::empty(),
    decreases records.len(),
{
    if records.len() == 0 {
        assert(records =~= Seq::empty());
        lemma_hits_empty::<T, O>(area);
    } else {
        let init = records.drop_last();
        assert forall|i: int| 0 <= i < init.len() implies m.spec_contains_rectangle(
            (#[trigger] init[i]).0,
        ) by {
            assert(init[i] == records[i]);
        }
        lemma_no_hits_outside(init, m, area);
        assert(records =~= init.push(records.last()));
        lemma_hits_push(init, records.last(), area);
        assert(m.spec_contains_rectangle(records[records.len() - 1].0));
    }
}

impl<T: Coordinate, O: ObjectId> RTree<T, O> {
    /// The identifiers of all records whose rectangle intersects `area`, in the
    /// order in which the tree holds the records.
    pub fn search_area(&self, area: &Rectangle<T>) -> (ids: Vec<O>)
        requires
            self.well_formed(),
        ensures
            ids@ == hits(self.records(), *area),
    {
        match &self.root {
            None => {
                proof {
                    lemma_hits_empty::<T, O>(*area);
                }
                vec![]
            },
            Some(root) => {
                proof {
                    lemma_well_formed_boxes(*root, self.config);
                }
                root.search(area)
            },
        }
    }

    /// The identifiers of all records whose rectangle contains `point`: a search
    /// of the area that is just that point.
    pub fn search_point(&self, point: &Point<T>) -> (ids: Vec<O>)
        requires
            self.well_formed(),
        ensures
            ids@ == hits(self.records(), Rectangle::spec_at(*point)),
    {
        match &self.root {
            None => {
                proof {
                    lemma_hits_empty::<T, O>(Rectangle::spec_at(*point));
                }
                vec![]
            },
            Some(root) => {
                proof {
                    lemma_well_formed_boxes(*root, self.config);
                }
                root.search(&Rectangle { low: *point, high: *point })
            },
        }
    }
}

impl<T: Coordinate, O: ObjectId> Entry<T, O> {
    /// The identifiers of all records below this node whose rectangle intersects
    /// `area`. Subtrees whose cached box misses `area` are passed over.
    pub fn search(&self, area: &Rectangle<T>) -> (ids: Vec<O>)
        requires
            self.boxes_are_exact(),
        ensures
            ids@ == hits(self.records(), *area),
        decreases self,
    {
        let mut ids: Vec<O> = Vec::new();
        proof {
            lemma_hits_empty::<T, O>(*area);
        }
        match self {
            Entry::Leaf { children } => {
                let mut i: usize = 0;
                assert(children@.take(0) =~= Seq::empty());
                while i < children.len()
                    invariant
                        i <= children.len(),
                        ids@ == hits(children@.take(i as int), *area),
                    decreases children.len() - i,
                {
                    proof {
                        assert(children@.take(i + 1) =~= children@.take(i as int).push(
                            children@[i as int],
                        ));
                        lemma_hits_push(children@.take(i as int), children@[i as int], *area);
                    }
                    if children[i].0.intersects(area) {
                        ids.push(children[i].1);
                    }
                    i += 1;
                }
                assert(children@.take(i as int) =~= children@);
            },
            Entry::NonLeaf { children, .. } => {
                let mut i: usize = 0;
                assert(children@.take(0) =~= Seq::empty());
                while i < children.len()
                    invariant
                        i <= children.len(),
                        self matches Entry::NonLeaf { children: c, .. } && c == children,
                        self.boxes_are_exact(),
                        ids@ == hits(ChildRecord::records_of(children@.take(i as int)), *area),
                    decreases children.len() - i,
                {
                    let child = &children[i];
                    proof {
                        let before = children@.take(i as int);
                        assert(children@.take(i + 1) =~= before.push(*child));
                        assert(before.push(*child).drop_last() =~= before);
                        lemma_hits_concat(
                            ChildRecord::records_of(before),
                            child.1.records(),
                            *area,
                        );
                        lemma_box_covers(child.1);
                    }
                    if child.0.intersects(area) {
                        let mut found = child.1.search(area);
                        ids.append(&mut found);
                    } else {
                        proof {
                            lemma_no_hits_outside(child.1.records(), child.0, *area);
                        }
                    }
                    i += 1;
                }
                assert(children@.take(i as int) =~= children@);
            },
        }
        ids
    }
}

} // verus!
