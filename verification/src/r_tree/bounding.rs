//! Bounding boxes: what the merge of a run of rectangles is, and why the
//! rectangle cached for a child covers every record below it.

use crate::geometry2d::{Coordinate, Rectangle, Spacial};
use crate::r_tree::{merge_all, ChildRecord, Config, Entry, ObjectId, ObjectRecord};
use vstd::prelude::*;

verus! {

/// One of the four sides of a rectangle as a number that grows as the
/// rectangle grows on that side: the low sides negated (0 and 1), the high
/// sides as they are (2 and 3).
pub open spec fn side<T: Coordinate>(r: Rectangle<T>, k: int) -> int {
    if k == 0 {
        -r.low.x.value()
    } else if k == 1 {
        -r.low.y.value()
    } else if k == 2 {
        r.high.x.value()
    } else {
        r.high.y.value()
    }
}

/// `m` contains every rectangle of `s`.
pub open spec fn encloses<T: Coordinate>(m: Rectangle<T>, s: Seq<Rectangle<T>>) -> bool {
    forall|i: int| 0 <= i < s.len() ==> m.spec_contains_rectangle(#[trigger] s[i])
}

/// Some rectangle of `s` reaches as far as `m` on side `k`.
pub open spec fn attains<T: Coordinate>(m: Rectangle<T>, s: Seq<Rectangle<T>>, k: int) -> bool {
    exists|i: int| 0 <= i < s.len() && side(#[trigger] s[i], k) == side(m, k)
}

/// `m` is the minimum bounding box of `s`: it contains every rectangle of `s`
/// and on each side some rectangle of `s` reaches as far.
pub open spec fn is_mbb_of<T: Coordinate>(m: Rectangle<T>, s: Seq<Rectangle<T>>) -> bool {
    &&& encloses(m, s)
    &&& forall|k: int| 0 <= k < 4 ==> #[trigger] attains(m, s, k)
}

/// Rectangles that agree on all four sides are the same rectangle.
pub proof fn lemma_equal_sides<T: Coordinate>(a: Rectangle<T>, b: Rectangle<T>)
    requires
        forall|k: int| 0 <= k < 4 ==> side(a, k) == side(b, k),
    ensures
        a == b,
{
    assert(side(a, 0) == side(b, 0));
    assert(side(a, 1) == side(b, 1));
    assert(side(a, 2) == side(b, 2));
    assert(side(a, 3) == side(b, 3));
    T::value_is_injective(a.low.x, b.low.x);
    T::value_is_injective(a.low.y, b.low.y);
    T::value_is_injective(a.high.x, b.high.x);
    T::value_is_injective(a.high.y, b.high.y);
}

/// Containment, side by side.
pub proof fn lemma_contains_by_sides<T: Coordinate>(a: Rectangle<T>, b: Rectangle<T>)
    ensures
        a.spec_contains_rectangle(b) <==> (forall|k: int| 0 <= k < 4 ==> side(a, k) >= side(b, k)),
{
    if forall|k: int| 0 <= k < 4 ==> side(a, k) >= side(b, k) {
        assert(side(a, 0) >= side(b, 0));
        assert(side(a, 1) >= side(b, 1));
        assert(side(a, 2) >= side(b, 2));
        assert(side(a, 3) >= side(b, 3));
    }
}

/// A merge reaches on each side as far as the farther of its two parts.
pub proof fn lemma_merge_sides<T: Coordinate>(a: Rectangle<T>, b: Rectangle<T>, k: int)
    requires
        0 <= k < 4,
    ensures
        side(a.spec_merge(b), k) == if side(a, k) >= side(b, k) {
            side(a, k)
        } else {
            side(b, k)
        },
{
}

/// The merge of a run of rectangles is its minimum bounding box.
pub proof fn lemma_merge_all_is_mbb<T: Coordinate>(s: Seq<Rectangle<T>>)
    requires
        s.len() > 0,
    ensures
        is_mbb_of(merge_all(s), s),
    decreases s.len(),
{
    let m = merge_all(s);
    if s.len() == 1 {
        assert forall|k: int| 0 <= k < 4 implies #[trigger] attains(m, s, k) by {
            assert(side(s[0], k) == side(m, k));
        }
    } else {
        let init = s.drop_last();
        let before = merge_all(init);
        lemma_merge_all_is_mbb(init);
        assert forall|i: int| 0 <= i < s.len() implies m.spec_contains_rectangle(
            #[trigger] s[i],
        ) by {
            if i < init.len() {
                assert(before.spec_contains_rectangle(init[i]));
            }
        }
        assert forall|k: int| 0 <= k < 4 implies #[trigger] attains(m, s, k) by {
            lemma_merge_sides(before, s.last(), k);
            if side(before, k) >= side(s.last(), k) {
                assert(attains(before, init, k));
                let i = choose|i: int| 0 <= i < init.len() && side(#[trigger] init[i], k) == side(
                    before,
                    k,
                );
                assert(side(s[i], k) == side(m, k));
            } else {
                assert(side(s[s.len() - 1], k) == side(m, k));
            }
        }
    }
}

/// A run of rectangles has one minimum bounding box only.
pub proof fn lemma_mbb_is_unique<T: Coordinate>(
    a: Rectangle<T>,
    b: Rectangle<T>,
    s: Seq<Rectangle<T>>,
)
    requires
        is_mbb_of(a, s),
        is_mbb_of(b, s),
    ensures
        a == b,
{
    assert forall|k: int| 0 <= k < 4 implies side(a, k) == side(b, k) by {
        assert(attains(a, s, k));
        assert(attains(b, s, k));
        let i = choose|i: int| 0 <= i < s.len() && side(#[trigger] s[i], k) == side(a, k);
        let j = choose|j: int| 0 <= j < s.len() && side(#[trigger] s[j], k) == side(b, k);
        lemma_contains_by_sides(a, s[j]);
        lemma_contains_by_sides(b, s[i]);
    }
    lemma_equal_sides(a, b);
}

/// To show that `m` is the merge of `s`, show that it is its minimum bounding
/// box.
pub proof fn lemma_mbb_is_merge_all<T: Coordinate>(m: Rectangle<T>, s: Seq<Rectangle<T>>)
    requires
        is_mbb_of(m, s),
        s.len() > 0,
    ensures
        m == merge_all(s),
{
    lemma_merge_all_is_mbb(s);
    lemma_mbb_is_unique(m, merge_all(s), s);
}

/// Merging rectangles that lie within the limit gives one that does.
pub proof fn lemma_merge_all_within_limit<T: Coordinate>(s: Seq<Rectangle<T>>)
    requires
        s.len() > 0,
        forall|i: int| 0 <= i < s.len() ==> (#[trigger] s[i]).within_limit(),
    ensures
        merge_all(s).within_limit(),
    decreases s.len(),
{
    if s.len() > 1 {
        let init = s.drop_last();
        assert forall|i: int| 0 <= i < init.len() implies (#[trigger] init[i]).within_limit() by {
            assert(s[i].within_limit());
        }
        lemma_merge_all_within_limit(init);
        assert(s.last().within_limit());
    } else {
        assert(s[0].within_limit());
    }
}

/// Growing one rectangle of a run to take in `added` grows the merge of the
/// run to take in `added`.
pub proof fn lemma_mbb_after_growth<T: Coordinate>(
    s: Seq<Rectangle<T>>,
    b: int,
    added: Rectangle<T>,
)
    requires
        0 <= b < s.len(),
    ensures
        merge_all(s.update(b, s[b].spec_merge(added))) == merge_all(s).spec_merge(added),
{
    let m = merge_all(s);
    let x = m.spec_merge(added);
    let u = s.update(b, s[b].spec_merge(added));
    lemma_merge_all_is_mbb(s);
    assert(m.spec_contains_rectangle(s[b]));
    assert forall|i: int| 0 <= i < u.len() implies x.spec_contains_rectangle(#[trigger] u[i]) by {
        assert(m.spec_contains_rectangle(s[i]));
    }
    assert forall|k: int| 0 <= k < 4 implies #[trigger] attains(x, u, k) by {
        lemma_merge_sides(m, added, k);
        lemma_merge_sides(s[b], added, k);
        lemma_contains_by_sides(m, s[b]);
        if side(m, k) >= side(added, k) {
            assert(attains(m, s, k));
            let j = choose|j: int| 0 <= j < s.len() && side(#[trigger] s[j], k) == side(m, k);
            assert(side(u[j], k) == side(x, k));
        } else {
            assert(side(u[b], k) == side(x, k));
        }
    }
    lemma_mbb_is_merge_all(x, u);
}

/// Replacing one rectangle of a run by two that merge into it leaves the merge
/// of the run as it was.
pub proof fn lemma_mbb_after_split<T: Coordinate>(
    s: Seq<Rectangle<T>>,
    b: int,
    left: Rectangle<T>,
    right: Rectangle<T>,
)
    requires
        0 <= b < s.len(),
        s[b] == left.spec_merge(right),
    ensures
        merge_all(s.remove(b).push(left).push(right)) == merge_all(s),
{
    let m = merge_all(s);
    let u = s.remove(b).push(left).push(right);
    lemma_merge_all_is_mbb(s);
    assert(m.spec_contains_rectangle(s[b]));
    assert forall|i: int| 0 <= i < u.len() implies m.spec_contains_rectangle(#[trigger] u[i]) by {
        if i < b {
            assert(u[i] == s[i]);
        } else if i < s.len() - 1 {
            assert(u[i] == s[i + 1]);
        }
    }
    assert forall|k: int| 0 <= k < 4 implies #[trigger] attains(m, u, k) by {
        lemma_merge_sides(left, right, k);
        assert(attains(m, s, k));
        let j = choose|j: int| 0 <= j < s.len() && side(#[trigger] s[j], k) == side(m, k);
        if j < b {
            assert(side(u[j], k) == side(m, k));
        } else if j > b {
            assert(side(u[j - 1], k) == side(m, k));
        } else if side(left, k) >= side(right, k) {
            assert(side(u[s.len() - 1], k) == side(m, k));
        } else {
            assert(side(u[s.len() as int], k) == side(m, k));
        }
    }
    lemma_mbb_is_merge_all(m, u);
}

/// Appending a rectangle to a run merges it into the merge of the run.
pub proof fn lemma_mbb_after_push<T: Coordinate>(s: Seq<Rectangle<T>>, added: Rectangle<T>)
    requires
        s.len() > 0,
    ensures
        merge_all(s.push(added)) == merge_all(s).spec_merge(added),
{
    assert(s.push(added).drop_last() =~= s);
}

impl<T: Coordinate, O: ObjectId> Entry<T, O> {
    /// Every rectangle cached for a child, at any depth, is the merge of the
    /// rectangles of that child's entries.
    pub open spec fn boxes_are_exact(self) -> bool
        decreases self,
    {
        match self {
            Entry::Leaf { .. } => true,
            Entry::NonLeaf { children, .. } => forall|i: int|
                0 <= i < children@.len() ==> {
                    &&& (#[trigger] children@[i]).0 == children@[i].1.spec_mbb()
                    &&& children@[i].1.boxes_are_exact()
                },
        }
    }

    /// The bounding box of the subtree computed from its records alone, level
    /// by level, with no regard to any cached rectangle.
    pub open spec fn true_mbb(self) -> Rectangle<T>
        decreases self, 1nat,
    {
        match self {
            Entry::Leaf { children } => merge_all(
                children@.map_values(|r: ObjectRecord<T, O>| r.0),
            ),
            Entry::NonLeaf { children, .. } => merge_all(Self::true_mbbs_of(children@)),
        }
    }

    /// The true bounding boxes of a run of children.
    pub open spec fn true_mbbs_of(children: Seq<ChildRecord<T, O>>) -> Seq<Rectangle<T>>
        decreases children, 0nat,
    {
        if children.len() == 0 {
            Seq::empty()
        } else {
            Self::true_mbbs_of(children.drop_last()).push(children.last().1.true_mbb())
        }
    }
}

/// The box of a well-formed node lies within the limit.
pub proof fn lemma_box_within_limit<T: Coordinate, O: ObjectId>(entry: Entry<T, O>, config: Config)
    requires
        entry.well_formed(config),
        entry.spec_len() > 0,
    ensures
        entry.spec_mbb().within_limit(),
{
    let rectangles = entry.rectangles();
    assert forall|i: int| 0 <= i < rectangles.len() implies (
    #[trigger] rectangles[i]).within_limit() by {
        match entry {
            Entry::Leaf { children } => {
                assert(children@[i].0.within_limit());
            },
            Entry::NonLeaf { children, .. } => {
                assert(children@[i].well_formed(config));
            },
        }
    }
    lemma_merge_all_within_limit(rectangles);
}

/// `m` contains the rectangle of every record of `records`.
pub open spec fn covers<T: Coordinate, O: ObjectId>(
    m: Rectangle<T>,
    records: Seq<ObjectRecord<T, O>>,
) -> bool {
    forall|i: int| 0 <= i < records.len() ==> m.spec_contains_rectangle((#[trigger] records[i]).0)
}

/// A well-formed subtree has exact boxes.
pub proof fn lemma_well_formed_boxes<T: Coordinate, O: ObjectId>(
    entry: Entry<T, O>,
    config: Config,
)
    requires
        entry.well_formed(config),
    ensures
        entry.boxes_are_exact(),
    decreases entry,
{
    match entry {
        Entry::Leaf { .. } => {},
        Entry::NonLeaf { children, .. } => {
            assert forall|i: int| 0 <= i < children@.len() implies {
                &&& (#[trigger] children@[i]).0 == children@[i].1.spec_mbb()
                &&& children@[i].1.boxes_are_exact()
            } by {
                assert(children@[i].well_formed(config));
                lemma_well_formed_boxes(children@[i].1, config);
            }
        },
    }
}

/// Where boxes are exact, the box of a subtree covers every record below it.
pub proof fn lemma_box_covers<T: Coordinate, O: ObjectId>(entry: Entry<T, O>)
    requires
        entry.boxes_are_exact(),
    ensures
        covers(entry.spec_mbb(), entry.records()),
    decreases entry, 1nat,
{
    let m = entry.spec_mbb();
    match entry {
        Entry::Leaf { children } => {
            if children@.len() > 0 {
                lemma_merge_all_is_mbb(entry.rectangles());
                assert forall|i: int| 0 <= i < children@.len() implies m.spec_contains_rectangle(
                    (#[trigger] children@[i]).0,
                ) by {
                    assert(entry.rectangles()[i] == children@[i].0);
                }
            }
        },
        Entry::NonLeaf { children, .. } => {
            if children@.len() > 0 {
                lemma_merge_all_is_mbb(entry.rectangles());
                assert forall|k: int| 0 <= k < children@.len() implies m.spec_contains_rectangle(
                    (#[trigger] children@[k]).0,
                ) by {
                    assert(entry.rectangles()[k] == children@[k].0);
                }
            }
            lemma_boxes_cover(children@, m);
        },
    }
}

/// A rectangle that contains the exact boxes of a run of children covers every
/// record below them.
pub proof fn lemma_boxes_cover<T: Coordinate, O: ObjectId>(
    children: Seq<ChildRecord<T, O>>,
    m: Rectangle<T>,
)
    requires
        forall|k: int|
            0 <= k < children.len() ==> {
                &&& m.spec_contains_rectangle((#[trigger] children[k]).0)
                &&& children[k].0 == children[k].1.spec_mbb()
                &&& children[k].1.boxes_are_exact()
            },
    ensures
        covers(m, ChildRecord::records_of(children)),
    decreases children, 0nat,
{
    if children.len() > 0 {
        let init = children.drop_last();
        let last = children.last();
        assert forall|k: int| 0 <= k < init.len() implies {
            &&& m.spec_contains_rectangle((#[trigger] init[k]).0)
            &&& init[k].0 == init[k].1.spec_mbb()
            &&& init[k].1.boxes_are_exact()
        } by {
            assert(init[k] == children[k]);
        }
        lemma_boxes_cover(init, m);
        assert(children[children.len() - 1] == last);
        lemma_box_covers(last.1);
        let before = ChildRecord::records_of(init);
        let all = ChildRecord::records_of(children);
        assert forall|i: int| 0 <= i < all.len() implies m.spec_contains_rectangle(
            (#[trigger] all[i]).0,
        ) by {
            if i < before.len() {
                assert(all[i] == before[i]);
            } else {
                assert(all[i] == last.1.records()[i - before.len()]);
                assert(last.0.spec_contains_rectangle(last.1.records()[i - before.len()].0));
            }
        }
    }
}

} // verus!
