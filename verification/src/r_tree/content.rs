//! How the records below a node change when its children change.

use crate::geometry2d::Coordinate;
use crate::r_tree::{ChildRecord, ObjectId, ObjectRecord, Orphan};
use vstd::multiset::Multiset;
use vstd::prelude::*;

verus! {

/// The empty sequence holds nothing.
pub proof fn lemma_empty_content<A>()
    ensures
        Seq::<A>::empty().to_multiset() == Multiset::<A>::empty(),
{
    broadcast use vstd::seq_lib::group_to_multiset_ensures;

    let s = Seq::<A>::empty();
    assert(s.to_multiset().len() == 0);
    assert forall|a: A| s.to_multiset().count(a) == 0 by {
        assert(!s.contains(a));
    }
    assert(s.to_multiset() =~= Multiset::<A>::empty());
}

/// A sequence of one element holds just that element.
pub proof fn lemma_single_content<A>(a: A)
    ensures
        seq![a].to_multiset() == Multiset::<A>::empty().insert(a),
{
    broadcast use vstd::seq_lib::group_to_multiset_ensures;

    lemma_empty_content::<A>();
    assert(seq![a] =~= Seq::<A>::empty().push(a));
}

/// What is added on both sides of an equation can be taken away on both.
pub proof fn lemma_cancel<A>(x: Multiset<A>, shared: Multiset<A>, y: Multiset<A>)
    requires
        x.add(shared) == y.add(shared),
    ensures
        x == y,
{
    assert forall|a: A| x.count(a) == y.count(a) by {
        let left = x.add(shared);
        let right = y.add(shared);
        assert(left.count(a) == x.count(a) + shared.count(a));
        assert(right.count(a) == y.count(a) + shared.count(a));
    }
    assert(x =~= y);
}

/// The records of two runs of children, one after the other.
pub proof fn lemma_records_of_concat<T: Coordinate, O: ObjectId>(
    s: Seq<ChildRecord<T, O>>,
    t: Seq<ChildRecord<T, O>>,
)
    ensures
        ChildRecord::records_of(s + t) == ChildRecord::records_of(s) + ChildRecord::records_of(t),
    decreases t.len(),
{
    if t.len() == 0 {
        assert(s + t =~= s);
        assert(ChildRecord::records_of(s) + ChildRecord::records_of(t) =~= ChildRecord::records_of(
            s,
        ));
    } else {
        lemma_records_of_concat(s, t.drop_last());
        assert((s + t).drop_last() =~= s + t.drop_last());
        assert((s + t).last() == t.last());
        assert(ChildRecord::records_of(s) + (ChildRecord::records_of(t.drop_last())
            + t.last().1.records()) =~= (ChildRecord::records_of(s) + ChildRecord::records_of(
            t.drop_last(),
        )) + t.last().1.records());
    }
}

/// The records of a single child.
pub proof fn lemma_records_of_single<T: Coordinate, O: ObjectId>(c: ChildRecord<T, O>)
    ensures
        ChildRecord::records_of(seq![c]) == c.1.records(),
{
    let s = seq![c];
    assert(s.drop_last() =~= Seq::<ChildRecord<T, O>>::empty());
    assert(ChildRecord::records_of(s.drop_last()) =~= Seq::<ObjectRecord<T, O>>::empty());
    assert(ChildRecord::records_of(s) =~= c.1.records());
}

/// The records of a run of children: those before child `b`, those of child
/// `b`, those after it.
pub proof fn lemma_records_of_split<T: Coordinate, O: ObjectId>(
    s: Seq<ChildRecord<T, O>>,
    b: int,
)
    requires
        0 <= b < s.len(),
    ensures
        ChildRecord::records_of(s) == ChildRecord::records_of(s.take(b)) + s[b].1.records()
            + ChildRecord::records_of(s.skip(b + 1)),
{
    assert(s =~= s.take(b) + seq![s[b]] + s.skip(b + 1));
    lemma_records_of_concat(s.take(b) + seq![s[b]], s.skip(b + 1));
    lemma_records_of_concat(s.take(b), seq![s[b]]);
    lemma_records_of_single(s[b]);
}

/// Replacing child `b` by `c` takes the records of the one out of the node's
/// content and puts those of the other in.
pub proof fn lemma_content_after_update<T: Coordinate, O: ObjectId>(
    s: Seq<ChildRecord<T, O>>,
    b: int,
    c: ChildRecord<T, O>,
)
    requires
        0 <= b < s.len(),
    ensures
        ChildRecord::records_of(s.update(b, c)).to_multiset().add(s[b].1.records().to_multiset())
            == ChildRecord::records_of(s).to_multiset().add(c.1.records().to_multiset()),
{
    broadcast use vstd::seq_lib::lemma_multiset_commutative;

    let u = s.update(b, c);
    lemma_records_of_split(s, b);
    lemma_records_of_split(u, b);
    assert(u.take(b) =~= s.take(b));
    assert(u.skip(b + 1) =~= s.skip(b + 1));
    assert(ChildRecord::records_of(u).to_multiset().add(s[b].1.records().to_multiset())
        =~= ChildRecord::records_of(s).to_multiset().add(c.1.records().to_multiset()));
}

/// Removing child `b` takes its records out of the node's content.
pub proof fn lemma_content_after_remove<T: Coordinate, O: ObjectId>(
    s: Seq<ChildRecord<T, O>>,
    b: int,
)
    requires
        0 <= b < s.len(),
    ensures
        ChildRecord::records_of(s.remove(b)).to_multiset().add(s[b].1.records().to_multiset())
            == ChildRecord::records_of(s).to_multiset(),
{
    broadcast use vstd::seq_lib::lemma_multiset_commutative;

    let u = s.remove(b);
    lemma_records_of_split(s, b);
    assert(u =~= s.take(b) + s.skip(b + 1));
    lemma_records_of_concat(s.take(b), s.skip(b + 1));
    assert(ChildRecord::records_of(u).to_multiset().add(s[b].1.records().to_multiset())
        =~= ChildRecord::records_of(s).to_multiset());
}

/// Appending a child appends its records.
pub proof fn lemma_records_of_push<T: Coordinate, O: ObjectId>(
    s: Seq<ChildRecord<T, O>>,
    c: ChildRecord<T, O>,
)
    ensures
        ChildRecord::records_of(s.push(c)) == ChildRecord::records_of(s) + c.1.records(),
        ChildRecord::records_of(s.push(c)).to_multiset() == ChildRecord::records_of(
            s,
        ).to_multiset().add(c.1.records().to_multiset()),
{
    broadcast use vstd::seq_lib::lemma_multiset_commutative;

    assert(s.push(c).drop_last() =~= s);
}

/// Appending an orphan appends its records.
pub proof fn lemma_orphans_push<T: Coordinate, O: ObjectId>(
    s: Seq<Orphan<T, O>>,
    o: Orphan<T, O>,
)
    ensures
        Orphan::records_of(s.push(o)) == Orphan::records_of(s) + o.records(),
        Orphan::records_of(s.push(o)).to_multiset() == Orphan::records_of(s).to_multiset().add(
            o.records().to_multiset(),
        ),
{
    broadcast use vstd::seq_lib::lemma_multiset_commutative;

    assert(s.push(o).drop_last() =~= s);
}

} // verus!
