//! Splitting a node that holds one entry too many: picking two seeds, dealing
//! the other entries out, and building the two halves.

use crate::geometry2d::{lemma_merge_contains, Coordinate, Rectangle, Spacial};
use crate::r_tree::bounding::{
    attains, lemma_mbb_is_merge_all, lemma_merge_all_is_mbb, lemma_merge_all_within_limit,
    lemma_merge_sides, side,
};
use crate::r_tree::content::{
    lemma_empty_content, lemma_records_of_concat, lemma_records_of_push, lemma_records_of_single,
    lemma_single_content,
};
use crate::r_tree::insert::dimensions::{lemma_exceeds, ratio_exceeds, DimExtremes};
use crate::r_tree::{
    merge_all, ChildRecord, Config, Entry, InsertionResult, ObjectId, ObjectRecord,
};
use std::collections::HashSet;
use vstd::prelude::*;

verus! {

///////////
// SEEDS //
///////////
/// The extremes along the x axis of the first `n` rectangles of a run. The
/// first rectangle starts the extremes and is counted again in its turn.
pub open spec fn extremes_x<T: Coordinate>(rectangles: Seq<Rectangle<T>>, n: nat) -> DimExtremes<
    T,
>
    decreases n,
{
    if n == 0 {
        DimExtremes::spec_new(rectangles[0].low.x, rectangles[0].high.x, 0)
    } else {
        extremes_x(rectangles, (n - 1) as nat).spec_update(
            rectangles[n - 1].low.x,
            rectangles[n - 1].high.x,
            (n - 1) as usize,
        )
    }
}

/// The extremes along the y axis of the first `n` rectangles of a run.
pub open spec fn extremes_y<T: Coordinate>(rectangles: Seq<Rectangle<T>>, n: nat) -> DimExtremes<
    T,
>
    decreases n,
{
    if n == 0 {
        DimExtremes::spec_new(rectangles[0].low.y, rectangles[0].high.y, 0)
    } else {
        extremes_y(rectangles, (n - 1) as nat).spec_update(
            rectangles[n - 1].low.y,
            rectangles[n - 1].high.y,
            (n - 1) as usize,
        )
    }
}

/// `e` holds the extremes of the first `m` of the intervals from `lows` to
/// `highs`: the least and the greatest low side, the least and the greatest
/// high side, and the first positions at which the greatest low side and the
/// least high side stand.
pub open spec fn are_extremes<T: Coordinate>(
    e: DimExtremes<T>,
    lows: Seq<T>,
    highs: Seq<T>,
    m: int,
) -> bool {
    &&& 0 <= e.low_idx < m
    &&& 0 <= e.high_idx < m
    &&& forall|i: int|
        0 <= i < m ==> e.min_low.value() <= (#[trigger] lows[i]).value() <= e.max_low.value()
    &&& forall|i: int|
        0 <= i < m ==> e.min_high.value() <= (#[trigger] highs[i]).value() <= e.max_high.value()
    &&& exists|i: int| 0 <= i < m && #[trigger] lows[i] == e.min_low
    &&& exists|i: int| 0 <= i < m && #[trigger] highs[i] == e.max_high
    &&& lows[e.low_idx as int] == e.max_low
    &&& forall|i: int| 0 <= i < e.low_idx ==> (#[trigger] lows[i]).value() < e.max_low.value()
    &&& highs[e.high_idx as int] == e.min_high
    &&& forall|i: int| 0 <= i < e.high_idx ==> (#[trigger] highs[i]).value() > e.min_high.value()
}

/// One more interval taken in leaves the extremes the extremes.
pub proof fn lemma_extremes_step<T: Coordinate>(
    e: DimExtremes<T>,
    lows: Seq<T>,
    highs: Seq<T>,
    m: int,
)
    requires
        1 <= m < lows.len(),
        lows.len() == highs.len(),
        m <= usize::MAX,
        are_extremes(e, lows, highs, m),
    ensures
        are_extremes(e.spec_update(lows[m], highs[m], m as usize), lows, highs, m + 1),
        e.spec_update(lows[0], highs[0], 0) == e,
{
    let next = e.spec_update(lows[m], highs[m], m as usize);
    let at = choose|i: int| 0 <= i < m && #[trigger] lows[i] == e.min_low;
    if lows[m].value() < e.min_low.value() {
        assert(lows[m] == next.min_low);
    } else {
        assert(lows[at] == next.min_low);
    }
    let top = choose|i: int| 0 <= i < m && #[trigger] highs[i] == e.max_high;
    if highs[m].value() > e.max_high.value() {
        assert(highs[m] == next.max_high);
    } else {
        assert(highs[top] == next.max_high);
    }
    assert(e.min_low.value() <= lows[0].value() <= e.max_low.value());
    assert(e.min_high.value() <= highs[0].value() <= e.max_high.value());
}

/// What the extremes along the two axes are: see `are_extremes`.
pub proof fn lemma_extremes<T: Coordinate>(rectangles: Seq<Rectangle<T>>, n: nat)
    requires
        0 < rectangles.len() <= usize::MAX,
        n <= rectangles.len(),
    ensures
        are_extremes(
            extremes_x(rectangles, n),
            rectangles.map_values(|r: Rectangle<T>| r.low.x),
            rectangles.map_values(|r: Rectangle<T>| r.high.x),
            if n == 0 {
                1
            } else {
                n as int
            },
        ),
        are_extremes(
            extremes_y(rectangles, n),
            rectangles.map_values(|r: Rectangle<T>| r.low.y),
            rectangles.map_values(|r: Rectangle<T>| r.high.y),
            if n == 0 {
                1
            } else {
                n as int
            },
        ),
    decreases n,
{
    let lows_x = rectangles.map_values(|r: Rectangle<T>| r.low.x);
    let highs_x = rectangles.map_values(|r: Rectangle<T>| r.high.x);
    let lows_y = rectangles.map_values(|r: Rectangle<T>| r.low.y);
    let highs_y = rectangles.map_values(|r: Rectangle<T>| r.high.y);
    if n == 0 {
        assert(lows_x[0] == extremes_x(rectangles, 0).min_low);
        assert(lows_y[0] == extremes_y(rectangles, 0).min_low);
        assert(highs_x[0] == extremes_x(rectangles, 0).max_high);
        assert(highs_y[0] == extremes_y(rectangles, 0).max_high);
    } else {
        lemma_extremes(rectangles, (n - 1) as nat);
        if n == 1 {
            lemma_extremes(rectangles, 0);
            assert(lows_x[0] == extremes_x(rectangles, 0).min_low);
            assert(lows_y[0] == extremes_y(rectangles, 0).min_low);
            assert(highs_x[0] == extremes_x(rectangles, 0).max_high);
            assert(highs_y[0] == extremes_y(rectangles, 0).max_high);
            if rectangles.len() > 1 {
                lemma_extremes_step(extremes_x(rectangles, 0), lows_x, highs_x, 1);
                lemma_extremes_step(extremes_y(rectangles, 0), lows_y, highs_y, 1);
            }
        } else {
            lemma_extremes_step(extremes_x(rectangles, (n - 1) as nat), lows_x, highs_x, n - 1);
            lemma_extremes_step(extremes_y(rectangles, (n - 1) as nat), lows_y, highs_y, n - 1);
        }
    }
}

/// The indices of the two entries that start the two halves of a split, the
/// lower index first.
///
/// Along each axis the seeds are the entry with the highest low side and the
/// entry with the lowest high side (`are_extremes`). They are taken along the
/// axis on which the extent of the run, divided by the gap between the seeds,
/// is greater: the x axis where its quotient exceeds that of the y axis, else
/// the y axis. Where both seeds are the same entry, entry 0 takes the place of
/// one of them, and entry 1 that of the other where that entry is entry 0
/// itself.
pub open spec fn spec_seeds<T: Coordinate>(rectangles: Seq<Rectangle<T>>) -> (usize, usize) {
    let stats_x = extremes_x(rectangles, rectangles.len());
    let stats_y = extremes_y(rectangles, rectangles.len());
    let (seed1, seed2) = if ratio_exceeds(
        stats_x.spec_far(),
        stats_x.spec_near(),
        stats_y.spec_far(),
        stats_y.spec_near(),
    ) {
        (stats_x.low_idx, stats_x.high_idx)
    } else {
        (stats_y.low_idx, stats_y.high_idx)
    };
    if seed1 < seed2 {
        (seed1, seed2)
    } else if seed1 > seed2 {
        (seed2, seed1)
    } else if seed1 == 0 {
        (0, 1)
    } else {
        (0, seed1)
    }
}

/// The indices below `n` other than the two seeds, in rising order.
pub open spec fn others(n: nat, seeds: (usize, usize)) -> Seq<usize> {
    Seq::new(n, |i: int| i as usize).remove(seeds.1 as int).remove(seeds.0 as int)
}

/// The two groups of a split, as indices into the run: each starts with its
/// seed; of the other indices, in rising order, the even ones follow in the
/// first group and the odd ones in the second.
pub open spec fn spec_linear_partition<T: Coordinate>(rectangles: Seq<Rectangle<T>>) -> (
    Seq<usize>,
    Seq<usize>,
) {
    let seeds = spec_seeds(rectangles);
    let rest = others(rectangles.len(), seeds);
    (
        seq![seeds.0] + rest.filter(|i: usize| i % 2 == 0),
        seq![seeds.1] + rest.filter(|i: usize| i % 2 != 0),
    )
}

/// The rectangles of a run of indexed rectangles.
pub open spec fn unindexed<T: Coordinate>(group: Seq<(usize, Rectangle<T>)>) -> Seq<Rectangle<T>> {
    group.map_values(|pair: (usize, Rectangle<T>)| pair.1)
}

/// Each rectangle of the run carries its own position as its index.
pub open spec fn is_indexed<T: Coordinate>(group: Seq<(usize, Rectangle<T>)>) -> bool {
    forall|i: int| 0 <= i < group.len() ==> (#[trigger] group[i]).0 == i
}

/// The extremes of rectangles within the limit lie within the limit, and their
/// indices are positions of the run.
pub proof fn lemma_extremes_in_range<T: Coordinate>(rectangles: Seq<Rectangle<T>>, n: nat)
    requires
        0 < rectangles.len(),
        n <= rectangles.len(),
        forall|i: int| 0 <= i < rectangles.len() ==> (#[trigger] rectangles[i]).within_limit(),
    ensures
        extremes_x(rectangles, n).within_limit(),
        extremes_y(rectangles, n).within_limit(),
        extremes_x(rectangles, n).low_idx < rectangles.len(),
        extremes_x(rectangles, n).high_idx < rectangles.len(),
        extremes_y(rectangles, n).low_idx < rectangles.len(),
        extremes_y(rectangles, n).high_idx < rectangles.len(),
    decreases n,
{
    if n == 0 {
        assert(rectangles[0].within_limit());
    } else {
        lemma_extremes_in_range(rectangles, (n - 1) as nat);
        assert(rectangles[n - 1].within_limit());
    }
}

/// The seeds are two different positions of the run.
pub proof fn lemma_seeds_in_range<T: Coordinate>(rectangles: Seq<Rectangle<T>>)
    requires
        2 <= rectangles.len(),
        forall|i: int| 0 <= i < rectangles.len() ==> (#[trigger] rectangles[i]).within_limit(),
    ensures
        spec_seeds(rectangles).0 < spec_seeds(rectangles).1 < rectangles.len(),
{
    lemma_extremes_in_range(rectangles, rectangles.len());
}

/// What the indices other than the seeds are.
pub proof fn lemma_others<T: Coordinate>(n: nat, seeds: (usize, usize))
    requires
        seeds.0 < seeds.1 < n <= usize::MAX,
    ensures
        others(n, seeds).len() == n - 2,
        forall|x: usize| #[trigger]
            others(n, seeds).contains(x) <==> x < n && x != seeds.0 && x != seeds.1,
{
    let all = Seq::new(n, |i: int| i as usize);
    let rest = others(n, seeds);
    assert forall|x: usize| #[trigger] rest.contains(x) <==> x < n && x != seeds.0 && x
        != seeds.1 by {
        if rest.contains(x) {
            let j = choose|j: int| 0 <= j < rest.len() && rest[j] == x;
            assert(rest[j] == x);
        }
        if x < n && x != seeds.0 && x != seeds.1 {
            let j: int = if x < seeds.0 {
                x as int
            } else if x < seeds.1 {
                x - 1
            } else {
                x - 2
            };
            assert(rest[j] == x);
        }
    }
}

///////////
// SPLIT //
///////////
/// The entries of `s` from position `from` on whose position is in `chosen`
/// (or, with `want` false, is not), the last of them first.
pub open spec fn taken_down<E>(s: Seq<E>, chosen: Set<usize>, want: bool, from: int) -> Seq<E>
    decreases s.len() - from,
{
    if from < 0 || from >= s.len() {
        Seq::empty()
    } else {
        let above = taken_down(s, chosen, want, from + 1);
        if chosen.contains(from as usize) == want {
            above.push(s[from])
        } else {
            above
        }
    }
}

/// The positions at which a split puts an entry into the first half: the first
/// seed, and every even position but the second seed.
pub open spec fn goes_left(seeds: (usize, usize), i: usize) -> bool {
    i == seeds.0 || (i != seeds.1 && i % 2 == 0)
}

/// What `taken_down` takes is in the run, and what the run holds at a position
/// of the wanted kind is taken.
pub proof fn lemma_taken_down<E>(s: Seq<E>, chosen: Set<usize>, want: bool, from: int)
    requires
        0 <= from <= s.len(),
    ensures
        forall|j: int|
            0 <= j < taken_down(s, chosen, want, from).len() ==> s.contains(
                #[trigger] taken_down(s, chosen, want, from)[j],
            ),
        forall|i: int|
            from <= i < s.len() && chosen.contains(i as usize) == want ==> taken_down(
                s,
                chosen,
                want,
                from,
            ).contains(#[trigger] s[i]),
    decreases s.len() - from,
{
    let taken = taken_down(s, chosen, want, from);
    if from < s.len() {
        let above = taken_down(s, chosen, want, from + 1);
        lemma_taken_down(s, chosen, want, from + 1);
        assert forall|j: int| 0 <= j < taken.len() implies s.contains(#[trigger] taken[j]) by {
            if j < above.len() {
                assert(taken[j] == above[j]);
            } else {
                assert(taken[j] == s[from]);
            }
        }
        assert forall|i: int|
            from <= i < s.len() && chosen.contains(i as usize) == want implies taken.contains(
            #[trigger] s[i],
        ) by {
            if i == from {
                assert(taken[taken.len() - 1] == s[i]);
            } else {
                assert(above.contains(s[i]));
                let j = choose|j: int| 0 <= j < above.len() && above[j] == s[i];
                assert(taken[j] == s[i]);
            }
        }
    }
}

/// How many entries a split puts into each half.
pub proof fn lemma_taken_sizes<E>(s: Seq<E>, chosen: Set<usize>, seeds: (usize, usize), from: int)
    requires
        0 <= from <= s.len() <= usize::MAX,
        seeds.0 < seeds.1 < s.len(),
        forall|i: usize| i < s.len() ==> (#[trigger] chosen.contains(i) <==> goes_left(seeds, i)),
    ensures
        taken_down(s, chosen, true, from).len() == (s.len() + 1) / 2 - (from + 1) / 2 - (if seeds.1
            >= from && seeds.1 % 2 == 0 {
            1int
        } else {
            0int
        }) + (if seeds.0 >= from && seeds.0 % 2 != 0 {
            1int
        } else {
            0int
        }),
        taken_down(s, chosen, true, from).len() + taken_down(s, chosen, false, from).len()
            == s.len() - from,
    decreases s.len() - from,
{
    if from < s.len() {
        lemma_taken_sizes(s, chosen, seeds, from + 1);
        assert(chosen.contains(from as usize) <==> goes_left(seeds, from as usize));
    }
}

/// Both halves of a split hold at least the floor of the configuration and at
/// most its maximum.
pub proof fn lemma_halves_fit<E>(
    s: Seq<E>,
    chosen: Set<usize>,
    seeds: (usize, usize),
    config: Config,
)
    requires
        config.valid(),
        s.len() == config.maximum_entries_per_node + 1,
        s.len() <= usize::MAX,
        seeds.0 < seeds.1 < s.len(),
        forall|i: usize| i < s.len() ==> (#[trigger] chosen.contains(i) <==> goes_left(seeds, i)),
    ensures
        config.spec_node_floor() <= taken_down(s, chosen, true, 0).len()
            <= config.maximum_entries_per_node,
        config.spec_node_floor() <= taken_down(s, chosen, false, 0).len()
            <= config.maximum_entries_per_node,
        1 <= config.spec_node_floor(),
{
    lemma_taken_sizes(s, chosen, seeds, 0);
}

/// The first group of a split holds the positions that go left.
pub proof fn lemma_first_group<T: Coordinate>(rectangles: Seq<Rectangle<T>>)
    requires
        2 <= rectangles.len() <= usize::MAX,
        forall|i: int| 0 <= i < rectangles.len() ==> (#[trigger] rectangles[i]).within_limit(),
    ensures
        forall|i: usize|
            i < rectangles.len() ==> (#[trigger] spec_linear_partition(
                rectangles,
            ).0.to_set().contains(i) <==> goes_left(spec_seeds(rectangles), i)),
{
    let seeds = spec_seeds(rectangles);
    let n = rectangles.len();
    let rest = others(n, seeds);
    let even = |i: usize| i % 2 == 0;
    let group = spec_linear_partition(rectangles).0;
    lemma_seeds_in_range(rectangles);
    lemma_others::<T>(n, seeds);
    assert forall|i: usize| i < n implies (#[trigger] group.to_set().contains(i) <==> goes_left(
        seeds,
        i,
    )) by {
        if group.contains(i) {
            let j = choose|j: int| 0 <= j < group.len() && group[j] == i;
            if j > 0 {
                assert(rest.filter(even)[j - 1] == i);
                rest.lemma_filter_pred(even, j - 1);
                assert(rest.filter(even).contains(i));
                rest.lemma_filter_contains_rev(even, i);
                assert(rest.contains(i));
            }
        }
        if goes_left(seeds, i) {
            if i == seeds.0 {
                assert(group[0] == i);
            } else {
                assert(rest.contains(i));
                let k = choose|k: int| 0 <= k < rest.len() && rest[k] == i;
                rest.lemma_filter_contains(even, k);
                let j = choose|j: int|
                    0 <= j < rest.filter(even).len() && rest.filter(even)[j] == i;
                assert(group[j + 1] == i);
            }
        }
    }
}

/// The records below the two halves of a split are the records below the
/// entries that were split.
pub proof fn lemma_taken_records<T: Coordinate, O: ObjectId>(
    s: Seq<ChildRecord<T, O>>,
    chosen: Set<usize>,
    from: int,
)
    requires
        0 <= from <= s.len(),
    ensures
        ChildRecord::records_of(taken_down(s, chosen, true, from)).to_multiset().add(
            ChildRecord::records_of(taken_down(s, chosen, false, from)).to_multiset(),
        ) == ChildRecord::records_of(s.skip(from)).to_multiset(),
    decreases s.len() - from,
{
    broadcast use vstd::seq_lib::lemma_multiset_commutative;

    let left = taken_down(s, chosen, true, from);
    let right = taken_down(s, chosen, false, from);
    if from < s.len() {
        lemma_taken_records(s, chosen, from + 1);
        assert(s.skip(from) =~= seq![s[from]] + s.skip(from + 1));
        lemma_records_of_concat(seq![s[from]], s.skip(from + 1));
        lemma_records_of_single(s[from]);
        lemma_records_of_push(taken_down(s, chosen, true, from + 1), s[from]);
        lemma_records_of_push(taken_down(s, chosen, false, from + 1), s[from]);
        assert(ChildRecord::records_of(left).to_multiset().add(
            ChildRecord::records_of(right).to_multiset(),
        ) =~= ChildRecord::records_of(s.skip(from)).to_multiset());
    } else {
        assert(s.skip(from) =~= Seq::empty());
        assert(left =~= Seq::empty());
        assert(right =~= Seq::empty());
        lemma_empty_content::<ObjectRecord<T, O>>();
        assert(ChildRecord::records_of(left).to_multiset().add(
            ChildRecord::records_of(right).to_multiset(),
        ) =~= ChildRecord::records_of(s.skip(from)).to_multiset());
    }
}

/// The two halves of a split hold the entries that were split.
pub proof fn lemma_taken_content<E>(s: Seq<E>, chosen: Set<usize>, from: int)
    requires
        0 <= from <= s.len(),
    ensures
        taken_down(s, chosen, true, from).to_multiset().add(
            taken_down(s, chosen, false, from).to_multiset(),
        ) == s.skip(from).to_multiset(),
    decreases s.len() - from,
{
    broadcast use vstd::seq_lib::lemma_multiset_commutative;
    broadcast use vstd::seq_lib::group_to_multiset_ensures;

    let left = taken_down(s, chosen, true, from);
    let right = taken_down(s, chosen, false, from);
    if from < s.len() {
        lemma_taken_content(s, chosen, from + 1);
        assert(s.skip(from) =~= seq![s[from]] + s.skip(from + 1));
        lemma_single_content(s[from]);
        assert(left.to_multiset().add(right.to_multiset()) =~= s.skip(from).to_multiset());
    } else {
        assert(s.skip(from) =~= Seq::empty());
        assert(left =~= Seq::empty());
        assert(right =~= Seq::empty());
        assert(left.to_multiset().add(right.to_multiset()) =~= s.skip(from).to_multiset());
    }
}

/// Two runs of rectangles that between them hold what a third run holds, and
/// nothing else, have boxes that merge into the box of the third.
pub proof fn lemma_split_mbb<T: Coordinate>(
    all: Seq<Rectangle<T>>,
    left: Seq<Rectangle<T>>,
    right: Seq<Rectangle<T>>,
)
    requires
        left.len() > 0,
        right.len() > 0,
        forall|i: int|
            0 <= i < all.len() ==> left.contains(#[trigger] all[i]) || right.contains(all[i]),
        forall|j: int| 0 <= j < left.len() ==> all.contains(#[trigger] left[j]),
        forall|j: int| 0 <= j < right.len() ==> all.contains(#[trigger] right[j]),
    ensures
        merge_all(left).spec_merge(merge_all(right)) == merge_all(all),
{
    let l = merge_all(left);
    let r = merge_all(right);
    let m = l.spec_merge(r);
    lemma_merge_all_is_mbb(left);
    lemma_merge_all_is_mbb(right);
    lemma_merge_contains(l, r);
    assert(all.contains(left[0]));
    assert forall|i: int| 0 <= i < all.len() implies m.spec_contains_rectangle(
        #[trigger] all[i],
    ) by {
        if left.contains(all[i]) {
            let j = choose|j: int| 0 <= j < left.len() && left[j] == all[i];
            assert(l.spec_contains_rectangle(left[j]));
        } else {
            let j = choose|j: int| 0 <= j < right.len() && right[j] == all[i];
            assert(r.spec_contains_rectangle(right[j]));
        }
    }
    assert forall|k: int| 0 <= k < 4 implies #[trigger] attains(m, all, k) by {
        lemma_merge_sides(l, r, k);
        if side(l, k) >= side(r, k) {
            assert(attains(l, left, k));
            let j = choose|j: int| 0 <= j < left.len() && side(#[trigger] left[j], k) == side(l, k);
            assert(all.contains(left[j]));
            let i = choose|i: int| 0 <= i < all.len() && all[i] == left[j];
            assert(side(all[i], k) == side(m, k));
        } else {
            assert(attains(r, right, k));
            let j = choose|j: int|
                0 <= j < right.len() && side(#[trigger] right[j], k) == side(r, k);
            assert(all.contains(right[j]));
            let i = choose|i: int| 0 <= i < all.len() && all[i] == right[j];
            assert(side(all[i], k) == side(m, k));
        }
    }
    lemma_mbb_is_merge_all(m, all);
}

/// The boxes of the two halves of a split merge into the box of what was
/// split, and lie within the limit where the entries did. `rect_of` gives the
/// rectangle of an entry.
pub proof fn lemma_halves_boxes<T: Coordinate, E>(
    all: Seq<E>,
    chosen: Set<usize>,
    rect_of: spec_fn(E) -> Rectangle<T>,
)
    requires
        taken_down(all, chosen, true, 0).len() > 0,
        taken_down(all, chosen, false, 0).len() > 0,
        forall|i: int| 0 <= i < all.len() ==> rect_of(#[trigger] all[i]).within_limit(),
    ensures
        merge_all(taken_down(all, chosen, true, 0).map_values(rect_of)).spec_merge(
            merge_all(taken_down(all, chosen, false, 0).map_values(rect_of)),
        ) == merge_all(all.map_values(rect_of)),
        merge_all(taken_down(all, chosen, true, 0).map_values(rect_of)).within_limit(),
        merge_all(taken_down(all, chosen, false, 0).map_values(rect_of)).within_limit(),
{
    let left = taken_down(all, chosen, true, 0);
    let right = taken_down(all, chosen, false, 0);
    let all_boxes = all.map_values(rect_of);
    let left_boxes = left.map_values(rect_of);
    let right_boxes = right.map_values(rect_of);
    lemma_taken_down(all, chosen, true, 0);
    lemma_taken_down(all, chosen, false, 0);
    assert forall|i: int| 0 <= i < all_boxes.len() implies left_boxes.contains(
        #[trigger] all_boxes[i],
    ) || right_boxes.contains(all_boxes[i]) by {
        if chosen.contains(i as usize) {
            assert(left.contains(all[i]));
            let j = choose|j: int| 0 <= j < left.len() && left[j] == all[i];
            assert(left_boxes[j] == all_boxes[i]);
        } else {
            assert(right.contains(all[i]));
            let j = choose|j: int| 0 <= j < right.len() && right[j] == all[i];
            assert(right_boxes[j] == all_boxes[i]);
        }
    }
    assert forall|j: int| 0 <= j < left_boxes.len() implies all_boxes.contains(
        #[trigger] left_boxes[j],
    ) && left_boxes[j].within_limit() by {
        assert(all.contains(left[j]));
        let i = choose|i: int| 0 <= i < all.len() && all[i] == left[j];
        assert(all_boxes[i] == left_boxes[j]);
    }
    assert forall|j: int| 0 <= j < right_boxes.len() implies all_boxes.contains(
        #[trigger] right_boxes[j],
    ) && right_boxes[j].within_limit() by {
        assert(all.contains(right[j]));
        let i = choose|i: int| 0 <= i < all.len() && all[i] == right[j];
        assert(all_boxes[i] == right_boxes[j]);
    }
    lemma_split_mbb(all_boxes, left_boxes, right_boxes);
    lemma_merge_all_within_limit(left_boxes);
    lemma_merge_all_within_limit(right_boxes);
}

/// The set of the positions that a group holds.
fn lookup_of(group: Vec<usize>) -> (lookup: HashSet<usize>)
    ensures
        lookup@ == group@.to_set(),
{
    let mut lookup: HashSet<usize> = HashSet::new();
    let mut j: usize = 0;
    assert(group@.take(0).to_set() =~= Set::<usize>::empty());
    while j < group.len()
        invariant
            j <= group.len(),
            lookup@ == group@.take(j as int).to_set(),
        decreases group.len() - j,
    {
        proof {
            assert(group@.take(j + 1) =~= group@.take(j as int).push(group@[j as int]));
            group@.take(j as int).lemma_push_to_set_commute(group@[j as int]);
        }
        lookup.insert(group[j]);
        j += 1;
    }
    assert(group@.take(j as int) =~= group@);
    lookup
}

/// Moves every entry out of `children`, the last first: into the first run
/// those whose position is in `lookup`, into the second the others.
fn distribute<E>(children: &mut Vec<E>, lookup: &HashSet<usize>) -> (halves: (Vec<E>, Vec<E>))
    ensures
        final(children)@.len() == 0,
        halves.0@ == taken_down(old(children)@, lookup@, true, 0),
        halves.1@ == taken_down(old(children)@, lookup@, false, 0),
{
    let ghost all = children@;
    let mut left: Vec<E> = Vec::new();
    let mut right: Vec<E> = Vec::new();
    let mut idx: usize = children.len();
    while idx > 0
        invariant
            idx == children@.len(),
            idx <= all.len(),
            children@ == all.take(idx as int),
            left@ == taken_down(all, lookup@, true, idx as int),
            right@ == taken_down(all, lookup@, false, idx as int),
        decreases idx,
    {
        idx -= 1;
        if lookup.contains(&idx) {
            left.push(children.remove(idx));
        } else {
            right.push(children.remove(idx));
        }
        assert(children@ =~= all.take(idx as int));
    }
    (left, right)
}

impl<T: Coordinate, O: ObjectId> Entry<T, O> {
    /// This node holds, of the entries of `source`, those whose position is in
    /// `chosen` (or, with `want` false, is not), the last of them first, and is
    /// a node of the same kind and level.
    pub open spec fn holds_entries_of(self, source: Self, chosen: Set<usize>, want: bool) -> bool {
        match (self, source) {
            (Entry::Leaf { children }, Entry::Leaf { children: all }) => children@ == taken_down(
                all@,
                chosen,
                want,
                0,
            ),
            (
                Entry::NonLeaf { level, children },
                Entry::NonLeaf { level: source_level, children: all },
            ) => level == source_level && children@ == taken_down(all@, chosen, want, 0),
            _ => false,
        }
    }
}

impl<T: Coordinate, O: ObjectId> Entry<T, O> {
    /// The two seeds of a split of the run, the lower position first: see
    /// `spec_seeds`.
    pub fn pick_seeds(group: &Vec<(usize, Rectangle<T>)>) -> (seeds: (usize, usize))
        requires
            group.len() >= 2,
            is_indexed(group@),
            forall|i: int| 0 <= i < group.len() ==> (#[trigger] group@[i]).1.within_limit(),
        ensures
            seeds == spec_seeds(unindexed(group@)),
            seeds.0 < seeds.1 < group.len(),
    {
        let ghost rectangles = unindexed(group@);
        let seed1;
        let seed2;
        let first = &group[0].1;
        let mut stats_x = DimExtremes::new(first.low.x, first.high.x, 0);
        let mut stats_y = DimExtremes::new(first.low.y, first.high.y, 0);
        let mut i: usize = 0;
        while i < group.len()
            invariant
                i <= group.len(),
                rectangles == unindexed(group@),
                is_indexed(group@),
                stats_x == extremes_x(rectangles, i as nat),
                stats_y == extremes_y(rectangles, i as nat),
            decreases group.len() - i,
        {
            let idx = group[i].0;
            let rect = &group[i].1;
            stats_x.update(rect.low.x, rect.high.x, idx);
            stats_y.update(rect.low.y, rect.high.y, idx);
            i += 1;
        }
        proof {
            assert forall|i: int| 0 <= i < rectangles.len() implies (
            #[trigger] rectangles[i]).within_limit() by {
                assert(group@[i].1.within_limit());
            }
            lemma_extremes_in_range(rectangles, rectangles.len());
            lemma_seeds_in_range(rectangles);
        }
        let normalized_x = stats_x.normalized();
        let normalized_y = stats_y.normalized();
        proof {
            lemma_exceeds(
                normalized_x,
                normalized_y,
                stats_x.spec_far(),
                stats_x.spec_near(),
                stats_y.spec_far(),
                stats_y.spec_near(),
            );
        }

        if normalized_x.exceeds(&normalized_y) {
            seed1 = stats_x.low_idx;
            seed2 = stats_x.high_idx;
        } else {
            seed1 = stats_y.low_idx;
            seed2 = stats_y.high_idx;
        }

        if seed1 < seed2 {
            (seed1, seed2)
        } else if seed1 > seed2 {
            (seed2, seed1)
        } else if seed1 == 0 {
            (0, 1)
        } else {
            (0, seed1)
        }
    }

    /// The two groups into which a run of at least two rectangles is split:
    /// see `spec_linear_partition`. The two seeds leave `group`.
    pub fn linear_partition(group: &mut Vec<(usize, Rectangle<T>)>) -> (groups: (
        Vec<usize>,
        Vec<usize>,
    ))
        requires
            old(group).len() >= 2,
            is_indexed(old(group)@),
            forall|i: int| 0 <= i < old(group).len() ==> (#[trigger] old(group)@[i]).1.within_limit(),
        ensures
            (groups.0@, groups.1@) == spec_linear_partition(unindexed(old(group)@)),
            final(group)@ == old(group)@.remove(
                spec_seeds(unindexed(old(group)@)).1 as int,
            ).remove(spec_seeds(unindexed(old(group)@)).0 as int),
    {
        let ghost n = group@.len();
        let (seed1, seed2) = Self::pick_seeds(group);
        let ghost rest = others(n, (seed1, seed2));
        let mut group2 = vec![group.remove(seed2).0];
        let mut group1 = vec![group.remove(seed1).0];
        let ghost even = |i: usize| i % 2 == 0;
        let ghost odd = |i: usize| i % 2 != 0;
        proof {
            assert(group@.map_values(|pair: (usize, Rectangle<T>)| pair.0) =~= rest);
            assert(rest.take(0) =~= Seq::<usize>::empty());
            assert(rest.take(0).filter(even) =~= Seq::<usize>::empty()) by {
                rest.take(0).lemma_filter_len(even);
            }
            assert(rest.take(0).filter(odd) =~= Seq::<usize>::empty()) by {
                rest.take(0).lemma_filter_len(odd);
            }
            assert(group1@ =~= seq![seed1] + rest.take(0).filter(even));
            assert(group2@ =~= seq![seed2] + rest.take(0).filter(odd));
        }
        let mut j: usize = 0;
        while j < group.len()
            invariant
                j <= group.len(),
                group@.len() == rest.len(),
                forall|k: int| 0 <= k < group@.len() ==> (#[trigger] group@[k]).0 == rest[k],
                even == |i: usize| i % 2 == 0,
                odd == |i: usize| i % 2 != 0,
                group1@ == seq![seed1] + rest.take(j as int).filter(even),
                group2@ == seq![seed2] + rest.take(j as int).filter(odd),
            decreases group.len() - j,
        {
            let idx = group[j].0;
            proof {
                assert(rest.take(j + 1) =~= rest.take(j as int).push(idx));
                rest.take(j as int).lemma_filter_push(idx, even);
                rest.take(j as int).lemma_filter_push(idx, odd);
            }
            if idx % 2 == 0 {
                group1.push(idx);
                assert(group1@ =~= seq![seed1] + rest.take(j + 1).filter(even));
            } else {
                group2.push(idx);
                assert(group2@ =~= seq![seed2] + rest.take(j + 1).filter(odd));
            }
            j += 1;
        }
        assert(rest.take(j as int) =~= rest);
        (group1, group2)
    }

    /// The two halves are what a split of `self` is to give: well-formed
    /// children on the level of `self` that between them hold the records of
    /// `self`, and whose boxes merge into the box of `self`.
    pub open spec fn is_split_into(
        self,
        left: ChildRecord<T, O>,
        right: ChildRecord<T, O>,
        config: Config,
    ) -> bool {
        &&& left.well_formed(config)
        &&& right.well_formed(config)
        &&& left.1.spec_level() == self.spec_level()
        &&& right.1.spec_level() == self.spec_level()
        &&& left.1.records().to_multiset().add(right.1.records().to_multiset())
            == self.records().to_multiset()
        &&& left.0.spec_merge(right.0) == self.spec_mbb()
    }

    /// This node is `source` without its entries: of the same kind and level,
    /// and empty.
    pub open spec fn is_emptied(self, source: Self) -> bool {
        match (self, source) {
            (Entry::Leaf { children }, Entry::Leaf { .. }) => children@.len() == 0,
            (Entry::NonLeaf { level, children }, Entry::NonLeaf { level: source_level, .. }) => {
                level == source_level && children@.len() == 0
            },
            _ => false,
        }
    }

    /// The two halves are those of a split of this node: the first holds the
    /// entries at the positions of the first group of `linear_partition`, the
    /// second the others, both the last first, and each half has the bounding
    /// box of its entries as its cached rectangle.
    pub open spec fn splits_into(self, left: ChildRecord<T, O>, right: ChildRecord<T, O>) -> bool {
        let chosen = spec_linear_partition(self.rectangles()).0.to_set();
        &&& left.1.holds_entries_of(self, chosen, true)
        &&& right.1.holds_entries_of(self, chosen, false)
        &&& left.0 == left.1.spec_mbb()
        &&& right.0 == right.1.spec_mbb()
    }

    /// Splits the node where it holds more entries than the configuration
    /// allows. Its entries then leave it for two new nodes of its kind and
    /// level: into the first go those at the positions of the first group of
    /// `linear_partition`, into the second the others, in both the last first.
    pub fn try_split(&mut self, config: &Config) -> (result: InsertionResult<T, O>)
        requires
            config.valid(),
            old(self).well_formed(*config),
            old(self).spec_len() <= config.maximum_entries_per_node + 1,
        ensures
            match result {
                InsertionResult::NoSplit => {
                    &&& old(self).spec_len() <= config.maximum_entries_per_node
                    &&& *final(self) == *old(self)
                },
                InsertionResult::Split(left, right) => {
                    &&& old(self).spec_len() == config.maximum_entries_per_node + 1
                    &&& final(self).is_emptied(*old(self))
                    &&& old(self).splits_into(left, right)
                    &&& old(self).is_split_into(left, right, *config)
                },
            },
    {
        let to_split = self.indexed_mbbs(config);
        match to_split {
            None => InsertionResult::NoSplit,
            Some(mut group) => {
                let ghost rectangles = self.rectangles();
                let ghost seeds = spec_seeds(rectangles);
                let ghost chosen = spec_linear_partition(rectangles).0.to_set();
                proof {
                    assert forall|i: int| 0 <= i < rectangles.len() implies (
                    #[trigger] rectangles[i]).within_limit() by {
                        match *self {
                            Entry::Leaf { children } => {
                                assert(children@[i].0.within_limit());
                            },
                            Entry::NonLeaf { children, .. } => {
                                assert(children@[i].well_formed(*config));
                            },
                        }
                    }
                    assert forall|i: int| 0 <= i < group@.len() implies (
                    #[trigger] group@[i]).1.within_limit() by {
                        assert(unindexed(group@)[i] == group@[i].1);
                    }
                    assert(rectangles.len() == group.len());
                    lemma_first_group(rectangles);
                    lemma_seeds_in_range(rectangles);
                }
                let (left, _) = Self::linear_partition(&mut group);
                let left_lookup = lookup_of(left);
                match self {
                    Entry::Leaf { children } => {
                        let ghost all = children@;
                        let ghost rect_of = |r: ObjectRecord<T, O>| r.0;
                        let (left, right) = distribute(children, &left_lookup);
                        let left = Entry::Leaf { children: left };
                        let right = Entry::Leaf { children: right };
                        proof {
                            lemma_halves_fit(all, chosen, seeds, *config);
                            lemma_taken_down(all, chosen, true, 0);
                            lemma_taken_down(all, chosen, false, 0);
                            lemma_taken_content(all, chosen, 0);
                            assert(all.skip(0) =~= all);
                            assert(rectangles =~= all.map_values(rect_of));
                            assert forall|i: int| 0 <= i < all.len() implies rect_of(
                                #[trigger] all[i],
                            ).within_limit() by {
                                assert(rectangles[i].within_limit());
                            }
                            lemma_halves_boxes(all, chosen, rect_of);
                            assert(left.rectangles() =~= taken_down(all, chosen, true, 0).map_values(
                                rect_of,
                            ));
                            assert(right.rectangles() =~= taken_down(
                                all,
                                chosen,
                                false,
                                0,
                            ).map_values(rect_of));
                            assert forall|j: int|
                                0 <= j < left.spec_len() implies left.rectangles()[j].within_limit() by {
                                let taken = taken_down(all, chosen, true, 0);
                                assert(all.contains(taken[j]));
                            }
                            assert forall|j: int|
                                0 <= j < right.spec_len() implies right.rectangles()[j].within_limit() by {
                                let taken = taken_down(all, chosen, false, 0);
                                assert(all.contains(taken[j]));
                            }
                        }
                        InsertionResult::Split(ChildRecord::new(left), ChildRecord::new(right))
                    },
                    Entry::NonLeaf { children, level } => {
                        let ghost all = children@;
                        let ghost rect_of = |c: ChildRecord<T, O>| c.0;
                        let (left, right) = distribute(children, &left_lookup);
                        let left = Entry::NonLeaf { level: *level, children: left };
                        let right = Entry::NonLeaf { level: *level, children: right };
                        proof {
                            lemma_halves_fit(all, chosen, seeds, *config);
                            lemma_taken_down(all, chosen, true, 0);
                            lemma_taken_down(all, chosen, false, 0);
                            lemma_taken_records(all, chosen, 0);
                            assert(all.skip(0) =~= all);
                            assert(rectangles =~= all.map_values(rect_of));
                            assert forall|i: int| 0 <= i < all.len() implies rect_of(
                                #[trigger] all[i],
                            ).within_limit() by {
                                assert(rectangles[i].within_limit());
                            }
                            lemma_halves_boxes(all, chosen, rect_of);
                            assert(left.rectangles() =~= taken_down(all, chosen, true, 0).map_values(
                                rect_of,
                            ));
                            assert(right.rectangles() =~= taken_down(
                                all,
                                chosen,
                                false,
                                0,
                            ).map_values(rect_of));
                            assert forall|j: int| 0 <= j < left.spec_len() implies {
                                &&& (#[trigger] taken_down(
                                    all,
                                    chosen,
                                    true,
                                    0,
                                )[j]).1.spec_level() + 1 == *level
                                &&& taken_down(all, chosen, true, 0)[j].well_formed(*config)
                            } by {
                                let taken = taken_down(all, chosen, true, 0);
                                assert(all.contains(taken[j]));
                            }
                            assert forall|j: int| 0 <= j < right.spec_len() implies {
                                &&& (#[trigger] taken_down(
                                    all,
                                    chosen,
                                    false,
                                    0,
                                )[j]).1.spec_level() + 1 == *level
                                &&& taken_down(all, chosen, false, 0)[j].well_formed(*config)
                            } by {
                                let taken = taken_down(all, chosen, false, 0);
                                assert(all.contains(taken[j]));
                            }
                        }
                        InsertionResult::Split(ChildRecord::new(left), ChildRecord::new(right))
                    },
                }
            },
        }
    }

    /// The rectangles of the node's entries, each with its position, where the
    /// node holds more entries than the configuration allows.
    pub fn indexed_mbbs(&self, config: &Config) -> (to_split: Option<Vec<(usize, Rectangle<T>)>>)
        ensures
            match to_split {
                None => self.spec_len() <= config.maximum_entries_per_node,
                Some(boxes) => {
                    &&& self.spec_len() > config.maximum_entries_per_node
                    &&& is_indexed(boxes@)
                    &&& unindexed(boxes@) == self.rectangles()
                },
            },
    {
        let to_split = match self {
            Entry::Leaf { children } => {
                if children.len() > config.maximum_entries_per_node {
                    let mut boxes: Vec<(usize, Rectangle<T>)> = Vec::new();
                    let mut i: usize = 0;
                    while i < children.len()
                        invariant
                            i <= children.len(),
                            boxes@.len() == i,
                            forall|k: int|
                                0 <= k < i ==> #[trigger] boxes@[k] == (k as usize, children@[k].0),
                        decreases children.len() - i,
                    {
                        boxes.push((i, children[i].0));
                        i += 1;
                    }
                    assert(unindexed(boxes@) =~= self.rectangles());
                    Some(boxes)
                } else {
                    None
                }
            },
            Entry::NonLeaf { children, .. } => {
                if children.len() > config.maximum_entries_per_node {
                    let mut boxes: Vec<(usize, Rectangle<T>)> = Vec::new();
                    let mut i: usize = 0;
                    while i < children.len()
                        invariant
                            i <= children.len(),
                            boxes@.len() == i,
                            forall|k: int|
                                0 <= k < i ==> #[trigger] boxes@[k] == (k as usize, children@[k].0),
                        decreases children.len() - i,
                    {
                        boxes.push((i, children[i].0));
                        i += 1;
                    }
                    assert(unindexed(boxes@) =~= self.rectangles());
                    Some(boxes)
                } else {
                    None
                }
            },
        };
        to_split
    }
}

} // verus!
