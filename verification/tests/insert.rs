use spatial_index::geometry2d::{Point, Rectangle, Spacial};
use spatial_index::r_tree::insert::choose_subtree;
use spatial_index::r_tree::{
    ChildRecord, Config, Entry, InsertionResult, ObjectRecord, Orphan, RTree,
};

type Node = Entry<i64, u32>;

fn rect(x0: i64, y0: i64, x1: i64, y1: i64) -> Rectangle<i64> {
    Rectangle { low: Point::new(x0, y0), high: Point::new(x1, y1) }
}

fn record(x0: i64, y0: i64, x1: i64, y1: i64, id: u32) -> ObjectRecord<i64, u32> {
    ObjectRecord(rect(x0, y0, x1, y1), id)
}

fn indexed(rects: &[Rectangle<i64>]) -> Vec<(usize, Rectangle<i64>)> {
    rects.iter().cloned().enumerate().collect()
}

fn along_x() -> Vec<Rectangle<i64>> {
    (0..5).map(|i| rect(i * 10, 0, i * 10 + 1, 1)).collect()
}

fn ids(entry: &Node) -> Vec<u32> {
    match entry {
        Entry::Leaf { children } => children.iter().map(|r| r.1).collect(),
        Entry::NonLeaf { children, .. } => children.iter().flat_map(|c| ids(&c.1)).collect(),
    }
}

fn leaf(records: Vec<ObjectRecord<i64, u32>>) -> Node {
    Entry::Leaf { children: records }
}

fn child(entry: Node) -> ChildRecord<i64, u32> {
    ChildRecord(entry.mbb(), entry)
}

/// Three rectangles that overlap along x and are level along y.
fn overlapping_x() -> Vec<Rectangle<i64>> {
    vec![rect(0, 0, 10, 10), rect(2, 0, 30, 10), rect(8, 0, 12, 10)]
}

#[test]
fn seeds_along_x_where_its_quotient_exceeds() {
    // x: extent 30 over a gap of 10 - 8; y: extent 10 over a gap of 10.
    // The highest low side is that of entry 2, the lowest high side that of
    // entry 0.
    assert_eq!(Node::pick_seeds(&indexed(&overlapping_x())), (0, 2));
    // the same with the entries in another order: the seeds come lower index first
    let rects = [rect(8, 0, 12, 10), rect(0, 0, 10, 10), rect(2, 0, 30, 10)];
    assert_eq!(Node::pick_seeds(&indexed(&rects)), (0, 1));
}

#[test]
fn seeds_along_y_unless_x_exceeds() {
    // the same along y
    let rects = [rect(0, 0, 10, 10), rect(0, 2, 10, 30), rect(0, 8, 10, 12)];
    assert_eq!(Node::pick_seeds(&indexed(&rects)), (0, 2));
    // both axes alike: y
    let square = [rect(0, 0, 10, 10), rect(2, 2, 30, 30), rect(8, 8, 12, 12)];
    assert_eq!(Node::pick_seeds(&indexed(&square)), (0, 2));
    // nothing by nothing on both axes: y, and one entry is both seeds
    let same = [rect(0, 0, 0, 0), rect(0, 0, 0, 0), rect(0, 0, 0, 0)];
    assert_eq!(Node::pick_seeds(&indexed(&same)), (0, 1));
}

#[test]
fn seeds_of_rectangles_in_a_row() {
    // x: extent 41 over a gap of 1 - 40, which is -1; y: extent 1 over a gap
    // of 1. Along y entry 0 is both seeds, so entry 1 takes the place of one.
    assert_eq!(Node::pick_seeds(&indexed(&along_x())), (0, 1));
    // a seed that is not entry 0 twice: entry 0 takes the place of one
    let rects = [rect(0, 0, 10, 10), rect(0, 5, 10, 8), rect(0, 0, 10, 10)];
    assert_eq!(Node::pick_seeds(&indexed(&rects)), (0, 1));
}

#[test]
fn partition_alternates() {
    let mut group = indexed(&along_x());
    let (first, second) = Node::linear_partition(&mut group);
    assert_eq!(first, vec![0, 2, 4]);
    assert_eq!(second, vec![1, 3]);
    assert_eq!(group.iter().map(|g| g.0).collect::<Vec<_>>(), vec![2, 3, 4]);

    let mut three = indexed(&overlapping_x());
    let (first, second) = Node::linear_partition(&mut three);
    assert_eq!(first, vec![0]);
    assert_eq!(second, vec![2, 1]);

    let mut two = indexed(&[rect(0, 0, 1, 1), rect(5, 5, 6, 6)]);
    let (first, second) = Node::linear_partition(&mut two);
    assert_eq!(first, vec![0]);
    assert_eq!(second, vec![1]);
    assert!(two.is_empty());
}

#[test]
fn partition_can_leave_one_group_small() {
    // seeds 1 and 3: the even entries all join the first
    let rects =
        [rect(0, 0, 20, 10), rect(0, 0, 10, 10), rect(0, 0, 20, 10), rect(8, 0, 20, 10), rect(0, 0, 20, 10)];
    let mut group = indexed(&rects);
    assert_eq!(Node::pick_seeds(&group), (1, 3));
    let (first, second) = Node::linear_partition(&mut group);
    assert_eq!(first, vec![1, 0, 2, 4]);
    assert_eq!(second, vec![3]);
}

#[test]
fn boxes_with_their_positions() {
    let config = Config::new(4, 2).unwrap();
    let records: Vec<_> =
        along_x().into_iter().enumerate().map(|(i, r)| ObjectRecord(r, i as u32)).collect();
    let full = leaf(records.clone());
    let boxes = full.indexed_mbbs(&config).unwrap();
    assert_eq!(boxes, indexed(&along_x()));
    let fits = leaf(records[..4].to_vec());
    assert!(fits.indexed_mbbs(&config).is_none());
    let node = Entry::NonLeaf { level: 1, children: vec![child(fits)] };
    assert!(node.indexed_mbbs(&config).is_none());
}

#[test]
fn split_of_a_leaf() {
    let config = Config::new(4, 2).unwrap();
    let records: Vec<_> =
        along_x().into_iter().enumerate().map(|(i, r)| ObjectRecord(r, i as u32)).collect();
    let mut full = leaf(records);
    match full.try_split(&config) {
        InsertionResult::Split(left, right) => {
            assert_eq!(ids(&left.1), vec![4, 2, 0]);
            assert_eq!(ids(&right.1), vec![3, 1]);
            assert_eq!(left.0, rect(0, 0, 41, 1));
            assert_eq!(right.0, rect(10, 0, 31, 1));
            assert!(matches!(left.1, Entry::Leaf { .. }));
            assert!(matches!(right.1, Entry::Leaf { .. }));
        },
        InsertionResult::NoSplit => panic!("five records are one too many"),
    }
    assert_eq!(full.len(), 0);
}

#[test]
fn no_split_without_overflow() {
    let config = Config::new(4, 2).unwrap();
    let mut fits = leaf(vec![record(0, 0, 1, 1, 1), record(2, 2, 3, 3, 2)]);
    assert!(matches!(fits.try_split(&config), InsertionResult::NoSplit));
    assert_eq!(ids(&fits), vec![1, 2]);
}

#[test]
fn split_of_an_inner_node_keeps_its_level() {
    let config = Config::new(4, 2).unwrap();
    let children: Vec<_> = (0..5)
        .map(|i| {
            child(leaf(vec![
                record(i * 10, 0, i * 10 + 1, 1, (2 * i) as u32),
                record(i * 10, 0, i * 10 + 1, 1, (2 * i + 1) as u32),
            ]))
        })
        .collect();
    let mut node = Entry::NonLeaf { level: 1, children };
    match node.try_split(&config) {
        InsertionResult::Split(left, right) => {
            assert_eq!(left.1.level(), 1);
            assert_eq!(right.1.level(), 1);
            assert_eq!(ids(&left.1), vec![8, 9, 4, 5, 0, 1]);
            assert_eq!(ids(&right.1), vec![6, 7, 2, 3]);
            assert_eq!(left.0, rect(0, 0, 41, 1));
            assert_eq!(right.0, rect(10, 0, 31, 1));
        },
        InsertionResult::NoSplit => panic!("five children are one too many"),
    }
}

#[test]
fn least_enlargement_wins() {
    let a = child(leaf(vec![record(0, 0, 10, 10, 1)]));
    let b = child(leaf(vec![record(20, 20, 30, 30, 2)]));
    let children = vec![a, b];
    // into the first: 144 - 100; into the second: 361 - 100
    assert_eq!(choose_subtree(&children, &rect(11, 11, 12, 12)), (0, rect(0, 0, 12, 12)));
    assert_eq!(choose_subtree(&children, &rect(19, 19, 21, 21)), (1, rect(19, 19, 30, 30)));
    assert_eq!(choose_subtree(&children, &rect(22, 22, 23, 23)), (1, rect(20, 20, 30, 30)));
}

#[test]
fn smaller_area_breaks_ties() {
    let big = child(leaf(vec![record(0, 0, 10, 10, 1)]));
    let small = child(leaf(vec![record(2, 2, 4, 4, 2)]));
    let twin = child(leaf(vec![record(2, 2, 4, 4, 3)]));
    // no child grows: the smallest merged area wins, the first of equals
    let children = vec![big, small, twin];
    assert_eq!(choose_subtree(&children, &rect(3, 3, 3, 3)), (1, rect(2, 2, 4, 4)));
}

#[test]
fn insert_into_a_leaf() {
    let config = Config::new(4, 2).unwrap();
    let mut node = leaf(vec![record(0, 0, 1, 1, 1)]);
    let result = node.insert(&config, Orphan::Record(record(5, 5, 6, 6, 2)));
    assert!(matches!(result, InsertionResult::NoSplit));
    assert_eq!(ids(&node), vec![1, 2]);
}

#[test]
fn insert_descends_and_grows_the_box() {
    let config = Config::new(4, 2).unwrap();
    let a = child(leaf(vec![record(0, 0, 10, 10, 1), record(1, 1, 2, 2, 2)]));
    let b = child(leaf(vec![record(20, 20, 30, 30, 3), record(21, 21, 22, 22, 4)]));
    let mut node = Entry::NonLeaf { level: 1, children: vec![a, b] };
    let result = node.insert(&config, Orphan::Record(record(11, 11, 12, 12, 5)));
    assert!(matches!(result, InsertionResult::NoSplit));
    match &node {
        Entry::NonLeaf { children, .. } => {
            assert_eq!(children[0].0, rect(0, 0, 12, 12));
            assert_eq!(ids(&children[0].1), vec![1, 2, 5]);
            assert_eq!(children[1].0, rect(20, 20, 30, 30));
        },
        _ => panic!("the node stays an inner node"),
    }
}

#[test]
fn insert_replaces_a_split_child_by_its_halves() {
    let config = Config::new(4, 2).unwrap();
    let records: Vec<_> =
        along_x().into_iter().take(4).enumerate().map(|(i, r)| ObjectRecord(r, i as u32)).collect();
    let a = child(leaf(records));
    let b = child(leaf(vec![record(0, 50, 1, 51, 8), record(0, 52, 1, 53, 9)]));
    let mut node = Entry::NonLeaf { level: 1, children: vec![a, b] };
    let result = node.insert(&config, Orphan::Record(record(40, 0, 41, 1, 4)));
    assert!(matches!(result, InsertionResult::NoSplit));
    match &node {
        Entry::NonLeaf { children, .. } => {
            assert_eq!(children.len(), 3);
            assert_eq!(ids(&children[0].1), vec![8, 9]);
            assert_eq!(ids(&children[1].1), vec![4, 2, 0]);
            assert_eq!(ids(&children[2].1), vec![3, 1]);
        },
        _ => panic!("the node stays an inner node"),
    }
}

#[test]
fn subtree_goes_one_level_above_its_own() {
    let config = Config::new(4, 2).unwrap();
    let a = child(leaf(vec![record(0, 0, 10, 10, 1), record(1, 1, 2, 2, 2)]));
    let b = child(leaf(vec![record(20, 20, 30, 30, 3), record(21, 21, 22, 22, 4)]));
    let inner = child(Entry::NonLeaf { level: 1, children: vec![a, b] });
    let c = child(leaf(vec![record(50, 50, 51, 51, 5), record(52, 52, 53, 53, 6)]));
    let other = child(Entry::NonLeaf { level: 1, children: vec![c] });
    let mut root = Entry::NonLeaf { level: 2, children: vec![inner, other] };
    let orphan = child(leaf(vec![record(3, 3, 4, 4, 7), record(5, 5, 6, 6, 8)]));
    let result = root.insert(&config, Orphan::Subtree(orphan));
    assert!(matches!(result, InsertionResult::NoSplit));
    match &root {
        Entry::NonLeaf { children, .. } => match &children[0].1 {
            Entry::NonLeaf { level, children } => {
                assert_eq!(*level, 1);
                assert_eq!(children.len(), 3);
                assert_eq!(ids(&children[2].1), vec![7, 8]);
            },
            _ => panic!("the first child is an inner node"),
        },
        _ => panic!("the root is an inner node"),
    }
}

#[test]
fn place_into_an_empty_tree() {
    let mut tree = RTree::<i64, u32>::new(4, 2).unwrap();
    tree.place(Orphan::Record(record(0, 0, 1, 1, 1)));
    assert_eq!(ids(tree.root.as_ref().unwrap()), vec![1]);
    let mut tree = RTree::<i64, u32>::new(4, 2).unwrap();
    let sub = child(leaf(vec![record(3, 3, 4, 4, 7), record(5, 5, 6, 6, 8)]));
    tree.place(Orphan::Subtree(sub));
    assert!(matches!(tree.root, Some(Entry::Leaf { .. })));
    assert_eq!(ids(tree.root.as_ref().unwrap()), vec![7, 8]);
}

#[test]
fn place_beside_the_root() {
    let mut tree = RTree::<i64, u32>::new(4, 2).unwrap();
    tree.insert(record(0, 0, 1, 1, 1));
    tree.insert(record(2, 2, 3, 3, 2));
    let sub = child(leaf(vec![record(3, 3, 4, 4, 7), record(5, 5, 6, 6, 8)]));
    tree.place(Orphan::Subtree(sub));
    match &tree.root {
        Some(Entry::NonLeaf { level, children }) => {
            assert_eq!(*level, 1);
            assert_eq!(children.len(), 2);
            assert_eq!(children[0].0, rect(0, 0, 3, 3));
            assert_eq!(ids(&children[0].1), vec![1, 2]);
            assert_eq!(ids(&children[1].1), vec![7, 8]);
        },
        _ => panic!("a new root holds the old root and its sibling"),
    }
    assert!(tree.has_room_to_insert());
    assert!(tree.has_room_to_delete());
}

#[test]
fn limits_of_the_coordinates() {
    let l: i64 = 1_073_741_823;
    assert!(rect(-l, -l, l, l).is_within_limit());
    assert!(!rect(-l - 1, 0, 0, 0).is_within_limit());
    assert!(!rect(0, 0, 0, l + 1).is_within_limit());
    assert!(Point::new(l, -l).is_within_limit());
    assert!(!Point::new(l + 1, 0).is_within_limit());
    let s: i32 = 16_383;
    assert!(Point::new(s, -s).is_within_limit());
    assert!(!Point::new(s + 1, 0).is_within_limit());
}
