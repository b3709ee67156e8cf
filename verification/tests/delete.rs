use spatial_index::geometry2d::{Point, Rectangle, Spacial};
use spatial_index::r_tree::{
    ChildRecord, Config, DeleteResult, Entry, ObjectRecord, Orphan, RTree,
};

type Node = Entry<i64, u32>;

fn rect(x0: i64, y0: i64, x1: i64, y1: i64) -> Rectangle<i64> {
    Rectangle { low: Point::new(x0, y0), high: Point::new(x1, y1) }
}

fn record(x0: i64, y0: i64, x1: i64, y1: i64, id: u32) -> ObjectRecord<i64, u32> {
    ObjectRecord(rect(x0, y0, x1, y1), id)
}

fn leaf(records: Vec<ObjectRecord<i64, u32>>) -> Node {
    Entry::Leaf { children: records }
}

fn child(entry: Node) -> ChildRecord<i64, u32> {
    ChildRecord(entry.mbb(), entry)
}

fn ids(entry: &Node) -> Vec<u32> {
    match entry {
        Entry::Leaf { children } => children.iter().map(|r| r.1).collect(),
        Entry::NonLeaf { children, .. } => children.iter().flat_map(|c| ids(&c.1)).collect(),
    }
}

fn orphan_ids(orphans: &[Orphan<i64, u32>]) -> Vec<Vec<u32>> {
    orphans
        .iter()
        .map(|o| match o {
            Orphan::Record(r) => vec![r.1],
            Orphan::Subtree(c) => ids(&c.1),
        })
        .collect()
}

/// Three leaves of two records each, side by side.
fn three_leaves() -> Node {
    let leaves: Vec<_> = (0..3)
        .map(|i| {
            child(leaf(vec![
                record(i * 10, 0, i * 10 + 2, 2, (2 * i) as u32),
                record(i * 10 + 3, 3, i * 10 + 5, 5, (2 * i + 1) as u32),
            ]))
        })
        .collect();
    Entry::NonLeaf { level: 1, children: leaves }
}

#[test]
fn locate_gives_the_way_from_the_leaf_up() {
    let node = three_leaves();
    assert_eq!(node.locate(&record(13, 3, 15, 5, 3)), Some(vec![1, 1]));
    assert_eq!(node.locate(&record(0, 0, 2, 2, 0)), Some(vec![0, 0]));
    assert_eq!(node.locate(&record(0, 0, 2, 2, 9)), None);
    // the rectangle guides the search: record 3 is not under a box that it misses
    assert_eq!(node.locate(&record(0, 0, 2, 2, 3)), None);
    // but a rectangle that meets the right box will do
    assert_eq!(node.locate(&record(15, 5, 100, 100, 3)), Some(vec![1, 1]));
    let flat = leaf(vec![record(0, 0, 1, 1, 5), record(2, 2, 3, 3, 6), record(4, 4, 5, 5, 6)]);
    assert_eq!(flat.locate(&record(50, 50, 51, 51, 6)), Some(vec![1]));
    assert_eq!(flat.locate(&record(0, 0, 1, 1, 7)), None);
}

#[test]
fn delete_from_a_leaf_that_stays() {
    let config = Config::new(4, 2).unwrap();
    let mut node = leaf(vec![record(0, 0, 1, 1, 1), record(2, 2, 3, 3, 2), record(4, 4, 5, 5, 3)]);
    assert!(matches!(node.delete(&config, &record(0, 0, 0, 0, 2)), DeleteResult::Success));
    assert_eq!(ids(&node), vec![1, 3]);
    assert!(matches!(node.delete(&config, &record(0, 0, 0, 0, 2)), DeleteResult::NoSuchRecord));
    assert_eq!(ids(&node), vec![1, 3]);
}

#[test]
fn delete_dissolves_a_leaf_under_the_minimum() {
    let config = Config::new(6, 3).unwrap();
    let mut node = leaf(vec![record(0, 0, 1, 1, 1), record(2, 2, 3, 3, 2), record(4, 4, 5, 5, 3)]);
    match node.delete(&config, &record(0, 0, 0, 0, 2)) {
        DeleteResult::Dissolved(orphans, true) => {
            assert_eq!(orphan_ids(&orphans), vec![vec![1], vec![3]]);
        },
        _ => panic!("two records are under the minimum of three"),
    }
    assert_eq!(node.len(), 0);
}

#[test]
fn delete_refreshes_the_box() {
    let config = Config::new(4, 2).unwrap();
    let wide = child(leaf(vec![
        record(0, 0, 1, 1, 1),
        record(2, 2, 3, 3, 2),
        record(8, 8, 9, 9, 3),
    ]));
    let other = child(leaf(vec![record(20, 20, 21, 21, 4), record(22, 22, 23, 23, 5)]));
    let mut node = Entry::NonLeaf { level: 1, children: vec![wide, other] };
    assert!(matches!(node.delete(&config, &record(8, 8, 9, 9, 3)), DeleteResult::Success));
    match &node {
        Entry::NonLeaf { children, .. } => {
            assert_eq!(children[0].0, rect(0, 0, 3, 3));
            assert_eq!(children[1].0, rect(20, 20, 23, 23));
        },
        _ => panic!("the node stays an inner node"),
    }
}

#[test]
fn dissolved_child_leaves_its_parent() {
    let config = Config::new(4, 2).unwrap();
    let mut node = three_leaves();
    match node.delete(&config, &record(0, 0, 2, 2, 0)) {
        DeleteResult::Dissolved(orphans, false) => {
            assert_eq!(orphan_ids(&orphans), vec![vec![1]]);
        },
        _ => panic!("the first leaf dissolves, its parent stays"),
    }
    assert_eq!(ids(&node), vec![2, 3, 4, 5]);
}

#[test]
fn dissolution_cascades() {
    let config = Config::new(6, 3).unwrap();
    let mut node = three_leaves();
    match node.delete(&config, &record(10, 0, 12, 2, 2)) {
        DeleteResult::Dissolved(orphans, true) => {
            assert_eq!(orphan_ids(&orphans), vec![vec![3], vec![0, 1], vec![4, 5]]);
            assert!(matches!(orphans[0], Orphan::Record(_)));
            assert!(matches!(orphans[1], Orphan::Subtree(_)));
        },
        _ => panic!("two children are under the minimum of three"),
    }
    assert_eq!(node.len(), 0);
}

#[test]
fn box_of_a_child_that_stays_is_refreshed() {
    let config = Config::new(4, 2).unwrap();
    let inner = child(three_leaves());
    let far = child(Entry::NonLeaf {
        level: 1,
        children: vec![
            child(leaf(vec![record(50, 50, 51, 51, 10), record(52, 52, 53, 53, 11)])),
            child(leaf(vec![record(60, 60, 61, 61, 12), record(62, 62, 63, 63, 13)])),
        ],
    });
    assert_eq!(inner.0, rect(0, 0, 25, 5));
    let mut root = Entry::NonLeaf { level: 2, children: vec![inner, far] };
    match root.delete(&config, &record(0, 0, 2, 2, 0)) {
        DeleteResult::Dissolved(orphans, false) => {
            assert_eq!(orphan_ids(&orphans), vec![vec![1]]);
        },
        _ => panic!("a leaf dissolves two levels below"),
    }
    match &root {
        Entry::NonLeaf { children, .. } => assert_eq!(children[0].0, rect(10, 0, 25, 5)),
        _ => panic!("the root stays an inner node"),
    }
}

#[test]
fn remove_along_a_path() {
    let config = Config::new(4, 2).unwrap();
    let mut node = three_leaves();
    // a copy of the way: the function takes it apart from its end
    let mut path = vec![0, 2];
    match node.remove_at(&config, &mut path) {
        DeleteResult::Dissolved(orphans, false) => {
            assert_eq!(orphan_ids(&orphans), vec![vec![5]]);
        },
        _ => panic!("the last leaf dissolves"),
    }
    assert_eq!(ids(&node), vec![0, 1, 2, 3]);
}

#[test]
fn shorten_promotes_an_only_child() {
    let mut tree = RTree::<i64, u32>::new(4, 2).unwrap();
    let only = child(leaf(vec![record(0, 0, 1, 1, 1), record(2, 2, 3, 3, 2)]));
    tree.root = Some(Entry::NonLeaf { level: 1, children: vec![only] });
    tree.shorten();
    assert!(matches!(tree.root, Some(Entry::Leaf { .. })));
    assert_eq!(ids(tree.root.as_ref().unwrap()), vec![1, 2]);
    tree.shorten();
    assert_eq!(ids(tree.root.as_ref().unwrap()), vec![1, 2]);
    let mut wide = RTree::<i64, u32>::new(4, 2).unwrap();
    wide.root = Some(three_leaves());
    wide.shorten();
    assert_eq!(wide.root.as_ref().unwrap().len(), 3);
}

#[test]
fn reinsert_puts_the_last_orphan_back_first() {
    let mut tree = RTree::<i64, u32>::new(4, 2).unwrap();
    let sub = child(leaf(vec![record(0, 0, 1, 1, 1), record(2, 2, 3, 3, 2)]));
    let other = child(leaf(vec![record(10, 10, 11, 11, 3), record(12, 12, 13, 13, 4)]));
    tree.reinsert(vec![
        Orphan::Record(record(1, 1, 2, 2, 9)),
        Orphan::Subtree(sub),
        Orphan::Subtree(other),
    ]);
    match &tree.root {
        Some(Entry::NonLeaf { level, children }) => {
            assert_eq!(*level, 1);
            assert_eq!(ids(&children[0].1), vec![3, 4]);
            assert_eq!(ids(&children[1].1), vec![1, 2, 9]);
        },
        _ => panic!("two leaves under a new root"),
    }
}

#[test]
fn delete_puts_orphans_back() {
    let mut tree = RTree::<i64, u32>::new(4, 2).unwrap();
    tree.root = Some(three_leaves());
    assert!(tree.delete(record(0, 0, 2, 2, 0)));
    let mut found = tree.search_area(&rect(0, 0, 100, 100));
    found.sort();
    assert_eq!(found, vec![1, 2, 3, 4, 5]);
    match &tree.root {
        Some(Entry::NonLeaf { children, .. }) => {
            assert_eq!(children.len(), 2);
            assert_eq!(ids(&children[0].1), vec![2, 3, 1]);
            assert_eq!(children[0].0, rect(3, 0, 15, 5));
        },
        _ => panic!("two leaves are left"),
    }
}

#[test]
fn root_that_dissolves_is_rebuilt() {
    let mut tree = RTree::<i64, u32>::new(4, 2).unwrap();
    let a = child(leaf(vec![record(0, 0, 1, 1, 1), record(2, 2, 3, 3, 2)]));
    let b = child(leaf(vec![record(10, 10, 11, 11, 3), record(12, 12, 13, 13, 4)]));
    tree.root = Some(Entry::NonLeaf { level: 1, children: vec![a, b] });
    assert!(tree.delete(record(0, 0, 1, 1, 1)));
    // the second leaf becomes the root and takes the orphan in
    match &tree.root {
        Some(Entry::Leaf { children }) => {
            assert_eq!(children.iter().map(|r| r.1).collect::<Vec<_>>(), vec![3, 4, 2]);
        },
        _ => panic!("one leaf is left"),
    }
}

/// A chain of inner nodes with one child each above a leaf with one record.
fn chain(x: i64, id: u32, levels: usize) -> ChildRecord<i64, u32> {
    let mut node = child(leaf(vec![record(x, x, x + 1, x + 1, id)]));
    for level in 1..=levels {
        node = child(Entry::NonLeaf { level, children: vec![node] });
    }
    node
}

#[test]
fn a_deletion_shortens_by_one_level_only() {
    // with at most 4 and at least 2 entries a split can leave a node with a
    // single entry; where such nodes stand in a chain, a deletion takes one
    // level off the top and leaves the rest of the chain
    let mut tree = RTree::<i64, u32>::new(4, 2).unwrap();
    tree.root = Some(Entry::NonLeaf { level: 3, children: vec![chain(0, 1, 2), chain(50, 2, 2)] });
    assert!(tree.delete(record(0, 0, 1, 1, 1)));
    assert_eq!(tree.search_area(&rect(0, 0, 100, 100)), vec![2]);
    match &tree.root {
        Some(Entry::NonLeaf { level, children }) => {
            assert_eq!(*level, 1);
            assert_eq!(children.len(), 1);
        },
        _ => panic!("one level of the chain goes, one stays"),
    }
    assert!(tree.delete(record(50, 50, 51, 51, 2)));
    assert!(tree.root.is_none());
}
