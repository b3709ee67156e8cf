use spatial_index::geometry2d::{Coordinate, Point, Rectangle, Spacial};
use spatial_index::r_tree::{ChildRecord, Config, Entry, ObjectRecord, RTree, RTreeError};

fn rect(x0: i64, y0: i64, x1: i64, y1: i64) -> Rectangle<i64> {
    Rectangle { low: Point::new(x0, y0), high: Point::new(x1, y1) }
}

fn record(x0: i64, y0: i64, x1: i64, y1: i64, id: u32) -> ObjectRecord<i64, u32> {
    ObjectRecord(rect(x0, y0, x1, y1), id)
}

fn sorted(mut ids: Vec<u32>) -> Vec<u32> {
    ids.sort();
    ids
}

fn node_floor(config: &Config) -> usize {
    if 2 * config.minimum_entries_per_node == config.maximum_entries_per_node {
        config.minimum_entries_per_node - 1
    } else {
        config.minimum_entries_per_node
    }
}

/// Checks a subtree against the invariant and returns the number of records below it.
fn check_entry(entry: &Entry<i64, u32>, config: &Config) -> usize {
    match entry {
        Entry::Leaf { children } => children.len(),
        Entry::NonLeaf { level, children } => {
            assert!(*level >= 1);
            let mut count = 0;
            for ChildRecord(cached, child) in children {
                assert_eq!(child.level() + 1, *level);
                assert!(child.len() >= node_floor(config));
                assert!(child.len() <= config.maximum_entries_per_node);
                assert_eq!(*cached, child.mbb());
                count += check_entry(child, config);
            }
            count
        },
    }
}

fn check_tree(tree: &RTree<i64, u32>, expected: usize) {
    match &tree.root {
        None => assert_eq!(expected, 0),
        Some(root) => {
            assert!(root.len() >= 1);
            assert!(root.len() <= tree.config.maximum_entries_per_node);
            assert_eq!(check_entry(root, &tree.config), expected);
        },
    }
}

#[test]
fn config_validation() {
    assert!(matches!(RTree::<i64, u32>::new(3, 1), Err(RTreeError::MaxMustBeAtLeastFour)));
    assert!(matches!(RTree::<i64, u32>::new(8, 5), Err(RTreeError::MinMustBeAtMostHalfOfMax)));
    assert!(matches!(RTree::<i64, u32>::new(8, 1), Err(RTreeError::MinMustBeAtLeastTwo)));
    assert!(RTree::<i64, u32>::new(8, 2).is_ok());
    assert_eq!(Config::new(3, 1).unwrap_err(), RTreeError::MaxMustBeAtLeastFour);
    assert_eq!(Config::new(8, 5).unwrap_err(), RTreeError::MinMustBeAtMostHalfOfMax);
    assert_eq!(Config::new(8, 1).unwrap_err(), RTreeError::MinMustBeAtLeastTwo);
    let config = Config::new(8, 4).unwrap();
    assert_eq!(config.maximum_entries_per_node(), 8);
    assert_eq!(config.minimum_entries_per_node(), 4);
}

#[test]
fn three_rectangles() {
    let mut tree = RTree::<i64, u32>::new(4, 2).unwrap();
    tree.insert(record(0, 0, 10, 10, 1));
    tree.insert(record(12, 0, 15, 15, 2));
    tree.insert(record(7, 7, 14, 14, 3));
    check_tree(&tree, 3);
    assert_eq!(sorted(tree.search_area(&rect(5, 5, 7, 7))), vec![1, 3]);
    assert!(tree.delete(record(0, 0, 10, 10, 1)));
    check_tree(&tree, 2);
    assert_eq!(sorted(tree.search_area(&rect(5, 5, 7, 7))), vec![3]);
    assert!(!tree.delete(record(0, 0, 10, 10, 1)));
}

#[test]
fn empty_tree_finds_nothing() {
    let mut tree = RTree::<i64, u32>::new(8, 2).unwrap();
    assert!(tree.root.is_none());
    assert!(tree.search_area(&rect(-100, -100, 100, 100)).is_empty());
    assert!(tree.search_point(&Point::new(0, 0)).is_empty());
    assert!(!tree.delete(record(0, 0, 1, 1, 7)));
    assert!(tree.root.is_none());
}

#[test]
fn search_point_is_closed() {
    let mut tree = RTree::<i64, u32>::new(4, 2).unwrap();
    tree.insert(record(0, 0, 10, 10, 1));
    tree.insert(record(10, 10, 20, 20, 2));
    tree.insert(record(30, 30, 40, 40, 3));
    assert_eq!(sorted(tree.search_point(&Point::new(10, 10))), vec![1, 2]);
    assert_eq!(sorted(tree.search_point(&Point::new(5, 5))), vec![1]);
    assert!(tree.search_point(&Point::new(25, 25)).is_empty());
    assert_eq!(sorted(tree.search_area(&rect(10, 10, 30, 30))), vec![1, 2, 3]);
}

#[test]
fn root_split_adds_one_level() {
    let mut tree = RTree::<i64, u32>::new(4, 2).unwrap();
    for i in 0..4 {
        tree.insert(record(i * 10, 0, i * 10 + 5, 5, i as u32));
    }
    assert!(matches!(tree.root, Some(Entry::Leaf { .. })));
    tree.insert(record(40, 0, 45, 5, 4));
    match &tree.root {
        Some(Entry::NonLeaf { level, children }) => {
            assert_eq!(*level, 1);
            assert_eq!(children.len(), 2);
        },
        _ => panic!("the root did not split"),
    }
    check_tree(&tree, 5);
    assert_eq!(sorted(tree.search_area(&rect(0, 0, 45, 5))), vec![0, 1, 2, 3, 4]);
}

struct Lcg(u64);

impl Lcg {
    fn next(&mut self, bound: u64) -> u64 {
        self.0 = self.0.wrapping_mul(6364136223846793005).wrapping_add(1442695040888963407);
        (self.0 >> 33) % bound
    }
}

fn churn(max: usize, min: usize, seed: u64, rounds: usize) {
    let mut tree = RTree::<i64, u32>::new(max, min).unwrap();
    let mut live: Vec<ObjectRecord<i64, u32>> = Vec::new();
    let mut rng = Lcg(seed);
    let mut next_id = 0u32;
    for _ in 0..rounds {
        let insert = live.is_empty() || rng.next(100) < 60;
        if insert {
            let x = rng.next(200) as i64 - 100;
            let y = rng.next(200) as i64 - 100;
            let w = rng.next(30) as i64;
            let h = rng.next(30) as i64;
            let r = record(x, y, x + w, y + h, next_id);
            next_id += 1;
            tree.insert(r);
            live.push(r);
        } else {
            let at = rng.next(live.len() as u64) as usize;
            let r = live.swap_remove(at);
            assert!(tree.delete(r));
            assert!(!tree.delete(r));
        }
        check_tree(&tree, live.len());
        let x = rng.next(200) as i64 - 100;
        let y = rng.next(200) as i64 - 100;
        let area = rect(x, y, x + 40, y + 40);
        let expected: Vec<u32> =
            sorted(live.iter().filter(|r| r.0.intersects(&area)).map(|r| r.1).collect());
        assert_eq!(sorted(tree.search_area(&area)), expected);
    }
    while let Some(r) = live.pop() {
        assert!(tree.delete(r));
        check_tree(&tree, live.len());
        if live.len() == 1 && !(max == 4 && min == 2) {
            assert!(matches!(tree.root, Some(Entry::Leaf { .. })));
        }
    }
    assert!(tree.root.is_none());
}

#[test]
fn churn_small_fanout() {
    churn(4, 2, 1, 600);
    churn(4, 2, 2, 600);
}

#[test]
fn churn_odd_fanout() {
    churn(5, 2, 3, 600);
    churn(7, 3, 4, 600);
}

#[test]
fn churn_wide_fanout() {
    churn(8, 2, 5, 600);
    churn(8, 4, 6, 600);
    churn(6, 3, 7, 600);
}

#[test]
fn coordinates_of_both_widths() {
    assert_eq!(<i32 as Coordinate>::zero(), 0);
    assert_eq!(<i64 as Coordinate>::zero(), 0);
    let a: Rectangle<i32> = Rectangle { low: Point::new(0, 0), high: Point::new(4, 3) };
    assert_eq!(a.area(), 12);
    let mut tree = RTree::<i32, u64>::new(4, 2).unwrap();
    tree.insert(ObjectRecord(a, 9));
    assert_eq!(tree.search_point(&Point::new(4, 3)), vec![9]);
}

fn min_fanout(entry: &Entry<i64, u32>) -> usize {
    match entry {
        Entry::Leaf { .. } => usize::MAX,
        Entry::NonLeaf { children, .. } => {
            let mut least = usize::MAX;
            for ChildRecord(_, child) in children {
                least = least.min(child.len()).min(min_fanout(child));
            }
            least
        },
    }
}

#[test]
fn split_can_leave_one_less_than_the_minimum() {
    // the fifth record splits the leaf; its seeds are the second record (the
    // lowest high side along x) and the fourth (the highest low side), and the
    // three others all stand at even positions
    let mut tree = RTree::<i64, u32>::new(4, 2).unwrap();
    let sides = [(0, 20), (0, 10), (0, 20), (8, 20), (0, 20)];
    for (id, (low, high)) in sides.iter().enumerate() {
        tree.insert(record(*low, 0, *high, 10, id as u32));
        check_tree(&tree, id + 1);
    }
    match &tree.root {
        Some(Entry::NonLeaf { children, .. }) => {
            assert_eq!(children[0].1.len(), 4);
            assert_eq!(children[1].1.len(), 1);
        },
        _ => panic!("the root did not split"),
    }
    assert_eq!(min_fanout(tree.root.as_ref().unwrap()), 1);
    assert_eq!(sorted(tree.search_area(&rect(0, 0, 30, 30))), (0..5).collect::<Vec<u32>>());
}

#[test]
fn delete_goes_by_the_identifier() {
    let mut tree = RTree::<i64, u32>::new(4, 2).unwrap();
    tree.insert(record(0, 0, 10, 10, 1));
    tree.insert(record(20, 20, 30, 30, 2));
    // a single leaf is searched whole: the rectangle need not match
    assert!(tree.delete(record(100, 100, 101, 101, 2)));
    assert_eq!(tree.search_area(&rect(0, 0, 40, 40)), vec![1]);
    assert!(!tree.delete(record(0, 0, 10, 10, 5)));
    assert_eq!(tree.search_area(&rect(0, 0, 40, 40)), vec![1]);
}

#[test]
fn delete_down_to_nothing() {
    let mut tree = RTree::<i64, u32>::new(5, 2).unwrap();
    let mut all = Vec::new();
    for i in 0..30i64 {
        let r = record(i * 3, (i * 7) % 11, i * 3 + 2, (i * 7) % 11 + 2, i as u32);
        tree.insert(r);
        all.push(r);
    }
    check_tree(&tree, 30);
    while all.len() > 1 {
        let r = all.remove(0);
        assert!(tree.delete(r));
        check_tree(&tree, all.len());
    }
    match &tree.root {
        Some(Entry::Leaf { children }) => {
            assert_eq!(children.len(), 1);
            assert_eq!(children[0].1, 29);
        },
        _ => panic!("a single record must sit in a single leaf"),
    }
    assert!(tree.delete(all[0]));
    assert!(tree.root.is_none());
}

#[test]
fn search_returns_records_in_tree_order() {
    let mut tree = RTree::<i64, u32>::new(8, 2).unwrap();
    for i in 0..6i64 {
        tree.insert(record(i, i, i + 1, i + 1, (10 + i) as u32));
    }
    assert_eq!(tree.search_area(&rect(0, 0, 10, 10)), vec![10, 11, 12, 13, 14, 15]);
    assert_eq!(tree.search_area(&rect(2, 2, 3, 3)), vec![11, 12, 13]);
}

#[test]
fn node_bounding_boxes() {
    let a = record(0, 0, 10, 10, 1);
    let b = record(12, -3, 15, 15, 2);
    assert_eq!(a.mbb(), rect(0, 0, 10, 10));
    let leaf = Entry::Leaf { children: vec![a, b] };
    assert_eq!(leaf.mbb(), rect(0, -3, 15, 15));
    assert_eq!(leaf.level(), 0);
    assert_eq!(leaf.len(), 2);
    let child = ChildRecord(leaf.mbb(), leaf);
    assert_eq!(child.mbb(), rect(0, -3, 15, 15));
    let node = Entry::NonLeaf { level: 1, children: vec![child] };
    assert_eq!(node.mbb(), rect(0, -3, 15, 15));
    assert_eq!(node.level(), 1);
    assert_eq!(node.search(&rect(11, 0, 12, 1)), vec![2]);
}

#[test]
fn copy_of_a_tree() {
    let mut tree = RTree::<i64, u32>::new(4, 2).unwrap();
    for i in 0..9i64 {
        tree.insert(record(i * 5, i, i * 5 + 3, i + 3, i as u32));
    }
    let mut copy = tree.clone();
    assert_eq!(copy.to_display_string(), tree.to_display_string());
    assert!(copy.delete(record(0, 0, 3, 3, 0)));
    check_tree(&copy, 8);
    check_tree(&tree, 9);
    assert_eq!(sorted(tree.search_area(&rect(0, 0, 100, 100))), (0..9).collect::<Vec<u32>>());
    assert_eq!(sorted(copy.search_area(&rect(0, 0, 100, 100))), (1..9).collect::<Vec<u32>>());
}

#[test]
fn round_trip() {
    let mut tree = RTree::<i64, u32>::new(5, 2).unwrap();
    let mut all = rect(0, 0, 0, 0);
    for i in 0..60i64 {
        let r = record((i * 37) % 101 - 50, (i * 53) % 89 - 40, (i * 37) % 101 - 45, (i * 53) % 89 - 30, i as u32);
        all = all.merge(&r.0);
        tree.insert(r);
    }
    check_tree(&tree, 60);
    let found = tree.search_area(&all);
    assert_eq!(found.len(), 60);
    assert_eq!(sorted(found), (0..60).collect::<Vec<u32>>());
}

#[test]
fn child_record_caches_the_box() {
    let leaf = Entry::Leaf { children: vec![record(0, 0, 1, 1, 1), record(5, -2, 6, 3, 2)] };
    let child = ChildRecord::new(leaf);
    assert_eq!(child.0, rect(0, -2, 6, 3));
    assert_eq!(child.1.len(), 2);
}

#[test]
fn deleted_is_gone_for_every_search() {
    let mut tree = RTree::<i64, u32>::new(5, 2).unwrap();
    let mut all = Vec::new();
    for i in 0..40i64 {
        let r = record((i * 7) % 31, (i * 11) % 29, (i * 7) % 31 + 4, (i * 11) % 29 + 4, i as u32);
        tree.insert(r);
        all.push(r);
    }
    for r in all.iter().step_by(3) {
        assert!(tree.delete(*r));
        let left = tree.to_display_string();
        assert!(!tree.search_area(&r.0).contains(&r.1));
        assert!(!tree.search_area(&rect(r.0.low.x - 3, r.0.low.y - 3, r.0.low.x, r.0.low.y)).contains(&r.1));
        assert!(!tree.search_point(&r.0.low).contains(&r.1));
        assert!(!tree.search_point(&r.0.high).contains(&r.1));
        assert!(!tree.search_point(&Point::new(r.0.low.x + 2, r.0.low.y + 1)).contains(&r.1));
        // a second deletion finds nothing and changes nothing
        assert!(!tree.delete(*r));
        assert_eq!(tree.to_display_string(), left);
    }
}

#[test]
fn inserted_is_found_by_point() {
    let mut tree = RTree::<i64, u32>::new(4, 2).unwrap();
    for i in 0..20i64 {
        let r = record(i * 3, i * 2, i * 3 + 5, i * 2 + 5, i as u32);
        tree.insert(r);
        assert!(tree.search_point(&r.0.low).contains(&r.1));
        assert!(tree.search_point(&r.0.high).contains(&r.1));
        assert!(tree.search_area(&r.0).contains(&r.1));
        check_tree(&tree, i as usize + 1);
    }
}

#[test]
fn two_records_then_one() {
    for (max, min) in [(5, 2), (6, 2), (6, 3), (8, 4), (4, 2)] {
        let mut tree = RTree::<i64, u32>::new(max, min).unwrap();
        let r = record(0, 0, 1, 1, 1);
        let s = record(10, 10, 11, 11, 2);
        tree.insert(r);
        tree.insert(s);
        assert!(tree.delete(r));
        match &tree.root {
            Some(Entry::Leaf { children }) => {
                assert_eq!(children.len(), 1);
                assert_eq!(children[0].1, 2);
            },
            _ => panic!("a single leaf holds the other record"),
        }
        assert!(tree.delete(s));
        assert!(tree.root.is_none());
        assert!(tree.search_area(&rect(-100, -100, 100, 100)).is_empty());
    }
}
