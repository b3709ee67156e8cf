use spatial_index::geometry2d::{Point, Rectangle};
use spatial_index::r_tree::display::{box_text, record_line, tabs_text};
use spatial_index::r_tree::{ObjectId, ObjectRecord, RTree};

fn record(x0: i64, y0: i64, x1: i64, y1: i64, id: u32) -> ObjectRecord<i64, u32> {
    ObjectRecord(Rectangle { low: Point::new(x0, y0), high: Point::new(x1, y1) }, id)
}

#[test]
fn empty_tree_as_text() {
    let tree = RTree::<i64, u32>::new(8, 2).unwrap();
    assert_eq!(tree.to_display_string(), "RTree(min:2 max:8)\n\tEmpty");
}

#[test]
fn single_leaf_as_text() {
    let mut tree = RTree::<i64, u32>::new(4, 2).unwrap();
    tree.insert(record(0, 0, 10, 10, 1));
    tree.insert(record(12, -3, 15, 15, 2));
    assert_eq!(
        tree.to_display_string(),
        "RTree(min:2 max:4):\n\tLeaf\n\t- [x0: 0, y0: 0, x1: 10, y1: 10]: 1\n\t- [x0: 12, y0: -3, x1: 15, y1: 15]: 2\n"
    );
}

#[test]
fn two_levels_as_text() {
    let mut tree = RTree::<i64, u32>::new(4, 2).unwrap();
    for i in 0..5 {
        tree.insert(record(i * 10, 0, i * 10 + 5, 5, i as u32));
    }
    let text = tree.to_display_string();
    let lines: Vec<&str> = text.split('\n').collect();
    assert_eq!(lines[0], "RTree(min:2 max:4):");
    assert_eq!(lines[1], "\tNonLeaf");
    assert!(lines[2].starts_with("\t- [x0: "));
    assert!(lines[2].ends_with("]:"));
    assert_eq!(lines[3], "\t\tLeaf");
    assert!(lines[4].starts_with("\t\t- [x0: "));
    assert_eq!(lines.iter().filter(|l| l.ends_with("Leaf")).count(), 3);
    assert_eq!(lines.iter().filter(|l| l.starts_with("\t\t- [")).count(), 5);
    assert_eq!(*lines.last().unwrap(), "");
    let root = tree.root.as_ref().unwrap();
    assert_eq!(format!("RTree(min:2 max:4):\n{}\n", root.to_string(1)), text);
    assert!(root.to_string(0).starts_with("NonLeaf\n- [x0: "));
}

#[test]
fn pieces_of_text() {
    assert_eq!(tabs_text(0), "");
    assert_eq!(tabs_text(3), "\t\t\t");
    let r = record(1, 2, 3, 4, 77);
    assert_eq!(box_text(&r.0), "- [x0: 1, y0: 2, x1: 3, y1: 4]");
    assert_eq!(record_line("\t", &r), "\t- [x0: 1, y0: 2, x1: 3, y1: 4]: 77");
    assert_eq!(5u32.to_text(), "5");
    assert_eq!(5u64.to_text(), "5");
    assert_eq!(5usize.to_text(), "5");
    assert_eq!((-5i32).to_text(), "-5");
    assert_eq!((-5i64).to_text(), "-5");
    assert!(5u32.same(&5));
    assert!(!5u32.same(&6));
}
