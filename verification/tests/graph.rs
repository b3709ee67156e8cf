use spatial_index::geometry2d::{Point, Rectangle};
use spatial_index::graphviz::{comes_before, join, GVAnnotation, GVGraph, GVNodeKey};
use spatial_index::r_tree::vizgraph::{corners_text, node_key_text, object_key_text};
use spatial_index::r_tree::{ChildRecord, Entry, ObjectRecord, RTree};

fn record(x0: i64, y0: i64, x1: i64, y1: i64, id: u32) -> ObjectRecord<i64, u32> {
    ObjectRecord(Rectangle { low: Point::new(x0, y0), high: Point::new(x1, y1) }, id)
}

fn s(text: &str) -> String {
    text.to_string()
}

#[test]
fn texts_in_order() {
    assert!(comes_before("a", "b"));
    assert!(!comes_before("b", "a"));
    assert!(!comes_before("a", "a"));
    assert!(comes_before("", "a"));
    assert!(!comes_before("a", ""));
    assert!(!comes_before("", ""));
    assert!(comes_before("n1", "n10"));
    assert!(comes_before("n10", "n2"));
    assert!(comes_before("n9", "o1"));
    assert!(comes_before("z", "é"));
    let mut words = vec!["o2", "n10", "", "n1", "é", "n2", "o", "o10"];
    words.sort();
    for pair in words.windows(2) {
        assert!(comes_before(pair[0], pair[1]));
        assert!(!comes_before(pair[1], pair[0]));
    }
}

#[test]
fn keys_of_strings() {
    let key = s("n7");
    assert_eq!(key.to_text(), "n7");
    assert_eq!(key.duplicate(), "n7");
}

#[test]
fn blank_annotation_says_nothing() {
    let a = GVAnnotation::new();
    assert!(a.label.is_none() && a.style.is_none() && a.fillcolor.is_none());
    assert!(a.fontcolor.is_none() && a.shape.is_none() && a.color.is_none());
    assert_eq!(a.to_annotation_string(), "");
}

#[test]
fn annotation_in_field_order() {
    let mut a = GVAnnotation::new();
    a.color = Some(s("blue"));
    a.label = Some(s("top"));
    assert_eq!(a.to_annotation_string(), "[label=\"top\", color=\"blue\"]");
    a.style = Some(s("filled"));
    a.fillcolor = Some(s("black"));
    a.fontcolor = Some(s("white"));
    a.shape = Some(s("record"));
    assert_eq!(
        a.to_annotation_string(),
        "[label=\"top\", style=\"filled\", fillcolor=\"black\", fontcolor=\"white\", shape=\"record\", color=\"blue\"]"
    );
}

#[test]
fn annotation_escapes_quotes() {
    let mut a = GVAnnotation::new();
    a.label = Some(s("say \"hi\""));
    assert_eq!(a.to_annotation_string(), "[label=\"say \\\"hi\\\"\"]");
    a.label = Some(s("\"\""));
    assert_eq!(a.to_annotation_string(), "[label=\"\\\"\\\"\"]");
    a.label = Some(s("plain"));
    assert_eq!(a.to_annotation_string(), "[label=\"plain\"]");
}

#[test]
fn joining_texts() {
    assert_eq!(join(&vec![], ", "), "");
    assert_eq!(join(&vec![s("a")], ", "), "a");
    assert_eq!(join(&vec![s("a"), s("b"), s("c")], ", "), "a, b, c");
}

#[test]
fn nodes_stay_sorted_and_single() {
    let mut g: GVGraph<String> = GVGraph::new(None);
    for key in ["m", "b", "z", "b", "a", "m"] {
        g.add_node(s(key));
    }
    let keys: Vec<&str> = g.nodes.iter().map(|n| n.0.as_str()).collect();
    assert_eq!(keys, vec!["a", "b", "m", "z"]);
    assert_eq!(g.node_annotations.len(), 4);
    assert_eq!(g.find_node(&s("m")), (2, true));
    assert_eq!(g.find_node(&s("c")), (2, false));
    assert_eq!(g.find_node(&s("zz")), (4, false));
    assert!(g.get_node_annotation(s("a")).is_some());
    assert!(g.get_node_annotation(s("q")).is_none());
}

#[test]
fn annotations_follow_their_nodes() {
    let mut g: GVGraph<String> = GVGraph::new(None);
    g.add_node(s("m"));
    g.get_node_annotation_mut(s("m")).unwrap().label = Some(s("middle"));
    g.add_node(s("a"));
    g.add_node(s("z"));
    g.get_node_annotation_mut(s("z")).unwrap().label = Some(s("last"));
    g.add_node(s("m"));
    assert_eq!(g.get_node_annotation(s("m")).unwrap().label, Some(s("middle")));
    assert_eq!(g.get_node_annotation(s("z")).unwrap().label, Some(s("last")));
    assert_eq!(g.get_node_annotation(s("a")).unwrap().label, None);
    assert!(g.get_node_annotation_mut(s("q")).is_none());
}

#[test]
fn edges_bring_their_nodes() {
    let mut g: GVGraph<String> = GVGraph::new(Some(s("g")));
    g.add_edge(s("b"), s("a"));
    g.add_edge(s("a"), s("c"));
    g.add_edge(s("a"), s("b"));
    g.add_edge(s("b"), s("a"));
    let keys: Vec<&str> = g.nodes.iter().map(|n| n.0.as_str()).collect();
    assert_eq!(keys, vec!["a", "b", "c"]);
    let edges: Vec<(&str, &str)> = g.edges.iter().map(|e| (e.0.as_str(), e.1.as_str())).collect();
    assert_eq!(edges, vec![("a", "b"), ("a", "c"), ("b", "a")]);
    assert_eq!(g.find_edge(&s("a"), &s("c")), (1, true));
    assert_eq!(g.find_edge(&s("a"), &s("bb")), (1, false));
    g.get_edge_annotation_mut(s("a"), s("c")).unwrap().color = Some(s("red"));
    assert_eq!(g.get_edge_annotation(s("a"), s("c")).unwrap().color, Some(s("red")));
    assert_eq!(g.get_edge_annotation(s("a"), s("b")).unwrap().color, None);
    assert!(g.get_edge_annotation(s("c"), s("a")).is_none());
    assert!(g.get_edge_annotation_mut(s("c"), s("a")).is_none());
    assert_eq!(
        g.to_dot_string(),
        "digraph g {\n\ta ;\n\tb ;\n\tc ;\n\ta -> b ;\n\ta -> c [color=\"red\"];\n\tb -> a ;\n}"
    );
}

#[test]
fn graph_without_a_name() {
    let mut g: GVGraph<String> = GVGraph::new(None);
    assert_eq!(g.to_dot_string(), "digraph  {\n}");
    g.get_graph_node_annotation_mut().shape = Some(s("box"));
    assert_eq!(g.get_graph_node_annotation().shape, Some(s("box")));
    assert_eq!(g.to_dot_string(), "digraph  {\n\tnode [shape=\"box\"];\n}");
}

#[test]
fn pieces_of_the_export() {
    assert_eq!(node_key_text(0), "n0");
    assert_eq!(node_key_text(12), "n12");
    assert_eq!(object_key_text(&7u32), "o7");
    assert_eq!(corners_text(&record(0, -1, 10, 11, 1).0), "{(0, -1), (10, 11)|");
}

#[test]
fn empty_tree_as_graph() {
    let tree = RTree::<i64, u32>::new(4, 2).unwrap();
    assert!(tree.can_be_exported());
    let g = tree.to_graph_export(s("RTree"));
    assert_eq!(
        g.to_dot_string(),
        "digraph RTree {\n\tnode [style=\"filled\", fillcolor=\"black\", fontcolor=\"white\", shape=\"record\"];\n}"
    );
}

#[test]
fn single_leaf_as_graph() {
    let mut tree = RTree::<i64, u32>::new(4, 2).unwrap();
    tree.insert(record(0, 0, 10, 10, 1));
    tree.insert(record(12, -3, 15, 15, 2));
    let g = tree.to_graph_export(s("RTree"));
    let expected = [
        "digraph RTree {",
        "\tnode [style=\"filled\", fillcolor=\"black\", fontcolor=\"white\", shape=\"record\"];",
        "\tn0 [fillcolor=\"red\", shape=\"circle\"];",
        "\to1 [label=\"{(0, 0), (10, 10)|object:1}\"];",
        "\to2 [label=\"{(12, -3), (15, 15)|object:2}\"];",
        "\tn0 -> o1 ;",
        "\tn0 -> o2 ;",
        "}",
    ];
    assert_eq!(g.to_dot_string(), expected.join("\n"));
}

#[test]
fn two_levels_as_graph() {
    let left = Entry::Leaf { children: vec![record(0, 0, 1, 1, 1), record(2, 2, 3, 3, 2)] };
    let right = Entry::Leaf { children: vec![record(5, 5, 6, 6, 3), record(7, 7, 8, 8, 4)] };
    assert_eq!(left.checked_last_label(4), Some(4));
    let rect = |x0, y0, x1, y1| Rectangle { low: Point::new(x0, y0), high: Point::new(x1, y1) };
    let root = Entry::NonLeaf {
        level: 1,
        children: vec![ChildRecord(rect(0, 0, 3, 3), left), ChildRecord(rect(5, 5, 8, 8), right)],
    };
    assert_eq!(root.checked_last_label(0), Some(2));
    assert_eq!(root.checked_last_label(3), Some(8));
    let mut tree = RTree::<i64, u32>::new(4, 2).unwrap();
    tree.root = Some(root);
    let g = tree.to_graph_export(s("T"));
    let expected = [
        "digraph T {",
        "\tnode [style=\"filled\", fillcolor=\"black\", fontcolor=\"white\", shape=\"record\"];",
        "\tn0 [fillcolor=\"red\", shape=\"circle\"];",
        "\tn1 [label=\"{(0, 0), (3, 3)|node:1}\", fillcolor=\"red\"];",
        "\tn2 [label=\"{(5, 5), (8, 8)|node:2}\", fillcolor=\"red\"];",
        "\to1 [label=\"{(0, 0), (1, 1)|object:1}\"];",
        "\to2 [label=\"{(2, 2), (3, 3)|object:2}\"];",
        "\to3 [label=\"{(5, 5), (6, 6)|object:3}\"];",
        "\to4 [label=\"{(7, 7), (8, 8)|object:4}\"];",
        "\tn0 -> n1 ;",
        "\tn0 -> n2 ;",
        "\tn1 -> o1 ;",
        "\tn1 -> o2 ;",
        "\tn2 -> o3 ;",
        "\tn2 -> o4 ;",
        "}",
    ];
    assert_eq!(g.to_dot_string(), expected.join("\n"));
    let mut again: GVGraph<String> = GVGraph::new(None);
    again.add_node(s("n0"));
    assert_eq!(tree.root.as_ref().unwrap().fill_graph(0, &mut again), 2);
    assert_eq!(again.nodes.len(), 7);
    assert_eq!(again.edges.len(), 6);
}
