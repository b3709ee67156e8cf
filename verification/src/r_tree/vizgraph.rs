//! The tree as a graph, for drawing: one node for the root and for every
//! child below it, one for every stored object, and an edge from each node to
//! what it holds.

use crate::geometry2d::{Coordinate, Rectangle};
use crate::graphviz::{GVAnnotationView, GVGraph, GVNodeKey, GraphContent};
use crate::r_tree::{ChildRecord, Entry, ObjectId, ObjectRecord, RTree};
use crate::text::{decimal, unsigned_text};
use vstd::prelude::*;

verus! {

//////////
// TEXT //
//////////
/// The key of the node with this number: `n` and the number.
pub open spec fn node_key(label: nat) -> Seq<char> {
    "n"@ + decimal(label as int)
}

/// The key of the node of an object: `o` and the identifier.
pub open spec fn object_key<O: ObjectId>(id: O) -> Seq<char> {
    "o"@ + id.spec_text()
}

/// The corners of a rectangle as the first field of a record label:
/// `{(0, 0), (10, 10)|`.
pub open spec fn spec_corners<T: Coordinate>(rectangle: Rectangle<T>) -> Seq<char> {
    "{("@ + decimal(rectangle.low.x.value()) + ", "@ + decimal(rectangle.low.y.value()) + "), ("@
        + decimal(rectangle.high.x.value()) + ", "@ + decimal(rectangle.high.y.value()) + ")|"@
}

/// The label of the node with this number: the corners of its box, and
/// `node:` with the number.
pub open spec fn node_label<T: Coordinate>(rectangle: Rectangle<T>, label: nat) -> Seq<char> {
    spec_corners(rectangle) + "node:"@ + decimal(label as int) + "}"@
}

/// The label of the node of an object: the corners of its rectangle, and
/// `object:` with the identifier.
pub open spec fn object_label<T: Coordinate, O: ObjectId>(record: ObjectRecord<T, O>) -> Seq<char> {
    spec_corners(record.0) + "object:"@ + record.1.spec_text() + "}"@
}

/// The key of the node with this number.
pub fn node_key_text(label: usize) -> (key: String)
    ensures
        key@ == node_key(label as nat),
{
    let mut key = String::from_str("n");
    key.append(unsigned_text(label as u64).as_str());
    key
}

/// The key of the node of an object.
pub fn object_key_text<O: ObjectId>(id: &O) -> (key: String)
    ensures
        key@ == object_key(*id),
{
    let mut key = String::from_str("o");
    key.append(id.to_text().as_str());
    key
}

/// The corners of a rectangle as the first field of a record label.
pub fn corners_text<T: Coordinate>(rectangle: &Rectangle<T>) -> (text: String)
    ensures
        text@ == spec_corners(*rectangle),
{
    let mut text = String::from_str("{(");
    text.append(rectangle.low.x.to_text().as_str());
    text.append(", ");
    text.append(rectangle.low.y.to_text().as_str());
    text.append("), (");
    text.append(rectangle.high.x.to_text().as_str());
    text.append(", ");
    text.append(rectangle.high.y.to_text().as_str());
    text.append(")|");
    text
}

/////////////
// CONTENT //
/////////////
/// The content with the node of an object below the node `parent`: the node,
/// its label, and the edge from `parent` to it.
pub open spec fn with_object<T: Coordinate, O: ObjectId>(
    content: GraphContent,
    parent: Seq<char>,
    record: ObjectRecord<T, O>,
) -> GraphContent {
    let key = object_key(record.1);
    let added = content.with_node(key);
    added.with_annotation(
        key,
        GVAnnotationView { label: Some(object_label(record)), ..added.nodes[key] },
    ).with_edge(parent, key)
}

/// The content with the node of a child below the node `parent`: the node,
/// its label and its red filling, and the edge from `parent` to it.
pub open spec fn with_child<T: Coordinate>(
    content: GraphContent,
    parent: Seq<char>,
    rectangle: Rectangle<T>,
    label: nat,
) -> GraphContent {
    let key = node_key(label);
    let added = content.with_node(key);
    added.with_annotation(
        key,
        GVAnnotationView {
            label: Some(node_label(rectangle, label)),
            fillcolor: Some("red"@),
            ..added.nodes[key]
        },
    ).with_edge(parent, key)
}

/// The content with the nodes of a run of records below the node with the
/// number `label`.
pub open spec fn fill_records<T: Coordinate, O: ObjectId>(
    records: Seq<ObjectRecord<T, O>>,
    label: nat,
    content: GraphContent,
) -> GraphContent
    decreases records.len(),
{
    if records.len() == 0 {
        content
    } else {
        with_object(
            fill_records(records.drop_last(), label, content),
            node_key(label),
            records.last(),
        )
    }
}

impl<T: Coordinate, O: ObjectId> Entry<T, O> {
    /// The number that filling the graph from this node returns, where the
    /// node itself has the number `label`: for a leaf that number; else that
    /// number added to the last number given out below the node.
    pub open spec fn spec_last_label(self, label: nat) -> nat
        decreases self, 1nat,
    {
        match self {
            Entry::Leaf { .. } => label,
            Entry::NonLeaf { children, .. } => label + Self::last_label_among(children@, label),
        }
    }

    /// The last number in use after a run of children of the node with the
    /// number `label`: each child takes the number after the last in use, and
    /// what filling the graph from the child returns is then the last in use.
    pub open spec fn last_label_among(children: Seq<ChildRecord<T, O>>, label: nat) -> nat
        decreases children, 0nat,
    {
        if children.len() == 0 {
            label
        } else {
            children.last().1.spec_last_label(
                Self::last_label_among(children.drop_last(), label) + 1,
            )
        }
    }

    /// The content of the graph filled from this node, which has the number
    /// `label`.
    pub open spec fn spec_fill(self, label: nat, content: GraphContent) -> GraphContent
        decreases self, 1nat,
    {
        match self {
            Entry::Leaf { children } => fill_records(children@, label, content),
            Entry::NonLeaf { children, .. } => Self::fill_children(children@, label, content),
        }
    }

    /// The content of the graph filled from a run of children of the node with
    /// the number `label`: for each child its own node below that node, then
    /// what is below the child.
    pub open spec fn fill_children(
        children: Seq<ChildRecord<T, O>>,
        label: nat,
        content: GraphContent,
    ) -> GraphContent
        decreases children, 0nat,
    {
        if children.len() == 0 {
            content
        } else {
            let child_label = Self::last_label_among(children.drop_last(), label) + 1;
            children.last().1.spec_fill(
                child_label,
                with_child(
                    Self::fill_children(children.drop_last(), label, content),
                    node_key(label),
                    children.last().0,
                    child_label,
                ),
            )
        }
    }
}

/// Filling the graph never returns less than the number it started with.
pub proof fn lemma_labels_rise<T: Coordinate, O: ObjectId>(entry: Entry<T, O>, label: nat)
    ensures
        entry.spec_last_label(label) >= label,
    decreases entry,
{
}

/// The numbers in use rise from child to child.
pub proof fn lemma_labels_among<T: Coordinate, O: ObjectId>(
    children: Seq<ChildRecord<T, O>>,
    label: nat,
    i: int,
)
    requires
        0 <= i <= children.len(),
    ensures
        label <= Entry::last_label_among(children.take(i), label) <= Entry::last_label_among(
            children,
            label,
        ),
        i < children.len() ==> Entry::last_label_among(children.take(i), label)
            < Entry::last_label_among(children.take(i + 1), label) && Entry::last_label_among(
            children.take(i + 1),
            label,
        ) == children[i].1.spec_last_label(Entry::last_label_among(children.take(i), label) + 1),
    decreases children.len() - i,
{
    if i < children.len() {
        assert(children.take(i + 1).drop_last() =~= children.take(i));
        assert(children.take(i + 1).last() == children[i]);
        lemma_labels_rise(
            children[i].1,
            Entry::last_label_among(children.take(i), label) + 1,
        );
        lemma_labels_among(children, label, i + 1);
        lemma_labels_floor(children.take(i), label);
    } else {
        assert(children.take(i) =~= children);
        lemma_labels_floor(children, label);
    }
}

/// The last number in use is never less than the number of the node.
pub proof fn lemma_labels_floor<T: Coordinate, O: ObjectId>(
    children: Seq<ChildRecord<T, O>>,
    label: nat,
)
    ensures
        Entry::last_label_among(children, label) >= label,
    decreases children.len(),
{
    if children.len() > 0 {
        lemma_labels_floor(children.drop_last(), label);
        lemma_labels_rise(
            children.last().1,
            Entry::last_label_among(children.drop_last(), label) + 1,
        );
    }
}

////////////
// EXPORT //
////////////
impl<T: Coordinate, O: ObjectId> Entry<T, O> {
    /// The number that `fill_graph` returns for this node with the number
    /// `label`, if it is a number of the machine.
    pub fn checked_last_label(&self, label: usize) -> (last: Option<usize>)
        ensures
            match last {
                Some(l) => l == self.spec_last_label(label as nat),
                None => self.spec_last_label(label as nat) > usize::MAX,
            },
        decreases self,
    {
        match self {
            Entry::Leaf { .. } => Some(label),
            Entry::NonLeaf { children, .. } => {
                let mut last_used_label = label;
                let mut i: usize = 0;
                assert(children@.take(0) =~= Seq::empty());
                while i < children.len()
                    invariant
                        i <= children.len(),
                        self matches Entry::NonLeaf { children: c, .. } && c == children,
                        last_used_label == Self::last_label_among(
                            children@.take(i as int),
                            label as nat,
                        ),
                    decreases children.len() - i,
                {
                    proof {
                        lemma_labels_among(children@, label as nat, i as int);
                        lemma_labels_among(children@, label as nat, i + 1);
                    }
                    if last_used_label == usize::MAX {
                        return None;
                    }
                    match children[i].1.checked_last_label(last_used_label + 1) {
                        None => {
                            return None;
                        },
                        Some(l) => {
                            last_used_label = l;
                        },
                    }
                    i += 1;
                }
                assert(children@.take(i as int) =~= children@);
                if last_used_label > usize::MAX - label {
                    None
                } else {
                    Some(label + last_used_label)
                }
            },
        }
    }

    /// Adds to the graph what stands below this node, which has the number
    /// `label` and its own node in the graph already, and returns the number
    /// to go on from: see `spec_fill` and `spec_last_label`.
    pub fn fill_graph(&self, label: usize, graph: &mut GVGraph<String>) -> (last: usize)
        requires
            old(graph).well_formed(),
            self.spec_last_label(label as nat) <= usize::MAX,
        ensures
            final(graph).well_formed(),
            last == self.spec_last_label(label as nat),
            final(graph).content() == self.spec_fill(label as nat, old(graph).content()),
            final(graph).name == old(graph).name,
            final(graph).graph_node_annotation == old(graph).graph_node_annotation,
        decreases self,
    {
        let ghost start = graph.content();
        match self {
            Entry::Leaf { children } => {
                let mut i: usize = 0;
                assert(children@.take(0) =~= Seq::empty());
                while i < children.len()
                    invariant
                        i <= children.len(),
                        graph.well_formed(),
                        graph.name == old(graph).name,
                        graph.graph_node_annotation == old(graph).graph_node_annotation,
                        graph.content() == fill_records(children@.take(i as int), label as nat, start),
                    decreases children.len() - i,
                {
                    let record = &children[i];
                    let ghost before = graph.content();
                    let node_id = object_key_text(&record.1);
                    graph.add_node(node_id.clone());
                    let ghost added = graph.content();

                    match graph.get_node_annotation_mut(node_id.clone()) {
                        Some(annot) => {
                            let mut text = corners_text(&record.0);
                            text.append("object:");
                            text.append(record.1.to_text().as_str());
                            text.append("}");
                            assert(text@ =~= object_label(*record));
                            annot.label = Some(text);
                        },
                        None => {},
                    }
                    assert(graph.content() == added.with_annotation(
                        node_id@,
                        GVAnnotationView {
                            label: Some(object_label(*record)),
                            ..added.nodes[node_id@]
                        },
                    ));

                    graph.add_edge(node_key_text(label), node_id);
                    proof {
                        assert(graph.content() == with_object(
                            before,
                            node_key(label as nat),
                            *record,
                        ));
                        assert(children@.take(i + 1).drop_last() =~= children@.take(i as int));
                        assert(children@.take(i + 1).last() == *record);
                    }
                    i += 1;
                }
                assert(children@.take(i as int) =~= children@);
                label
            },
            Entry::NonLeaf { children, .. } => {
                let mut last_used_label = label;
                let mut i: usize = 0;
                assert(children@.take(0) =~= Seq::empty());
                while i < children.len()
                    invariant
                        i <= children.len(),
                        self matches Entry::NonLeaf { children: c, .. } && c == children,
                        self.spec_last_label(label as nat) <= usize::MAX,
                        graph.well_formed(),
                        graph.name == old(graph).name,
                        graph.graph_node_annotation == old(graph).graph_node_annotation,
                        last_used_label == Self::last_label_among(
                            children@.take(i as int),
                            label as nat,
                        ),
                        graph.content() == Self::fill_children(
                            children@.take(i as int),
                            label as nat,
                            start,
                        ),
                    decreases children.len() - i,
                {
                    let child = &children[i];
                    proof {
                        lemma_labels_among(children@, label as nat, i as int);
                        lemma_labels_among(children@, label as nat, i + 1);
                        assert(children@.take(i + 1).drop_last() =~= children@.take(i as int));
                        assert(children@.take(i + 1).last() == *child);
                    }
                    let child_label = last_used_label + 1;
                    let ghost before = graph.content();

                    let node_id = node_key_text(child_label);
                    graph.add_node(node_id.clone());
                    let ghost added = graph.content();

                    match graph.get_node_annotation_mut(node_id.clone()) {
                        Some(annot) => {
                            let mut text = corners_text(&child.0);
                            text.append("node:");
                            text.append(unsigned_text(child_label as u64).as_str());
                            text.append("}");
                            assert(text@ =~= node_label(child.0, child_label as nat));
                            annot.label = Some(text);
                            annot.fillcolor = Some(String::from_str("red"));
                        },
                        None => {},
                    }
                    assert(graph.content() == added.with_annotation(
                        node_id@,
                        GVAnnotationView {
                            label: Some(node_label(child.0, child_label as nat)),
                            fillcolor: Some("red"@),
                            ..added.nodes[node_id@]
                        },
                    ));

                    graph.add_edge(node_key_text(label), node_id);
                    assert(graph.content() == with_child(
                        before,
                        node_key(label as nat),
                        child.0,
                        child_label as nat,
                    ));
                    last_used_label = child.1.fill_graph(child_label, graph);
                    i += 1;
                }
                assert(children@.take(i as int) =~= children@);
                label + last_used_label
            },
        }
    }
}

/// What is said of all the nodes of an exported tree: filled boxes of the
/// shape of records, black with white writing.
pub open spec fn spec_record_style() -> GVAnnotationView {
    GVAnnotationView {
        style: Some("filled"@),
        fillcolor: Some("black"@),
        fontcolor: Some("white"@),
        shape: Some("record"@),
        label: None,
        color: None,
    }
}

impl<T: Coordinate, O: ObjectId> RTree<T, O> {
    /// The nodes and edges of the tree as a graph: nothing for an empty tree;
    /// else the node of the root, a red circle with the number 0, and what
    /// stands below the root (`Entry::spec_fill`).
    pub open spec fn spec_graph_content(self) -> GraphContent {
        let nothing = GraphContent { nodes: Map::empty(), edges: Map::empty() };
        match self.root {
            None => nothing,
            Some(root) => root.spec_fill(
                0,
                nothing.with_node(node_key(0)).with_annotation(
                    node_key(0),
                    GVAnnotationView {
                        fillcolor: Some("red"@),
                        shape: Some("circle"@),
                        ..GVAnnotationView::blank()
                    },
                ),
            ),
        }
    }

    /// Whether `to_graph_export` can number the nodes of this tree with
    /// numbers of the machine.
    pub fn can_be_exported(&self) -> (fits: bool)
        ensures
            fits == (self.root matches Some(root) ==> root.spec_last_label(0) <= usize::MAX),
    {
        match &self.root {
            None => true,
            Some(root) => root.checked_last_label(0).is_some(),
        }
    }

    /// The tree as a graph with the name `name`, for drawing.
    pub fn to_graph_export(&self, name: String) -> (graph: GVGraph<String>)
        requires
            self.root matches Some(root) ==> root.spec_last_label(0) <= usize::MAX,
        ensures
            graph.well_formed(),
            graph.name == Some(name),
            graph.graph_node_annotation@ == spec_record_style(),
            graph.content() == self.spec_graph_content(),
    {
        let mut graph: GVGraph<String> = GVGraph::new(Some(name));
        assert(graph.node_keys() =~= Seq::empty());
        assert(graph.edge_keys() =~= Seq::empty());
        assert(graph.content().nodes =~= Map::empty());
        assert(graph.content().edges =~= Map::empty());

        let node = graph.get_graph_node_annotation_mut();
        node.style = Some(String::from_str("filled"));
        node.fillcolor = Some(String::from_str("black"));
        node.fontcolor = Some(String::from_str("white"));
        node.shape = Some(String::from_str("record"));

        match &self.root {
            None => {},
            Some(root) => {
                let ghost nothing = graph.content();
                graph.add_node(node_key_text(0));
                let ghost added = graph.content();
                assert(added.nodes[node_key(0)] == GVAnnotationView::blank());
                match graph.get_node_annotation_mut(node_key_text(0)) {
                    Some(annot) => {
                        annot.fillcolor = Some(String::from_str("red"));
                        annot.shape = Some(String::from_str("circle"));
                    },
                    None => {},
                }
                assert(graph.content() == added.with_annotation(
                    node_key(0),
                    GVAnnotationView {
                        fillcolor: Some("red"@),
                        shape: Some("circle"@),
                        ..GVAnnotationView::blank()
                    },
                ));
                root.fill_graph(0, &mut graph);
            },
        }

        graph
    }
}

} // verus!
