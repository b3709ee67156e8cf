//! The tree as indented text, for the eye.

use crate::geometry2d::{Coordinate, Rectangle};
use crate::r_tree::{ChildRecord, Entry, ObjectId, ObjectRecord, RTree};
use crate::text::{decimal, joined, unsigned_text};
use vstd::prelude::*;

verus! {

/// `n` tabs.
pub open spec fn tabs(n: nat) -> Seq<char>
    decreases n,
{
    if n == 0 {
        Seq::empty()
    } else {
        tabs((n - 1) as nat) + "\t"@
    }
}

/// A rectangle as a list item: `- [x0: 0, y0: 0, x1: 10, y1: 10]`.
pub open spec fn spec_box_text<T: Coordinate>(rectangle: Rectangle<T>) -> Seq<char> {
    "- [x0: "@ + decimal(rectangle.low.x.value()) + ", y0: "@ + decimal(rectangle.low.y.value())
        + ", x1: "@ + decimal(rectangle.high.x.value()) + ", y1: "@ + decimal(
        rectangle.high.y.value(),
    ) + "]"@
}

impl<T: Coordinate, O: ObjectId> ObjectRecord<T, O> {
    /// The line of a record: its rectangle, a colon, its identifier.
    pub open spec fn spec_line(self, spacing: Seq<char>) -> Seq<char> {
        spacing + spec_box_text(self.0) + ": "@ + self.1.spec_text()
    }
}

impl<T: Coordinate, O: ObjectId> ChildRecord<T, O> {
    /// The lines of a child: its cached rectangle and a colon, then the child
    /// itself from the next line on, one tab deeper.
    pub open spec fn spec_line(self, spacing: Seq<char>) -> Seq<char>
        decreases self, 2nat,
    {
        spacing + spec_box_text(self.0) + ":\n"@ + self.1.spec_dump(spacing + "\t"@)
    }

    /// The lines of a run of children.
    pub open spec fn spec_lines_of(children: Seq<Self>, spacing: Seq<char>) -> Seq<Seq<char>>
        decreases children, 0nat,
    {
        if children.len() == 0 {
            Seq::empty()
        } else {
            Self::spec_lines_of(children.drop_last(), spacing).push(
                children.last().spec_line(spacing),
            )
        }
    }
}

impl<T: Coordinate, O: ObjectId> Entry<T, O> {
    /// The node as text, each of its lines behind `spacing`: the kind of the
    /// node, then one entry to a line. The last line has no line end.
    pub open spec fn spec_dump(self, spacing: Seq<char>) -> Seq<char>
        decreases self, 1nat,
    {
        match self {
            Entry::Leaf { children } => spacing + "Leaf\n"@ + joined(
                children@.map_values(|r: ObjectRecord<T, O>| r.spec_line(spacing)),
                "\n"@,
            ),
            Entry::NonLeaf { children, .. } => spacing + "NonLeaf\n"@ + joined(
                ChildRecord::spec_lines_of(children@, spacing),
                "\n"@,
            ),
        }
    }

    /// The node as text, behind `indent` tabs.
    pub open spec fn spec_to_string(self, indent: nat) -> Seq<char> {
        self.spec_dump(tabs(indent))
    }

    /// The node as text, each of its lines behind `spacing`.
    pub fn dump(&self, spacing: &str) -> (text: String)
        ensures
            text@ == self.spec_dump(spacing@),
        decreases self,
    {
        let mut result = String::from_str(spacing);
        match self {
            Entry::Leaf { children } => {
                result.append("Leaf\n");
                let ghost lines = children@.map_values(
                    |r: ObjectRecord<T, O>| r.spec_line(spacing@),
                );
                let ghost head = spacing@ + "Leaf\n"@;
                let mut i: usize = 0;
                assert(lines.take(0) =~= Seq::empty());
                assert(head + joined(lines.take(0), "\n"@) =~= head);
                while i < children.len()
                    invariant
                        i <= children.len(),
                        lines.len() == children.len(),
                        forall|k: int|
                            0 <= k < children.len() ==> lines[k] == (#[trigger] children@[k]).spec_line(
                                spacing@,
                            ),
                        result@ == head + joined(lines.take(i as int), "\n"@),
                    decreases children.len() - i,
                {
                    let ghost before = result@;
                    if i > 0 {
                        result.append("\n");
                    }
                    let line = record_line(spacing, &children[i]);
                    result.append(line.as_str());
                    proof {
                        assert(lines.take(i + 1).drop_last() =~= lines.take(i as int));
                        assert(lines.take(i + 1).last() == lines[i as int]);
                        if i > 0 {
                            assert(result@ =~= head + (joined(lines.take(i as int), "\n"@) + "\n"@
                                + lines[i as int]));
                        } else {
                            assert(result@ =~= head + lines[0]);
                        }
                    }
                    i += 1;
                }
                assert(lines.take(i as int) =~= lines);
            },
            Entry::NonLeaf { children, .. } => {
                result.append("NonLeaf\n");
                let ghost lines = ChildRecord::spec_lines_of(children@, spacing@);
                let ghost head = spacing@ + "NonLeaf\n"@;
                let mut deeper = String::from_str(spacing);
                deeper.append("\t");
                let mut i: usize = 0;
                proof {
                    lemma_lines_of(children@, spacing@);
                    assert(lines.take(0) =~= Seq::empty());
                    assert(head + joined(lines.take(0), "\n"@) =~= head);
                }
                while i < children.len()
                    invariant
                        i <= children.len(),
                        self matches Entry::NonLeaf { children: c, .. } && c == children,
                        deeper@ == spacing@ + "\t"@,
                        lines.len() == children.len(),
                        forall|k: int|
                            0 <= k < children.len() ==> lines[k] == (#[trigger] children@[k]).spec_line(
                                spacing@,
                            ),
                        result@ == head + joined(lines.take(i as int), "\n"@),
                    decreases children.len() - i,
                {
                    if i > 0 {
                        result.append("\n");
                    }
                    let child = &children[i];
                    result.append(spacing);
                    let rectangle = box_text(&child.0);
                    result.append(rectangle.as_str());
                    result.append(":\n");
                    let below = child.1.dump(deeper.as_str());
                    result.append(below.as_str());
                    proof {
                        assert(lines.take(i + 1).drop_last() =~= lines.take(i as int));
                        assert(lines.take(i + 1).last() == lines[i as int]);
                        if i > 0 {
                            assert(result@ =~= head + (joined(lines.take(i as int), "\n"@) + "\n"@
                                + lines[i as int]));
                        } else {
                            assert(result@ =~= head + lines[0]);
                        }
                    }
                    i += 1;
                }
                assert(lines.take(i as int) =~= lines);
            },
        }
        result
    }

    /// The node as text, behind `indent` tabs.
    pub fn to_string(&self, indent: usize) -> (text: String)
        ensures
            text@ == self.spec_to_string(indent as nat),
    {
        let spacing = tabs_text(indent);
        self.dump(spacing.as_str())
    }
}

impl<T: Coordinate, O: ObjectId> RTree<T, O> {
    /// The tree as text: its bounds, then its nodes from the root down, each
    /// level one tab deeper than the one above.
    pub open spec fn spec_display(self) -> Seq<char> {
        let bounds = "RTree(min:"@ + decimal(self.config.minimum_entries_per_node as int)
            + " max:"@ + decimal(self.config.maximum_entries_per_node as int);
        match self.root {
            None => bounds + ")\n\tEmpty"@,
            Some(root) => bounds + "):\n"@ + root.spec_to_string(1) + "\n"@,
        }
    }

    /// The tree as text, for the eye.
    pub fn to_display_string(&self) -> (text: String)
        ensures
            text@ == self.spec_display(),
    {
        let mut result = String::from_str("RTree(min:");
        result.append(unsigned_text(self.config.minimum_entries_per_node() as u64).as_str());
        result.append(" max:");
        result.append(unsigned_text(self.config.maximum_entries_per_node() as u64).as_str());
        match &self.root {
            None => {
                result.append(")\n\tEmpty");
            },
            Some(root) => {
                result.append("):\n");
                result.append(root.to_string(1).as_str());
                result.append("\n");
            },
        }
        result
    }
}

/// The lines of a run of children, one by one.
pub proof fn lemma_lines_of<T: Coordinate, O: ObjectId>(
    children: Seq<ChildRecord<T, O>>,
    spacing: Seq<char>,
)
    ensures
        ChildRecord::spec_lines_of(children, spacing).len() == children.len(),
        forall|k: int|
            0 <= k < children.len() ==> ChildRecord::spec_lines_of(children, spacing)[k] == (
            #[trigger] children[k]).spec_line(spacing),
    decreases children.len(),
{
    if children.len() > 0 {
        lemma_lines_of(children.drop_last(), spacing);
        assert forall|k: int| 0 <= k < children.len() implies ChildRecord::spec_lines_of(
            children,
            spacing,
        )[k] == (#[trigger] children[k]).spec_line(spacing) by {
            if k < children.len() - 1 {
                assert(children.drop_last()[k] == children[k]);
            }
        }
    }
}

/// `indent` tabs.
pub fn tabs_text(indent: usize) -> (text: String)
    ensures
        text@ == tabs(indent as nat),
{
    let mut text = String::new();
    let mut i: usize = 0;
    while i < indent
        invariant
            i <= indent,
            text@ == tabs(i as nat),
        decreases indent - i,
    {
        text.append("\t");
        i += 1;
    }
    text
}

/// A rectangle as a list item.
pub fn box_text<T: Coordinate>(rectangle: &Rectangle<T>) -> (text: String)
    ensures
        text@ == spec_box_text(*rectangle),
{
    let mut text = String::from_str("- [x0: ");
    text.append(rectangle.low.x.to_text().as_str());
    text.append(", y0: ");
    text.append(rectangle.low.y.to_text().as_str());
    text.append(", x1: ");
    text.append(rectangle.high.x.to_text().as_str());
    text.append(", y1: ");
    text.append(rectangle.high.y.to_text().as_str());
    text.append("]");
    text
}

/// The line of a record behind `spacing`.
pub fn record_line<T: Coordinate, O: ObjectId>(spacing: &str, record: &ObjectRecord<T, O>) -> (text:
    String)
    ensures
        text@ == record.spec_line(spacing@),
{
    let mut text = String::from_str(spacing);
    text.append(box_text(&record.0).as_str());
    text.append(": ");
    text.append(record.1.to_text().as_str());
    text
}

} // verus!
