//! A spatial index over axis-aligned rectangles in the plane: an R-tree with
//! insertion, deletion, and search by area or by point, proved against its
//! contracts.
//!
//! - [`geometry2d`]: coordinates, points and rectangles.
//! - [`r_tree`]: the tree, its invariant, and its operations. A tree stands
//!   for the multiset of the records that it holds; `r_tree::laws` states what
//!   holds of every well-formed tree.
//! - [`graphviz`]: a directed graph and its description in the DOT language,
//!   into which a tree can be exported for drawing.
//! - [`text`]: integers as decimal text.

pub mod geometry2d;
pub mod graphviz;
pub mod r_tree;
pub mod text;
