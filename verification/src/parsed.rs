//! Reading the tree that the parser has built.
//!
//! The parser keeps its tree to itself and answers questions about single
//! nodes. Nothing is taken on trust from those answers: they are written
//! down as rows, and `SyntaxTree::from_rows` refuses what would not be a tree.

use crate::tree::{walked, Row, SyntaxTree};
use vstd::prelude::*;

verus! {

/// `tree_sitter::Tree`, the tree that the parser has built.
#[verifier::external_type_specification]
#[verifier::external_body]
pub struct ExTree(tree_sitter::Tree);

/// `tree_sitter::Node`, the parser's handle for a node of its tree.
#[verifier::external_type_specification]
#[verifier::external_body]
pub struct ExNode<'a>(tree_sitter::Node<'a>);

/// The root of a parsed tree: `Tree::root_node`.
#[verifier::external_body]
fn parsed_root<'a>(tree: &'a tree_sitter::Tree) -> (root: tree_sitter::Node<'a>) {
    tree.root_node()
}

/// Where a node begins: `Node::start_byte`.
#[verifier::external_body]
fn parsed_start(node: &tree_sitter::Node) -> (byte: usize) {
    node.start_byte()
}

/// Where a node ends: `Node::end_byte`.
#[verifier::external_body]
fn parsed_end(node: &tree_sitter::Node) -> (byte: usize) {
    node.end_byte()
}

/// How many children a node has: `Node::child_count`.
#[verifier::external_body]
fn parsed_child_count(node: &tree_sitter::Node) -> (count: usize) {
    node.child_count()
}

/// The child of a node at a position: `Node::child`.
#[verifier::external_body]
fn parsed_child<'a>(node: &tree_sitter::Node<'a>, i: usize) -> (child: Option<
    tree_sitter::Node<'a>,
>) {
    node.child(i)
}

/// A node whose children are being entered into the table.
struct Visit<'a> {
    /// The parser's node.
    node: tree_sitter::Node<'a>,
    /// How many nodes lie above the node.
    depth: usize,
    /// How many of its children were looked at.
    seen: usize,
}

/// The nodes of a parsed tree as a table: the root first, and every other
/// node after its parent and after the siblings to its left. There is no
/// table where the parser's nodes do not nest or follow one another as the
/// nodes of a tree do.
pub fn table_of(tree: &tree_sitter::Tree) -> (r: Option<SyntaxTree>)
    ensures
        r matches Some(table) ==> table.wf(),
{
    let root = parsed_root(tree);
    match rows_below(root) {
        Some(rows) => SyntaxTree::from_rows(parsed_start(&root), parsed_end(&root), &rows),
        None => None,
    }
}

/// The nodes below `root` as the parser tells of them, every node before
/// its children and the children of a node from left to right. The walk
/// gives up after as many steps as a `usize` can count.
fn rows_below(root: tree_sitter::Node) -> (r: Option<Vec<Row>>)
    ensures
        r matches Some(rows) ==> walked(rows@),
{
    let mut rows: Vec<Row> = Vec::new();
    let mut open: Vec<Visit> = Vec::new();
    open.push(Visit { node: root, depth: 0, seen: 0 });
    let mut budget: usize = usize::MAX;
    while open.len() > 0
        invariant
            forall|i: int| 0 <= i < open@.len() ==> (#[trigger] open@[i]).depth == i,
            walked(rows@),
            rows@.len() == 0 ==> open@.len() <= 1,
            rows@.len() > 0 ==> open@.len() <= rows@.last().depth + 1,
        decreases budget,
    {
        if budget == 0 {
            return None;
        }
        budget = budget - 1;
        let top = open.len() - 1;
        let node = open[top].node;
        let depth = open[top].depth;
        let seen = open[top].seen;
        if seen >= parsed_child_count(&node) {
            open.pop();
        } else {
            open.set(top, Visit { node, depth, seen: seen + 1 });
            if let Some(child) = parsed_child(&node, seen) {
                rows.push(
                    Row { depth: depth + 1, start: parsed_start(&child), end: parsed_end(&child) },
                );
                open.push(Visit { node: child, depth: depth + 1, seen: 0 });
            }
        }
    }
    Some(rows)
}

} // verus!
