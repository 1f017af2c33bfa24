//! Reads the tree that the tree-sitter parser produced into the library's
//! own flat syntax tree.

use crate::error::PrismError;
use crate::tree::{SyntaxNode, SyntaxTree};
use crate::types::SourceLocation;
use vstd::prelude::*;
use vstd::string::*;

verus! {

/// The parsing library's `Tree`: what its parser makes of a text.
#[verifier::external_type_specification]
#[verifier::external_body]
pub struct ExTree(tree_sitter::Tree);

/// The parsing library's `Node`: one node of a `Tree`.
#[verifier::external_type_specification]
#[verifier::external_body]
pub struct ExNode<'a>(tree_sitter::Node<'a>);

/// Calls `Tree::root_node`. A tree always has a root; nothing is claimed of it.
#[verifier::external_body]
fn tree_root_node<'a>(tree: &'a tree_sitter::Tree) -> (root: tree_sitter::Node<'a>) {
    tree.root_node()
}

/// Calls `Node::descendant_count`: the number of nodes below a node, the
/// node itself counted. Nothing is claimed of the number.
#[verifier::external_body]
fn node_descendant_count<'a>(node: &tree_sitter::Node<'a>) -> (count: usize) {
    node.descendant_count()
}

/// Calls `Node::child_count`. Nothing is claimed of the number.
#[verifier::external_body]
fn node_child_count<'a>(node: &tree_sitter::Node<'a>) -> (count: u32) {
    node.child_count()
}

/// Calls `Node::child`, which gives `None` where the node has no child at
/// that position. Nothing is claimed of the child.
#[verifier::external_body]
fn node_child<'a>(node: &tree_sitter::Node<'a>, i: u32) -> (child: Option<tree_sitter::Node<'a>>) {
    node.child(i)
}

/// Calls `Node::field_name_for_child` and copies the name. Nothing is
/// claimed of it.
#[verifier::external_body]
fn node_field_name_for_child<'a>(node: &tree_sitter::Node<'a>, i: u32) -> (name: Option<String>) {
    match node.field_name_for_child(i) {
        Some(name) => Some(name.to_string()),
        None => None,
    }
}

/// Calls `Node::kind` and copies the label. Nothing is claimed of it.
#[verifier::external_body]
fn node_kind<'a>(node: &tree_sitter::Node<'a>) -> (kind: String) {
    node.kind().to_string()
}

/// Calls `Node::is_named`.
#[verifier::external_body]
fn node_is_named<'a>(node: &tree_sitter::Node<'a>) -> (named: bool) {
    node.is_named()
}

/// Calls `Node::is_error`.
#[verifier::external_body]
fn node_is_error<'a>(node: &tree_sitter::Node<'a>) -> (error: bool) {
    node.is_error()
}

/// Calls `Node::is_missing`.
#[verifier::external_body]
fn node_is_missing<'a>(node: &tree_sitter::Node<'a>) -> (missing: bool) {
    node.is_missing()
}

/// Calls `Node::start_byte`. Nothing is claimed of the offset.
#[verifier::external_body]
fn node_start_byte<'a>(node: &tree_sitter::Node<'a>) -> (offset: usize) {
    node.start_byte()
}

/// Calls `Node::end_byte`. Nothing is claimed of the offset.
#[verifier::external_body]
fn node_end_byte<'a>(node: &tree_sitter::Node<'a>) -> (offset: usize) {
    node.end_byte()
}

/// Calls `Node::start_position` and hands out its row and column. Nothing
/// is claimed of them.
#[verifier::external_body]
fn node_start_position<'a>(node: &tree_sitter::Node<'a>) -> (position: (usize, usize)) {
    let point = node.start_position();
    (point.row, point.column)
}

/// Calls `Node::end_position` and hands out its row and column. Nothing is
/// claimed of them.
#[verifier::external_body]
fn node_end_position<'a>(node: &tree_sitter::Node<'a>) -> (position: (usize, usize)) {
    let point = node.end_position();
    (point.row, point.column)
}

/// A node that waits to be read, with the place of its parent in the list
/// and the field of the parent that holds it.
struct Pending<'a> {
    node: tree_sitter::Node<'a>,
    parent: usize,
    field: Option<String>,
}

fn read_node<'a>(node: &tree_sitter::Node<'a>, parent: usize, field: Option<String>) -> (r:
    SyntaxNode)
    ensures
        r.parent == parent,
        r.field == field,
{
    let start = node_start_position(node);
    let end = node_end_position(node);
    SyntaxNode {
        kind: node_kind(node),
        field,
        parent,
        named: node_is_named(node),
        error: node_is_error(node),
        missing: node_is_missing(node),
        start_byte: node_start_byte(node),
        end_byte: node_end_byte(node),
        location: SourceLocation {
            start_row: start.0,
            start_column: start.1,
            end_row: end.0,
            end_column: end.1,
        },
    }
}

/// Reads a parsed tree, node by node in document order, into a `SyntaxTree`.
/// Fails with a parse error where the tree holds more nodes than it says it
/// does, or where what it says of a node's place is not in order; whatever
/// the parser handed over, a tree that comes back is well formed.
pub fn lower_tree(tree: &tree_sitter::Tree) -> (r: Result<SyntaxTree, PrismError>)
    ensures
        match r {
            Ok(t) => t.wf(),
            Err(e) => e is ParseError,
        },
{
    let root = tree_root_node(tree);
    let limit = node_descendant_count(&root);
    let mut nodes: Vec<SyntaxNode> = Vec::new();
    let mut stack: Vec<Pending> = Vec::new();
    stack.push(Pending { node: root, parent: 0, field: None });
    while stack.len() > 0 && nodes.len() < limit
        invariant
            nodes@.len() <= limit,
        decreases limit - nodes@.len(),
    {
        let item = match stack.pop() {
            Some(item) => item,
            None => {
                break ;
            },
        };
        let index = nodes.len();
        let count = node_child_count(&item.node);
        let mut i: u32 = count;
        while i > 0
            invariant
                i <= count,
            decreases i,
        {
            i = i - 1;
            match node_child(&item.node, i) {
                Some(child) => {
                    let field = node_field_name_for_child(&item.node, i);
                    stack.push(Pending { node: child, parent: index, field });
                },
                None => {},
            }
        }
        nodes.push(read_node(&item.node, item.parent, item.field));
    }
    if stack.len() > 0 {
        return Err(
            PrismError::ParseError(
                String::from_str("Syntax tree holds more nodes than it reports"),
            ),
        );
    }
    match SyntaxTree::new(nodes) {
        Some(t) => Ok(t),
        None => Err(PrismError::ParseError(String::from_str("Syntax tree is not in order"))),
    }
}

} // verus!
