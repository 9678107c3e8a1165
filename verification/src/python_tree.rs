//! The syntax tree that `tree_sitter` builds for Python source, seen as a
//! plain value.
//!
//! [`python_syntax`] names the tree that `tree_sitter` with the
//! `tree_sitter_python` grammar builds for a source: parsing is a function of
//! the source alone.  The handles below carry, as ghost values, the source
//! they were parsed from and the path of child indices that leads from the
//! root to their node; only the functions of this module make them, so each
//! handle stands for the node of [`python_syntax`] at its path.
use vstd::prelude::*;

verus! {

#[verifier::external_type_specification]
#[verifier::external_body]
pub struct ExTree(tree_sitter::Tree);

#[verifier::external_type_specification]
#[verifier::external_body]
pub struct ExNode<'tree>(tree_sitter::Node<'tree>);

/// A node of a syntax tree as plain values: its kind, byte range, start row
/// and column, and for each child index what `Node::child` gives there and
/// the name of the field the child stands in.
pub struct PyNode {
    pub kind: Seq<char>,
    pub start_byte: nat,
    pub end_byte: nat,
    pub row: nat,
    pub column: nat,
    pub children: Seq<Option<PyNode>>,
    pub fields: Seq<Option<Seq<char>>>,
}

/// The syntax tree that `tree_sitter::Parser::parse` builds for `source`
/// with the grammar of `tree_sitter_python` and no earlier tree.
pub uninterp spec fn python_syntax(source: Seq<u8>) -> PyNode;

/// The node that the child indices of `path` lead to from `t`.
pub open spec fn node_at(t: PyNode, path: Seq<int>) -> PyNode
    decreases path.len(),
{
    if path.len() == 0 {
        t
    } else if 0 <= path[0] < t.children.len() && t.children[path[0]] is Some {
        node_at(t.children[path[0]]->0, path.drop_first())
    } else {
        t
    }
}

/// A parsed tree, with the source it was parsed from.
pub struct PyTree {
    tree: tree_sitter::Tree,
    source: Ghost<Seq<u8>>,
}

impl View for PyTree {
    type V = Seq<u8>;

    closed spec fn view(&self) -> Seq<u8> {
        self.source@
    }
}

/// A node of a parsed tree, with the source and the path of child indices
/// that lead to it.
#[derive(Clone, Copy)]
pub struct PyHandle<'tree> {
    node: tree_sitter::Node<'tree>,
    source: Ghost<Seq<u8>>,
    path: Ghost<Seq<int>>,
}

impl<'tree> View for PyHandle<'tree> {
    type V = (Seq<u8>, Seq<int>);

    closed spec fn view(&self) -> (Seq<u8>, Seq<int>) {
        (self.source@, self.path@)
    }
}

/// Calls `tree_sitter::Parser::new`, `Parser::set_language` with the grammar
/// of `tree_sitter_python`, and `Parser::parse` on the source with no
/// earlier tree.  Trusted to give the tree of `source`: in the sources
/// brought, `set_language` accepts a grammar whose ABI version lies in
/// 13..=15 and that has a lexer (the Python grammar is version 15, native,
/// with a lexer), and `parse` gives `None` only without a language, with a
/// different language in the old tree, for a WebAssembly grammar, on a
/// WebAssembly scanner error, or when a progress callback stops it, none of
/// which can happen here.
#[verifier::external_body]
pub fn parse_python(source: &[u8]) -> (r: Option<PyTree>)
    ensures
        r is Some,
        r->0@ == source@,
{
    let mut parser = tree_sitter::Parser::new();
    parser.set_language(&tree_sitter_python::LANGUAGE.into()).ok()?;
    let tree = parser.parse(source, None)?;
    Some(PyTree { tree, source: Ghost(source@) })
}

/// Calls `Tree::root_node`: the root, at the empty path.
#[verifier::external_body]
pub fn root_node<'tree>(tree: &'tree PyTree) -> (r: PyHandle<'tree>)
    ensures
        r@ == (tree@, Seq::<int>::empty()),
{
    PyHandle { node: tree.tree.root_node(), source: Ghost(tree.source@), path: Ghost(Seq::empty()) }
}

/// Calls `Node::kind`.
#[verifier::external_body]
pub fn node_kind(node: &PyHandle) -> (r: String)
    ensures
        r@ == node_at(python_syntax(node@.0), node@.1).kind,
{
    node.node.kind().to_string()
}

/// Calls `Node::start_byte`.
#[verifier::external_body]
pub fn node_start_byte(node: &PyHandle) -> (r: usize)
    ensures
        r == node_at(python_syntax(node@.0), node@.1).start_byte,
{
    node.node.start_byte()
}

/// Calls `Node::end_byte`.
#[verifier::external_body]
pub fn node_end_byte(node: &PyHandle) -> (r: usize)
    ensures
        r == node_at(python_syntax(node@.0), node@.1).end_byte,
{
    node.node.end_byte()
}

/// Calls `Node::start_position`: its row and column, which `tree_sitter`
/// keeps as `u32` values and widens to `usize`.
#[verifier::external_body]
pub fn node_start_position(node: &PyHandle) -> (r: (usize, usize))
    ensures
        r.0 == node_at(python_syntax(node@.0), node@.1).row,
        r.1 == node_at(python_syntax(node@.0), node@.1).column,
        r.0 <= u32::MAX,
        r.1 <= u32::MAX,
{
    let p = node.node.start_position();
    (p.row, p.column)
}

/// Calls `Node::child_count`, which is a `u32`: the number of child indices.
#[verifier::external_body]
pub fn node_child_count(node: &PyHandle) -> (r: usize)
    ensures
        r == node_at(python_syntax(node@.0), node@.1).children.len(),
        r <= u32::MAX,
{
    node.node.child_count() as usize
}

/// Calls `Node::child` with index `i`: the node one step further along
/// child index `i`, when there is one.
#[verifier::external_body]
pub fn node_child<'tree>(node: &PyHandle<'tree>, i: usize) -> (r: Option<PyHandle<'tree>>)
    requires
        i < node_at(python_syntax(node@.0), node@.1).children.len(),
    ensures
        r is Some <==> node_at(python_syntax(node@.0), node@.1).children[i as int] is Some,
        r matches Some(c) ==> c@ == (node@.0, node@.1.push(i as int)),
{
    match node.node.child(i as u32) {
        Some(c) => Some(PyHandle { node: c, source: Ghost(node.source@), path: Ghost(node.path@.push(i as int)) }),
        None => None,
    }
}

/// Calls `Node::field_name_for_child` with index `i`.
#[verifier::external_body]
pub fn node_field_name(node: &PyHandle, i: usize) -> (r: Option<String>)
    requires
        i < node_at(python_syntax(node@.0), node@.1).children.len(),
    ensures
        match r {
            Some(f) => node_at(python_syntax(node@.0), node@.1).fields[i as int] == Some(f@),
            None => node_at(python_syntax(node@.0), node@.1).fields[i as int] is None,
        },
{
    match node.node.field_name_for_child(i as u32) {
        Some(f) => Some(f.to_string()),
        None => None,
    }
}

} // verus!
