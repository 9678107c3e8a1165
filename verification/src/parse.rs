//! Parse a Python file into a [`Module`]: definitions, imports, docstrings
//! and `__all__`.
//!
//! The `tree_sitter` parser builds the syntax tree; it is copied into the
//! library's own [`SyntaxTree`], and everything read from it is decided by
//! verified code over that copy.
use vstd::prelude::*;
use crate::discover::{is_init_file, is_package_file};
use crate::graph::{
    Docstring, Import, ImportV, Module, SourceLocation, Symbol, SymbolKind, import_view,
    imports_view, insert_symbol, put_symbol, sym_pos, find_symbol,
};
use crate::text::{
    chars_of, has_prefix, join_range, lemma_split_nonempty, seq_views, slice_chars, split_chars,
    str_eq, string_of, string_views, utf8_text,
};
use crate::fast_scan::dotted_import;
use crate::util::{leading_dots, relative_import_target};
use crate::python_tree::{
    PyHandle, PyNode, PyTree, node_at, node_child, node_child_count, node_end_byte, node_field_name,
    node_kind, node_start_byte, node_start_position, parse_python, python_syntax, root_node,
};

verus! {

// ---------------------------------------------------------------------------
// The library's syntax tree
// ---------------------------------------------------------------------------

/// One node of a syntax tree.  Its children are the nodes
/// `first_child .. first_child + child_count` of the tree.
#[derive(Debug)]
pub struct SyntaxNode {
    /// The grammar's name for the node (e.g. `class_definition`).
    pub kind: String,
    /// The field under which the node stands in its parent, if any.
    pub field: Option<String>,
    /// The byte range of the source that the node spans.
    pub start_byte: usize,
    pub end_byte: usize,
    /// Zero-based row and byte column where the node starts.
    pub row: usize,
    pub column: usize,
    pub first_child: usize,
    pub child_count: usize,
}

/// A node as plain values.
pub struct SyntaxNodeV {
    pub kind: Seq<char>,
    pub field: Option<Seq<char>>,
    pub start_byte: int,
    pub end_byte: int,
    pub row: int,
    pub column: int,
    pub first_child: int,
    pub child_count: int,
}

impl View for SyntaxNode {
    type V = SyntaxNodeV;

    open spec fn view(&self) -> SyntaxNodeV {
        SyntaxNodeV {
            kind: self.kind@,
            field: match self.field {
                Some(f) => Some(f@),
                None => None,
            },
            start_byte: self.start_byte as int,
            end_byte: self.end_byte as int,
            row: self.row as int,
            column: self.column as int,
            first_child: self.first_child as int,
            child_count: self.child_count as int,
        }
    }
}

/// A syntax tree: the nodes in breadth-first order, the root first.
#[derive(Debug)]
pub struct SyntaxTree {
    pub nodes: Vec<SyntaxNode>,
}

impl View for SyntaxTree {
    type V = Seq<SyntaxNodeV>;

    open spec fn view(&self) -> Seq<SyntaxNodeV> {
        self.nodes@.map_values(|n: SyntaxNode| n@)
    }
}

/// Node `i` lies before its children, which lie inside the tree, and its
/// position can be counted from one.
pub open spec fn node_wf(nodes: Seq<SyntaxNodeV>, i: int) -> bool {
    i < nodes[i].first_child && nodes[i].first_child + nodes[i].child_count <= nodes.len()
        && nodes[i].row < usize::MAX && nodes[i].column < usize::MAX
}

/// A well-formed tree: a root and well-formed nodes.
pub open spec fn syntax_wf(nodes: Seq<SyntaxNodeV>) -> bool {
    nodes.len() > 0 && forall|i: int| 0 <= i < nodes.len() ==> #[trigger] node_wf(nodes, i)
}

/// The `j`-th child of node `i`.
pub open spec fn child(nodes: Seq<SyntaxNodeV>, i: int, j: int) -> int {
    nodes[i].first_child + j
}

/// Whether node `c` stands in field `f` of its parent.
pub open spec fn in_field(nodes: Seq<SyntaxNodeV>, c: int, f: Seq<char>) -> bool {
    match nodes[c].field {
        Some(x) => x == f,
        None => false,
    }
}

/// The first child of node `i` from the `j`-th on that stands in field
/// `f`, or -1.
pub open spec fn field_from(nodes: Seq<SyntaxNodeV>, i: int, f: Seq<char>, j: int) -> int
    decreases nodes[i].child_count - j,
{
    if j < 0 || j >= nodes[i].child_count {
        -1
    } else if in_field(nodes, child(nodes, i, j), f) {
        child(nodes, i, j)
    } else {
        field_from(nodes, i, f, j + 1)
    }
}

/// The first child of node `i` in field `f` (`child_by_field_name`), or -1.
pub open spec fn field_child(nodes: Seq<SyntaxNodeV>, i: int, f: Seq<char>) -> int {
    field_from(nodes, i, f, 0)
}

proof fn lemma_field_from(nodes: Seq<SyntaxNodeV>, i: int, f: Seq<char>, j: int)
    requires
        syntax_wf(nodes),
        0 <= i < nodes.len(),
        0 <= j,
    ensures
        field_from(nodes, i, f, j) == -1 || (i < field_from(nodes, i, f, j) < nodes.len()),
    decreases nodes[i].child_count - j,
{
    assert(node_wf(nodes, i));
    if j < nodes[i].child_count && !in_field(nodes, child(nodes, i, j), f) {
        lemma_field_from(nodes, i, f, j + 1);
    }
}

/// The first child of node `i` of kind `k`, or -1.
pub open spec fn kind_from(nodes: Seq<SyntaxNodeV>, i: int, k: Seq<char>, j: int) -> int
    decreases nodes[i].child_count - j,
{
    if j < 0 || j >= nodes[i].child_count {
        -1
    } else if nodes[child(nodes, i, j)].kind == k {
        child(nodes, i, j)
    } else {
        kind_from(nodes, i, k, j + 1)
    }
}

/// The text of node `i`: its bytes of the source decoded, when they lie in
/// the source and are UTF-8 (`Node::utf8_text`).
pub open spec fn node_text(nodes: Seq<SyntaxNodeV>, src: Seq<u8>, i: int) -> Option<Seq<char>> {
    let s = nodes[i].start_byte as int;
    let e = nodes[i].end_byte as int;
    if s <= e <= src.len() && vstd::utf8::valid_utf8(src.subrange(s, e)) {
        Some(vstd::utf8::decode_utf8(src.subrange(s, e)))
    } else {
        None
    }
}

/// The text of node `i`, or the empty text.
pub open spec fn text_or_empty(nodes: Seq<SyntaxNodeV>, src: Seq<u8>, i: int) -> Seq<char> {
    match node_text(nodes, src, i) {
        Some(t) => t,
        None => Seq::empty(),
    }
}

// ---------------------------------------------------------------------------
// Reading the tree
// ---------------------------------------------------------------------------

/// Whether node `i` has kind `k`.
fn kind_is(t: &SyntaxTree, i: usize, k: &str) -> (r: bool)
    requires
        i < t@.len(),
    ensures
        r == (t@[i as int].kind == k@),
{
    str_eq(t.nodes[i].kind.as_str(), k)
}

/// The first child of node `i` in field `f`.
fn field_child_exec(t: &SyntaxTree, i: usize, f: &str) -> (r: Option<usize>)
    requires
        syntax_wf(t@),
        i < t@.len(),
    ensures
        match r {
            Some(c) => c as int == field_child(t@, i as int, f@) && i < c < t@.len(),
            None => field_child(t@, i as int, f@) == -1,
        },
{
    proof {
        lemma_field_from(t@, i as int, f@, 0);
    }
    let n = &t.nodes[i];
    let len = t.nodes.len();
    assert(node_wf(t@, i as int));
    let mut j: usize = 0;
    while j < n.child_count
        invariant
            len == t@.len(),
            syntax_wf(t@),
            i < t@.len(),
            *n == t.nodes@[i as int],
            n.first_child + n.child_count <= t@.len(),
            i < n.first_child,
            j <= n.child_count,
            field_child(t@, i as int, f@) == field_from(t@, i as int, f@, j as int),
        decreases n.child_count - j,
    {
        assert(n.first_child + j < t@.len());
        let c = n.first_child + j;
        let hit = match &t.nodes[c].field {
            Some(x) => str_eq(x.as_str(), f),
            None => false,
        };
        if hit {
            return Some(c);
        }
        j = j + 1;
    }
    None
}

/// The first child of node `i` of kind `k`.
fn kind_child_exec(t: &SyntaxTree, i: usize, k: &str) -> (r: Option<usize>)
    requires
        syntax_wf(t@),
        i < t@.len(),
    ensures
        match r {
            Some(c) => c as int == kind_from(t@, i as int, k@, 0) && i < c < t@.len(),
            None => kind_from(t@, i as int, k@, 0) == -1,
        },
{
    let n = &t.nodes[i];
    let len = t.nodes.len();
    assert(node_wf(t@, i as int));
    let mut j: usize = 0;
    while j < n.child_count
        invariant
            len == t@.len(),
            syntax_wf(t@),
            i < t@.len(),
            *n == t.nodes@[i as int],
            n.first_child + n.child_count <= t@.len(),
            i < n.first_child,
            j <= n.child_count,
            kind_from(t@, i as int, k@, 0) == kind_from(t@, i as int, k@, j as int),
        decreases n.child_count - j,
    {
        assert(n.first_child + j < t@.len());
        let c = n.first_child + j;
        if kind_is(t, c, k) {
            return Some(c);
        }
        j = j + 1;
    }
    None
}

/// The text of node `i`.
fn node_text_exec(t: &SyntaxTree, src: &[u8], i: usize) -> (r: Option<Vec<char>>)
    requires
        i < t@.len(),
    ensures
        match r {
            Some(v) => node_text(t@, src@, i as int) == Some(v@),
            None => node_text(t@, src@, i as int) is None,
        },
{
    let s = t.nodes[i].start_byte;
    let e = t.nodes[i].end_byte;
    if !(s <= e && e <= src.len()) {
        return None;
    }
    let bytes = vstd::slice::slice_subrange(src, s, e);
    match utf8_text(bytes) {
        None => None,
        Some(text) => {
            proof {
                vstd::utf8::decode_utf8_encode_utf8(bytes@);
                vstd::utf8::encode_utf8_decode_utf8(text@);
            }
            Some(chars_of(text))
        },
    }
}

/// Whether the text of node `i` is `x`.
fn text_is(t: &SyntaxTree, src: &[u8], i: usize, x: &str) -> (r: bool)
    requires
        i < t@.len(),
    ensures
        r == (node_text(t@, src@, i as int) == Some(x@)),
{
    match node_text_exec(t, src, i) {
        None => false,
        Some(v) => crate::text::str_is(x, v.as_slice()),
    }
}

// ---------------------------------------------------------------------------
// Building the tree with `tree_sitter`
// ---------------------------------------------------------------------------

/// The paths of the children that `Node::child` gives among the first `n`
/// child indices of the node at path `p`, in index order.
pub open spec fn kid_paths(t: PyNode, p: Seq<int>, n: int) -> Seq<Seq<int>>
    decreases n,
{
    if n <= 0 {
        Seq::empty()
    } else {
        let acc = kid_paths(t, p, n - 1);
        if node_at(t, p).children[n - 1] is Some {
            acc.push(p.push(n - 1))
        } else {
            acc
        }
    }
}

/// The breadth-first queue of node paths once the first `i` nodes have been
/// visited: the root, then the children of each visited node.
pub open spec fn bfs_queue(t: PyNode, i: nat) -> Seq<Seq<int>>
    decreases i,
{
    if i == 0 {
        seq![Seq::empty()]
    } else {
        let q = bfs_queue(t, (i - 1) as nat);
        if i - 1 < q.len() {
            q + kid_paths(t, q[i - 1], node_at(t, q[i - 1]).children.len() as int)
        } else {
            q
        }
    }
}

/// The breadth-first walk ends after exactly `n` nodes.
pub open spec fn bfs_ends_at(t: PyNode, n: nat) -> bool {
    &&& bfs_queue(t, n).len() == n
    &&& forall|j: nat| j < n ==> j < #[trigger] bfs_queue(t, j).len()
}

/// The `k`-th node of the breadth-first walk as a [`SyntaxNodeV`]: its own
/// values, the field it stands in, and where its children lie in the walk.
pub open spec fn walk_node(t: PyNode, k: nat) -> SyntaxNodeV {
    let q = bfs_queue(t, k);
    let p = q[k as int];
    let nd = node_at(t, p);
    SyntaxNodeV {
        kind: nd.kind,
        field: if p.len() == 0 {
            None
        } else {
            node_at(t, p.drop_last()).fields[p.last()]
        },
        start_byte: nd.start_byte as int,
        end_byte: nd.end_byte as int,
        row: nd.row as int,
        column: nd.column as int,
        first_child: q.len() as int,
        child_count: kid_paths(t, p, nd.children.len() as int).len() as int,
    }
}

/// The nodes of the tree that `tree_sitter` builds for `source`, in
/// breadth-first order, the root first.
pub open spec fn python_nodes(source: Seq<u8>) -> Seq<SyntaxNodeV> {
    let t = python_syntax(source);
    let n = choose|n: nat| bfs_ends_at(t, n);
    Seq::new(n, |k: int| walk_node(t, k as nat))
}

proof fn lemma_kid_paths(t: PyNode, p: Seq<int>, n: int)
    ensures
        kid_paths(t, p, n).len() <= if n < 0 { 0 } else { n },
        forall|k: int| 0 <= k < kid_paths(t, p, n).len() ==> (#[trigger] kid_paths(t, p, n)[k]).len() == p.len() + 1
            && kid_paths(t, p, n)[k].drop_last() == p && 0 <= kid_paths(t, p, n)[k].last() < n,
    decreases n,
{
    if n > 0 {
        lemma_kid_paths(t, p, n - 1);
        let acc = kid_paths(t, p, n - 1);
        if node_at(t, p).children[n - 1] is Some {
            assert(p.push(n - 1).drop_last() =~= p);
        }
    }
}

proof fn lemma_bfs_prefix(t: PyNode, a: nat, b: nat)
    requires
        a <= b,
    ensures
        bfs_queue(t, a).len() <= bfs_queue(t, b).len(),
        forall|k: int| 0 <= k < bfs_queue(t, a).len() ==> #[trigger] bfs_queue(t, b)[k] == bfs_queue(t, a)[k],
    decreases b - a,
{
    if a < b {
        lemma_bfs_prefix(t, a, (b - 1) as nat);
    }
}

proof fn lemma_bfs_paths(t: PyNode, i: nat)
    ensures
        bfs_queue(t, i).len() >= 1,
        bfs_queue(t, i)[0] == Seq::<int>::empty(),
        forall|k: int| 0 < k < bfs_queue(t, i).len() ==> (#[trigger] bfs_queue(t, i)[k]).len() > 0,
    decreases i,
{
    if i > 0 {
        lemma_bfs_paths(t, (i - 1) as nat);
        let q = bfs_queue(t, (i - 1) as nat);
        if i - 1 < q.len() {
            let kids = kid_paths(t, q[i - 1], node_at(t, q[i - 1]).children.len() as int);
            lemma_kid_paths(t, q[i - 1], node_at(t, q[i - 1]).children.len() as int);
            assert forall|k: int| 0 < k < bfs_queue(t, i).len() implies (#[trigger] bfs_queue(t, i)[k]).len() > 0 by {
                if k >= q.len() {
                    assert(bfs_queue(t, i)[k] == kids[k - q.len()]);
                }
            }
        }
    }
}

proof fn lemma_bfs_ends_unique(t: PyNode, a: nat, b: nat)
    requires
        bfs_ends_at(t, a),
        bfs_ends_at(t, b),
    ensures
        a == b,
{
    if a < b {
        assert(a < bfs_queue(t, a).len());
    } else if b < a {
        assert(b < bfs_queue(t, b).len());
    }
}

/// Copy the tree that `tree_sitter` built for `source` into a
/// [`SyntaxTree`], nodes in breadth-first order.  The copy always succeeds
/// where a machine word is wider than 32 bits; otherwise it gives `None`
/// when a node's row or column is the largest word (its position counted
/// from one would not fit).
fn convert_tree(tree: &PyTree) -> (r: Option<SyntaxTree>)
    ensures
        r matches Some(t) ==> syntax_wf(t@) && t@ == python_nodes(tree@),
        u32::MAX < usize::MAX ==> r is Some,
{
    let ghost src = tree@;
    let ghost pt = python_syntax(src);
    let root = root_node(tree);
    let mut handles: Vec<PyHandle> = Vec::new();
    let mut parents: Vec<usize> = Vec::new();
    let mut positions: Vec<usize> = Vec::new();
    handles.push(root);
    parents.push(0);
    positions.push(0);
    let mut nodes: Vec<SyntaxNode> = Vec::new();
    let mut i: usize = 0;
    let mut fuel: usize = usize::MAX;
    proof {
        assert(bfs_queue(pt, 0) =~= seq![Seq::<int>::empty()]);
    }
    while i < handles.len()
        invariant
            nodes@.len() == i,
            i <= handles@.len(),
            fuel + i == usize::MAX,
            handles@.len() >= 1,
            handles@.len() == parents@.len(),
            handles@.len() == positions@.len(),
            handles@.len() == bfs_queue(pt, i as nat).len(),
            pt == python_syntax(src),
            forall|k: int| 0 <= k < handles@.len() ==> (#[trigger] handles@[k])@ == (src, bfs_queue(pt, i as nat)[k]),
            forall|k: int| 0 < k < handles@.len() ==> #[trigger] parents@[k] < handles@.len()
                && bfs_queue(pt, i as nat)[k].drop_last() == bfs_queue(pt, i as nat)[parents@[k] as int]
                && positions@[k] == bfs_queue(pt, i as nat)[k].last()
                && positions@[k] < node_at(pt, bfs_queue(pt, i as nat)[parents@[k] as int]).children.len(),
            forall|k: int| 0 <= k < handles@.len() ==> #[trigger] positions@[k] <= u32::MAX,
            forall|j: nat| j < i ==> j < #[trigger] bfs_queue(pt, j).len(),
            forall|k: int| 0 <= k < i ==> (#[trigger] nodes@[k])@ == walk_node(pt, k as nat),
            forall|k: int|
                0 <= k < i ==> k < #[trigger] nodes@[k].first_child && nodes@[k].first_child
                    + nodes@[k].child_count <= handles@.len() && nodes@[k].row < usize::MAX
                    && nodes@[k].column < usize::MAX,
        decreases fuel,
    {
        fuel = fuel - 1;
        let ghost q = bfs_queue(pt, i as nat);
        proof {
            lemma_bfs_paths(pt, i as nat);
            lemma_bfs_prefix(pt, i as nat, (i + 1) as nat);
        }
        let h = handles[i];
        let kind = node_kind(&h);
        let start_byte = node_start_byte(&h);
        let end_byte = node_end_byte(&h);
        let (row, column) = node_start_position(&h);
        if row == usize::MAX || column == usize::MAX {
            return None;
        }
        let field = if i == 0 {
            None
        } else {
            let p = parents[i];
            let ph = handles[p];
            assert(q[i as int].drop_last() == q[p as int]);
            node_field_name(&ph, positions[i])
        };
        let n = node_child_count(&h);
        let first = handles.len();
        let mut added: usize = 0;
        let mut j: usize = 0;
        let ghost nd = node_at(pt, q[i as int]);
        proof {
            lemma_kid_paths(pt, q[i as int], 0);
        }
        while j < n
            invariant
                n <= u32::MAX,
                n == nd.children.len(),
                nd == node_at(pt, q[i as int]),
                h@ == (src, q[i as int]),
                pt == python_syntax(src),
                j <= n,
                added <= j,
                i < first,
                first == q.len(),
                i < q.len(),
                handles@.len() == first + added,
                added == kid_paths(pt, q[i as int], j as int).len(),
                handles@.len() == parents@.len(),
                handles@.len() == positions@.len(),
                forall|k: int| 0 <= k < handles@.len() ==> (#[trigger] handles@[k])@ == (src, (q + kid_paths(pt, q[i as int], j as int))[k]),
                forall|k: int| 0 < k < handles@.len() ==> #[trigger] parents@[k] < handles@.len()
                    && (q + kid_paths(pt, q[i as int], j as int))[k].drop_last() == (q + kid_paths(pt, q[i as int], j as int))[parents@[k] as int]
                    && positions@[k] == (q + kid_paths(pt, q[i as int], j as int))[k].last()
                    && positions@[k] < node_at(pt, (q + kid_paths(pt, q[i as int], j as int))[parents@[k] as int]).children.len(),
                forall|k: int| 0 <= k < handles@.len() ==> #[trigger] positions@[k] <= u32::MAX,
                forall|k: int|
                    0 <= k < i ==> k < #[trigger] nodes@[k].first_child && nodes@[k].first_child
                        + nodes@[k].child_count <= handles@.len() && nodes@[k].row < usize::MAX
                        && nodes@[k].column < usize::MAX,
            decreases n - j,
        {
            let ghost before = q + kid_paths(pt, q[i as int], j as int);
            proof {
                lemma_kid_paths(pt, q[i as int], j as int);
                lemma_kid_paths(pt, q[i as int], j + 1);
            }
            match node_child(&h, j) {
                Some(c) => {
                    handles.push(c);
                    parents.push(i);
                    positions.push(j);
                    added = added + 1;
                    proof {
                        let after = q + kid_paths(pt, q[i as int], j + 1);
                        assert(after =~= before.push(q[i as int].push(j as int)));
                        assert(q[i as int].push(j as int).drop_last() =~= q[i as int]);
                    }
                },
                None => {
                    proof {
                        assert(q + kid_paths(pt, q[i as int], j + 1) =~= before);
                    }
                },
            }
            j = j + 1;
        }
        proof {
            assert(bfs_queue(pt, (i + 1) as nat) == q + kid_paths(pt, q[i as int], n as int));
        }
        nodes.push(
            SyntaxNode {
                kind,
                field,
                start_byte,
                end_byte,
                row,
                column,
                first_child: first,
                child_count: added,
            },
        );
        i = i + 1;
    }
    let ghost n_final = i as nat;
    assert(bfs_ends_at(pt, n_final));
    proof {
        let m = choose|m: nat| bfs_ends_at(pt, m);
        lemma_bfs_ends_unique(pt, m, n_final);
    }
    let t = SyntaxTree { nodes };
    assert forall|k: int| 0 <= k < t@.len() implies #[trigger] node_wf(t@, k) by {
        assert(t@[k] == t.nodes@[k]@);
        assert(k < t.nodes@[k].first_child);
    }
    assert(t@ =~= python_nodes(src));
    Some(t)
}

/// Parse Python source into a syntax tree: the nodes of the tree that
/// `tree_sitter` builds for it, in breadth-first order.  It always gives the
/// tree where a machine word is wider than 32 bits; where it is 32 bits
/// wide, `None` when a node's row or column does not fit.
pub fn syntax_tree(source: &[u8]) -> (r: Option<SyntaxTree>)
    ensures
        r matches Some(t) ==> syntax_wf(t@) && t@ == python_nodes(source@),
        u32::MAX < usize::MAX ==> r is Some,
{
    match parse_python(source) {
        None => None,
        Some(tree) => convert_tree(&tree),
    }
}

// ---------------------------------------------------------------------------
// What parsing records: views
// ---------------------------------------------------------------------------

/// A source location as plain values.
pub struct LocV {
    pub file: Seq<char>,
    pub line: int,
    pub col: int,
}

/// A class member: name, kind and location (members have no members or
/// bases of their own).
pub struct LeafV {
    pub name: Seq<char>,
    pub kind: SymbolKind,
    pub location: Option<LocV>,
}

/// A top-level definition.
pub struct SymV {
    pub name: Seq<char>,
    pub kind: SymbolKind,
    pub members: Seq<LeafV>,
    pub bases: Seq<Seq<char>>,
    pub location: Option<LocV>,
}

/// A docstring as plain values.
pub struct DocV {
    pub line: int,
    pub col: int,
    pub content: Seq<char>,
}

/// The part of a module that parsing fills.
pub struct ParseV {
    pub defs: Seq<SymV>,
    pub imports: Seq<ImportV>,
    pub wildcards: Seq<Seq<char>>,
    pub all: Option<Seq<Seq<char>>>,
    pub docs: Seq<DocV>,
}

/// What parsing reads: the tree, the source bytes, and the module's file
/// path, dotted path and package flag.
pub struct Ctx {
    pub nodes: Seq<SyntaxNodeV>,
    pub src: Seq<u8>,
    pub file: Seq<char>,
    pub path: Seq<char>,
    pub is_package: bool,
}

pub open spec fn loc_view(l: SourceLocation) -> LocV {
    LocV { file: l.file@, line: l.line as int, col: l.col as int }
}

pub open spec fn opt_loc_view(o: Option<SourceLocation>) -> Option<LocV> {
    match o {
        Some(l) => Some(loc_view(l)),
        None => None,
    }
}

pub open spec fn leaf_view(s: Symbol) -> LeafV {
    LeafV { name: s.name@, kind: s.kind, location: opt_loc_view(s.location) }
}

pub open spec fn members_view(ms: Seq<Symbol>) -> Seq<LeafV> {
    ms.map_values(|m: Symbol| leaf_view(m))
}

/// Members with no members or bases of their own.
pub open spec fn members_ok(ms: Seq<Symbol>) -> bool {
    forall|k: int|
        0 <= k < ms.len() ==> (#[trigger] ms[k]).members@.len() == 0 && ms[k].bases@.len() == 0
}

pub open spec fn sym_view(s: Symbol) -> SymV {
    SymV {
        name: s.name@,
        kind: s.kind,
        members: members_view(s.members@),
        bases: string_views(s.bases@),
        location: opt_loc_view(s.location),
    }
}

pub open spec fn syms_view(ds: Seq<Symbol>) -> Seq<SymV> {
    ds.map_values(|d: Symbol| sym_view(d))
}

pub open spec fn syms_ok(ds: Seq<Symbol>) -> bool {
    forall|k: int| 0 <= k < ds.len() ==> members_ok((#[trigger] ds[k]).members@)
}

pub open spec fn doc_view(d: Docstring) -> DocV {
    DocV { line: d.line as int, col: d.col as int, content: d.content@ }
}

pub open spec fn docs_view(ds: Seq<Docstring>) -> Seq<DocV> {
    ds.map_values(|d: Docstring| doc_view(d))
}

pub open spec fn all_view(a: Option<Vec<String>>) -> Option<Seq<Seq<char>>> {
    match a {
        Some(v) => Some(string_views(v@)),
        None => None,
    }
}

/// What a module holds, seen as a parse result.
pub open spec fn parse_view(m: Module) -> ParseV {
    ParseV {
        defs: syms_view(m.definitions@),
        imports: imports_view(m.imports@),
        wildcards: string_views(m.wildcard_imports@),
        all: all_view(m.all),
        docs: docs_view(m.docstrings@),
    }
}

pub open spec fn empty_parse() -> ParseV {
    ParseV {
        defs: Seq::empty(),
        imports: Seq::empty(),
        wildcards: Seq::empty(),
        all: None,
        docs: Seq::empty(),
    }
}

/// Index of the first member named `name`, or -1.
pub open spec fn leaf_pos(ms: Seq<LeafV>, name: Seq<char>) -> int
    decreases ms.len(),
{
    if ms.len() == 0 {
        -1
    } else if ms[0].name == name {
        0
    } else {
        let p = leaf_pos(ms.drop_first(), name);
        if p < 0 {
            -1
        } else {
            p + 1
        }
    }
}

/// `l` put in place of the first member of the same name, or appended.
pub open spec fn insert_leaf(ms: Seq<LeafV>, l: LeafV) -> Seq<LeafV> {
    let p = leaf_pos(ms, l.name);
    if p >= 0 {
        ms.update(p, l)
    } else {
        ms.push(l)
    }
}

/// `l` appended unless a member of the same name is there.
pub open spec fn add_leaf_if_absent(ms: Seq<LeafV>, l: LeafV) -> Seq<LeafV> {
    if leaf_pos(ms, l.name) >= 0 {
        ms
    } else {
        ms.push(l)
    }
}

/// Index of the first definition named `name`, or -1.
pub open spec fn symv_pos(ds: Seq<SymV>, name: Seq<char>) -> int
    decreases ds.len(),
{
    if ds.len() == 0 {
        -1
    } else if ds[0].name == name {
        0
    } else {
        let p = symv_pos(ds.drop_first(), name);
        if p < 0 {
            -1
        } else {
            p + 1
        }
    }
}

/// `s` put in place of the first definition of the same name, or appended.
pub open spec fn insert_symv(ds: Seq<SymV>, s: SymV) -> Seq<SymV> {
    let p = symv_pos(ds, s.name);
    if p >= 0 {
        ds.update(p, s)
    } else {
        ds.push(s)
    }
}

// ---------------------------------------------------------------------------
// What parsing records: specification
// ---------------------------------------------------------------------------

/// The 1-based location of node `n`.
pub open spec fn loc_of(c: Ctx, n: int) -> LocV {
    LocV { file: c.file, line: c.nodes[n].row + 1, col: c.nodes[n].column + 1 }
}

pub open spec fn kind(c: Ctx, n: int) -> Seq<char> {
    c.nodes[n].kind
}

pub open spec fn text(c: Ctx, n: int) -> Option<Seq<char>> {
    node_text(c.nodes, c.src, n)
}

pub open spec fn field(c: Ctx, n: int, f: Seq<char>) -> int {
    field_child(c.nodes, n, f)
}

pub open spec fn nth(c: Ctx, n: int, j: int) -> int {
    child(c.nodes, n, j)
}

pub open spec fn count(c: Ctx, n: int) -> int {
    c.nodes[n].child_count as int
}

/// The opening of a triple-quoted string.
pub open spec fn is_triple_quoted(x: Seq<char>) -> bool {
    has_prefix(x, seq!['"', '"', '"']) || has_prefix(x, seq!['\'', '\'', '\''])
}

/// The docstring that node `i` is, if it is an expression statement whose
/// first child is a triple-quoted string.
pub open spec fn docstring_of(c: Ctx, i: int) -> Option<DocV> {
    if kind(c, i) != "expression_statement"@ || count(c, i) == 0 {
        None
    } else {
        let e = nth(c, i, 0);
        if kind(c, e) != "string"@ && kind(c, e) != "concatenated_string"@ {
            None
        } else {
            match text(c, e) {
                None => None,
                Some(x) => if is_triple_quoted(x) {
                    Some(DocV { line: c.nodes[e].row + 1, col: c.nodes[e].column + 1, content: x })
                } else {
                    None
                },
            }
        }
    }
}

/// A docstring as the list of docstrings it adds.
pub open spec fn opt_doc(d: Option<DocV>) -> Seq<DocV> {
    match d {
        Some(x) => seq![x],
        None => Seq::empty(),
    }
}

/// The function defined at node `node` (possibly decorated), with the
/// docstrings after adding that of its body; `None` when it has no name.
pub open spec fn function_sym(c: Ctx, node: int, docs: Seq<DocV>) -> Option<(SymV, Seq<DocV>)> {
    let f = if kind(c, node) == "decorated_definition"@ {
        field(c, node, "definition"@)
    } else {
        node
    };
    if f < 0 {
        None
    } else {
        let n = field(c, f, "name"@);
        if n < 0 {
            None
        } else {
            match text(c, n) {
                None => None,
                Some(name) => {
                    let b = field(c, f, "body"@);
                    let more = if b >= 0 && count(c, b) > 0 {
                        opt_doc(docstring_of(c, nth(c, b, 0)))
                    } else {
                        Seq::empty()
                    };
                    Some(
                        (
                            SymV {
                                name,
                                kind: SymbolKind::Function,
                                members: Seq::empty(),
                                bases: Seq::empty(),
                                location: Some(loc_of(c, n)),
                            },
                            docs + more,
                        ),
                    )
                },
            }
        }
    }
}

/// The attribute that `self.<name> = ...` in expression statement `s` sets.
pub open spec fn self_attr(c: Ctx, s: int) -> Option<Seq<char>> {
    if count(c, s) == 0 {
        None
    } else {
        let a = nth(c, s, 0);
        if kind(c, a) != "assignment"@ {
            None
        } else {
            let left = field(c, a, "left"@);
            if left < 0 || kind(c, left) != "attribute"@ {
                None
            } else {
                let obj = field(c, left, "object"@);
                let attr = field(c, left, "attribute"@);
                if obj < 0 || attr < 0 || text(c, obj) != Some("self"@) {
                    None
                } else {
                    text(c, attr)
                }
            }
        }
    }
}

/// A member attribute with no location.
pub open spec fn attr_leaf(name: Seq<char>) -> LeafV {
    LeafV { name, kind: SymbolKind::Attribute, location: None }
}

/// The statement kinds whose bodies are searched for `self.X = ...`.
pub open spec fn is_compound(k: Seq<char>) -> bool {
    k == "if_statement"@ || k == "else_clause"@ || k == "elif_clause"@ || k == "try_statement"@
        || k == "except_clause"@ || k == "finally_clause"@ || k == "with_statement"@ || k
        == "for_statement"@ || k == "while_statement"@ || k == "block"@
}

/// The members after recording the `self.X = ...` assignments among the
/// children of `node` from the `j`-th on, descending into compound
/// statements; a name already there is kept.
pub open spec fn walk_self(c: Ctx, node: int, j: int, ms: Seq<LeafV>) -> Seq<LeafV>
    decreases c.nodes.len() - node, count(c, node) - j,
{
    if node < 0 || node >= c.nodes.len() || j < 0 || j >= count(c, node) {
        ms
    } else {
        let ch = nth(c, node, j);
        let ms2 = if kind(c, ch) == "expression_statement"@ {
            match self_attr(c, ch) {
                Some(n) => add_leaf_if_absent(ms, attr_leaf(n)),
                None => ms,
            }
        } else if is_compound(kind(c, ch)) && node < ch < c.nodes.len() {
            walk_self(c, ch, 0, ms)
        } else {
            ms
        };
        walk_self(c, node, j + 1, ms2)
    }
}

/// The members after recording the attributes that the body of function
/// node `f` sets on `self`.
pub open spec fn init_attrs(c: Ctx, f: int, ms: Seq<LeafV>) -> Seq<LeafV> {
    let b = field(c, f, "body"@);
    if b < 0 {
        ms
    } else {
        walk_self(c, b, 0, ms)
    }
}

/// The name an expression statement assigns (`name = ...`) or that a type
/// alias statement at its head defines.
pub open spec fn attribute_name(c: Ctx, node: int) -> Option<Seq<char>> {
    if count(c, node) == 0 {
        None
    } else {
        let a = nth(c, node, 0);
        if kind(c, a) == "assignment"@ {
            let left = field(c, a, "left"@);
            if left < 0 || kind(c, left) != "identifier"@ {
                None
            } else {
                text(c, left)
            }
        } else if kind(c, a) == "type_alias_statement"@ {
            let n = field(c, a, "name"@);
            if n < 0 {
                None
            } else {
                text(c, n)
            }
        } else {
            None
        }
    }
}

/// A member as a leaf.
pub open spec fn leaf_of(s: SymV) -> LeafV {
    LeafV { name: s.name, kind: s.kind, location: s.location }
}

/// The members and docstrings after the statements of a class body from
/// the `j`-th on: methods (with the `self` attributes of `__init__`),
/// attributes and the class docstring.
pub open spec fn class_body(c: Ctx, body: int, j: int, ms: Seq<LeafV>, docs: Seq<DocV>) -> (Seq<LeafV>, Seq<DocV>)
    decreases count(c, body) - j,
{
    if j < 0 || j >= count(c, body) {
        (ms, docs)
    } else {
        let ch = nth(c, body, j);
        let k = kind(c, ch);
        let next: (Seq<LeafV>, Seq<DocV>) = if k == "function_definition"@ || k
            == "decorated_definition"@ {
            match function_sym(c, ch, docs) {
                None => (ms, docs),
                Some((sym, docs2)) => {
                    let ms1 = if sym.name == "__init__"@ {
                        let f = if k == "decorated_definition"@ {
                            field(c, ch, "definition"@)
                        } else {
                            ch
                        };
                        if f >= 0 {
                            init_attrs(c, f, ms)
                        } else {
                            ms
                        }
                    } else {
                        ms
                    };
                    (insert_leaf(ms1, leaf_of(sym)), docs2)
                },
            }
        } else if k == "expression_statement"@ {
            match docstring_of(c, ch) {
                Some(d) => (ms, docs.push(d)),
                None => match attribute_name(c, ch) {
                    Some(n) => (insert_leaf(ms, attr_leaf(n)), docs),
                    None => (ms, docs),
                },
            }
        } else {
            (ms, docs)
        };
        class_body(c, body, j + 1, next.0, next.1)
    }
}

/// The base class names among the children of a superclass list from the
/// `j`-th on: names, dotted names and attributes as written, and the value
/// of a subscript (`Generic[T]` gives `Generic`).
pub open spec fn bases_from(c: Ctx, sc: int, j: int, acc: Seq<Seq<char>>) -> Seq<Seq<char>>
    decreases count(c, sc) - j,
{
    if j < 0 || j >= count(c, sc) {
        acc
    } else {
        let ch = nth(c, sc, j);
        let k = kind(c, ch);
        let acc2 = if k == "identifier"@ || k == "dotted_name"@ || k == "attribute"@ {
            match text(c, ch) {
                Some(x) => acc.push(x),
                None => acc,
            }
        } else if k == "subscript"@ {
            let v = field(c, ch, "value"@);
            if v < 0 {
                acc
            } else {
                match text(c, v) {
                    Some(x) => acc.push(x),
                    None => acc,
                }
            }
        } else {
            acc
        };
        bases_from(c, sc, j + 1, acc2)
    }
}

pub open spec fn class_bases(c: Ctx, node: int) -> Seq<Seq<char>> {
    let sc = field(c, node, "superclasses"@);
    if sc < 0 {
        Seq::empty()
    } else {
        bases_from(c, sc, 0, Seq::empty())
    }
}

/// The class defined at node `node`, with the docstrings after its body;
/// `None` when it has no name.
pub open spec fn class_sym(c: Ctx, node: int, docs: Seq<DocV>) -> Option<(SymV, Seq<DocV>)> {
    let n = field(c, node, "name"@);
    if n < 0 {
        None
    } else {
        match text(c, n) {
            None => None,
            Some(name) => {
                let b = field(c, node, "body"@);
                let body: (Seq<LeafV>, Seq<DocV>) = if b >= 0 {
                    class_body(c, b, 0, Seq::empty(), docs)
                } else {
                    (Seq::empty(), docs)
                };
                Some(
                    (
                        SymV {
                            name,
                            kind: SymbolKind::Class,
                            members: body.0,
                            bases: class_bases(c, node),
                            location: Some(loc_of(c, n)),
                        },
                        body.1,
                    ),
                )
            },
        }
    }
}

/// The state after a definition, when there is one.
pub open spec fn with_def(st: ParseV, d: Option<(SymV, Seq<DocV>)>) -> ParseV {
    match d {
        Some((s, docs)) => ParseV {
            defs: insert_symv(st.defs, s),
            imports: st.imports,
            wildcards: st.wildcards,
            all: st.all,
            docs,
        },
        None => st,
    }
}

pub open spec fn add_imp(st: ParseV, i: ImportV) -> ParseV {
    ParseV {
        defs: st.defs,
        imports: st.imports.push(i),
        wildcards: st.wildcards,
        all: st.all,
        docs: st.docs,
    }
}

/// The module a `from` statement imports from: the leading dots and the
/// module name as written, a relative one resolved against the module's
/// own path; `None` when the statement has neither.
pub open spec fn from_source(c: Ctx, node: int) -> Option<Seq<char>> {
    let mn = field(c, node, "module_name"@);
    let pre = kind_from(c.nodes, node, "import_prefix"@, 0);
    let t: Option<Seq<char>> = if pre >= 0 && mn >= 0 {
        Some(text_or_empty(c.nodes, c.src, pre) + text_or_empty(c.nodes, c.src, mn))
    } else if pre >= 0 {
        Some(text_or_empty(c.nodes, c.src, pre))
    } else if mn >= 0 {
        Some(text_or_empty(c.nodes, c.src, mn))
    } else {
        None
    };
    match t {
        None => None,
        Some(x) => Some(
            if x.len() > 0 && x[0] == '.' {
                relative_import_target(c.path, x, c.is_package)
            } else {
                x
            },
        ),
    }
}

/// The import that a name node of a `from` statement records.
pub open spec fn import_name(c: Ctx, n: int, source: Seq<char>) -> Option<ImportV> {
    if kind(c, n) == "dotted_name"@ {
        match text(c, n) {
            Some(x) => Some(ImportV { source, name: x, alias: None }),
            None => None,
        }
    } else if kind(c, n) == "aliased_import"@ {
        let nn = field(c, n, "name"@);
        if nn < 0 {
            None
        } else {
            match text(c, nn) {
                None => None,
                Some(x) => {
                    let a = field(c, n, "alias"@);
                    Some(
                        ImportV {
                            source,
                            name: x,
                            alias: if a >= 0 {
                                text(c, a)
                            } else {
                                None
                            },
                        },
                    )
                },
            }
        }
    } else {
        None
    }
}

/// The imported names of a `from` statement from the `j`-th child on;
/// `*` records the source as a wildcard import.
pub open spec fn from_names(c: Ctx, node: int, mn: int, j: int, st: ParseV, source: Seq<char>) -> ParseV
    decreases count(c, node) - j,
{
    if j < 0 || j >= count(c, node) {
        st
    } else {
        let ch = nth(c, node, j);
        let st2 = if ch == mn {
            st
        } else if kind(c, ch) == "dotted_name"@ || kind(c, ch) == "aliased_import"@ {
            match import_name(c, ch, source) {
                Some(i) => add_imp(st, i),
                None => st,
            }
        } else if kind(c, ch) == "wildcard_import"@ {
            ParseV {
                defs: st.defs,
                imports: st.imports,
                wildcards: st.wildcards.push(source),
                all: st.all,
                docs: st.docs,
            }
        } else {
            st
        };
        from_names(c, node, mn, j + 1, st2, source)
    }
}

pub open spec fn from_import(c: Ctx, node: int, st: ParseV) -> ParseV {
    match from_source(c, node) {
        None => st,
        Some(source) => from_names(c, node, field(c, node, "module_name"@), 0, st, source),
    }
}

/// The modules of an `import` statement from the `j`-th child on.
pub open spec fn import_children(c: Ctx, node: int, j: int, st: ParseV) -> ParseV
    decreases count(c, node) - j,
{
    if j < 0 || j >= count(c, node) {
        st
    } else {
        let ch = nth(c, node, j);
        let st2 = if kind(c, ch) == "dotted_name"@ {
            match text(c, ch) {
                Some(x) => add_imp(st, dotted_import(x, None)),
                None => st,
            }
        } else if kind(c, ch) == "aliased_import"@ {
            let nn = field(c, ch, "name"@);
            if nn < 0 {
                st
            } else {
                match text(c, nn) {
                    None => st,
                    Some(x) => {
                        let a = field(c, ch, "alias"@);
                        add_imp(
                            st,
                            dotted_import(
                                x,
                                if a >= 0 {
                                    text(c, a)
                                } else {
                                    None
                                },
                            ),
                        )
                    },
                }
            }
        } else {
            st
        };
        import_children(c, node, j + 1, st2)
    }
}

/// Strip leading quote characters.
pub open spec fn drop_lead_quotes(s: Seq<char>) -> Seq<char>
    decreases s.len(),
{
    if s.len() > 0 && (s[0] == '\'' || s[0] == '"') {
        drop_lead_quotes(s.drop_first())
    } else {
        s
    }
}

/// Strip trailing quote characters.
pub open spec fn drop_trail_quotes(s: Seq<char>) -> Seq<char>
    decreases s.len(),
{
    if s.len() > 0 && (s.last() == '\'' || s.last() == '"') {
        drop_trail_quotes(s.drop_last())
    } else {
        s
    }
}

/// The string elements of a list literal from the `j`-th child on, quotes
/// stripped.
pub open spec fn all_from(c: Ctx, l: int, j: int, acc: Seq<Seq<char>>) -> Seq<Seq<char>>
    decreases count(c, l) - j,
{
    if j < 0 || j >= count(c, l) {
        acc
    } else {
        let ch = nth(c, l, j);
        let acc2 = if kind(c, ch) == "string"@ {
            match text(c, ch) {
                Some(x) => acc.push(drop_trail_quotes(drop_lead_quotes(x))),
                None => acc,
            }
        } else {
            acc
        };
        all_from(c, l, j + 1, acc2)
    }
}

/// The names of an `__all__` list; none unless the value is a list.
pub open spec fn all_list(c: Ctx, l: int) -> Seq<Seq<char>> {
    if kind(c, l) != "list"@ {
        Seq::empty()
    } else {
        all_from(c, l, 0, Seq::empty())
    }
}

/// An attribute definition at module level.
pub open spec fn attr_sym(name: Seq<char>) -> SymV {
    SymV {
        name,
        kind: SymbolKind::Attribute,
        members: Seq::empty(),
        bases: Seq::empty(),
        location: None,
    }
}

/// A top-level expression statement: a docstring, or an assignment (to
/// `__all__`, which sets the public names, or to any name, which defines
/// an attribute).
pub open spec fn expr_stmt(c: Ctx, node: int, st: ParseV) -> ParseV {
    match docstring_of(c, node) {
        Some(d) => ParseV {
            defs: st.defs,
            imports: st.imports,
            wildcards: st.wildcards,
            all: st.all,
            docs: st.docs.push(d),
        },
        None => if count(c, node) == 0 || kind(c, nth(c, node, 0)) != "assignment"@ {
            st
        } else {
            let a = nth(c, node, 0);
            let left = field(c, a, "left"@);
            if left < 0 {
                st
            } else {
                let right = field(c, a, "right"@);
                let st1 = if kind(c, left) == "identifier"@ && text(c, left) == Some("__all__"@)
                    && right >= 0 {
                    ParseV {
                        defs: st.defs,
                        imports: st.imports,
                        wildcards: st.wildcards,
                        all: Some(all_list(c, right)),
                        docs: st.docs,
                    }
                } else {
                    st
                };
                match attribute_name(c, node) {
                    Some(n) => ParseV {
                        defs: insert_symv(st1.defs, attr_sym(n)),
                        imports: st1.imports,
                        wildcards: st1.wildcards,
                        all: st1.all,
                        docs: st1.docs,
                    },
                    None => st1,
                }
            }
        },
    }
}

/// One top-level statement.
pub open spec fn process_node(c: Ctx, node: int, st: ParseV) -> ParseV {
    let k = kind(c, node);
    if k == "class_definition"@ {
        with_def(st, class_sym(c, node, st.docs))
    } else if k == "decorated_definition"@ {
        let inner = field(c, node, "definition"@);
        if inner < 0 {
            st
        } else if kind(c, inner) == "class_definition"@ {
            with_def(st, class_sym(c, inner, st.docs))
        } else {
            with_def(st, function_sym(c, node, st.docs))
        }
    } else if k == "function_definition"@ {
        with_def(st, function_sym(c, node, st.docs))
    } else if k == "import_from_statement"@ {
        from_import(c, node, st)
    } else if k == "import_statement"@ {
        import_children(c, node, 0, st)
    } else if k == "expression_statement"@ {
        expr_stmt(c, node, st)
    } else {
        st
    }
}

/// The top-level statements from the `j`-th child of the root on.
pub open spec fn process_top(c: Ctx, j: int, st: ParseV) -> ParseV
    decreases count(c, 0) - j,
{
    if j < 0 || j >= count(c, 0) {
        st
    } else {
        process_top(c, j + 1, process_node(c, nth(c, 0, j), st))
    }
}

/// What parsing records of a module.
pub open spec fn spec_module(c: Ctx) -> ParseV {
    process_top(c, 0, empty_parse())
}

// ---------------------------------------------------------------------------
// What parsing records: lemmas on the views
// ---------------------------------------------------------------------------

/// The context that parsing into module `m` reads.
pub open spec fn ctx_of(t: SyntaxTree, src: Seq<u8>, m: Module) -> Ctx {
    Ctx { nodes: t@, src, file: m.file_path@, path: m.path@, is_package: m.is_package }
}

/// Two modules with the same identity: dotted path, file and package flag.
pub open spec fn same_id(a: Module, b: Module) -> bool {
    a.path == b.path && a.file_path == b.file_path && a.is_package == b.is_package
}

pub open spec fn opt_doc_view(d: Option<Docstring>) -> Option<DocV> {
    match d {
        Some(x) => Some(doc_view(x)),
        None => None,
    }
}

proof fn lemma_positions(ds: Seq<Symbol>, n: Seq<char>)
    ensures
        sym_pos(ds, n) == leaf_pos(members_view(ds), n),
        sym_pos(ds, n) == symv_pos(syms_view(ds), n),
    decreases ds.len(),
{
    if ds.len() > 0 {
        assert(members_view(ds).drop_first() =~= members_view(ds.drop_first()));
        assert(syms_view(ds).drop_first() =~= syms_view(ds.drop_first()));
        lemma_positions(ds.drop_first(), n);
    }
}

proof fn lemma_insert_views(ds: Seq<Symbol>, s: Symbol)
    ensures
        members_view(insert_symbol(ds, s)) == insert_leaf(members_view(ds), leaf_view(s)),
        syms_view(insert_symbol(ds, s)) == insert_symv(syms_view(ds), sym_view(s)),
        members_ok(ds) && s.members@.len() == 0 && s.bases@.len() == 0 ==> members_ok(
            insert_symbol(ds, s),
        ),
        syms_ok(ds) && members_ok(s.members@) ==> syms_ok(insert_symbol(ds, s)),
{
    lemma_positions(ds, s.name@);
    crate::graph::lemma_sym_pos(ds, s.name@);
    let p = sym_pos(ds, s.name@);
    if p >= 0 {
        assert(members_view(ds.update(p, s)) =~= members_view(ds).update(p, leaf_view(s)));
        assert(syms_view(ds.update(p, s)) =~= syms_view(ds).update(p, sym_view(s)));
    } else {
        assert(members_view(ds.push(s)) =~= members_view(ds).push(leaf_view(s)));
        assert(syms_view(ds.push(s)) =~= syms_view(ds).push(sym_view(s)));
    }
}

/// Insert an attribute named `name` into a table of definitions.
fn put_attribute(defs: &mut Vec<Symbol>, name: &[char])
    ensures
        members_view(final(defs)@) == insert_leaf(members_view(old(defs)@), attr_leaf(name@)),
        syms_view(final(defs)@) == insert_symv(syms_view(old(defs)@), attr_sym(name@)),
        members_ok(old(defs)@) ==> members_ok(final(defs)@),
        syms_ok(old(defs)@) ==> syms_ok(final(defs)@),
{
    let s = Symbol::new(string_of(name), SymbolKind::Attribute);
    proof {
        lemma_insert_views(defs@, s);
        assert(members_view(s.members@) =~= Seq::<LeafV>::empty());
        assert(string_views(s.bases@) =~= Seq::<Seq<char>>::empty());
        assert(sym_view(s) == attr_sym(name@));
    }
    put_symbol(defs, s);
}

/// Add an attribute named `name` unless a member of that name is there.
fn add_attribute_if_absent(members: &mut Vec<Symbol>, name: &[char])
    requires
        members_ok(old(members)@),
    ensures
        members_view(final(members)@) == add_leaf_if_absent(
            members_view(old(members)@),
            attr_leaf(name@),
        ),
        members_ok(final(members)@),
{
    proof {
        lemma_positions(members@, name@);
    }
    match find_symbol(members, name) {
        Some(_) => {},
        None => {
            let s = Symbol::new(string_of(name), SymbolKind::Attribute);
            let ghost before = members_view(members@);
            members.push(s);
            assert(members_view(members@) =~= before.push(attr_leaf(name@)));
        },
    }
}

// ---------------------------------------------------------------------------
// Docstrings and definitions
// ---------------------------------------------------------------------------

/// Try to extract a docstring from an expression statement node.
fn try_extract_docstring(t: &SyntaxTree, src: &[u8], m: &Module, i: usize) -> (r: Option<Docstring>)
    requires
        syntax_wf(t@),
        i < t@.len(),
    ensures
        opt_doc_view(r) == docstring_of(ctx_of(*t, src@, *m), i as int),
{
    assert(node_wf(t@, i as int));
    if !kind_is(t, i, "expression_statement") || t.nodes[i].child_count == 0 {
        return None;
    }
    let e = t.nodes[i].first_child;
    assert(node_wf(t@, e as int));
    if !kind_is(t, e, "string") && !kind_is(t, e, "concatenated_string") {
        return None;
    }
    let x = match node_text_exec(t, src, e) {
        None => {
            return None;
        },
        Some(x) => x,
    };
    let q2 = ['"', '"', '"'];
    let q1 = ['\'', '\'', '\''];
    assert(q2@ =~= seq!['"', '"', '"']);
    assert(q1@ =~= seq!['\'', '\'', '\'']);
    if !crate::text::starts_with(x.as_slice(), q2.as_slice()) && !crate::text::starts_with(
        x.as_slice(),
        q1.as_slice(),
    ) {
        return None;
    }
    Some(
        Docstring {
            line: t.nodes[e].row + 1,
            col: t.nodes[e].column + 1,
            content: string_of(x.as_slice()),
        },
    )
}

/// The fields of a module other than its docstrings are as they were.
pub open spec fn keeps_all_but_docs(a: Module, b: Module) -> bool {
    same_id(a, b) && a.definitions == b.definitions && a.imports == b.imports
        && a.wildcard_imports == b.wildcard_imports && a.all == b.all
}

/// The function defined at a (possibly decorated) node; its body's
/// docstring is recorded in the module.
fn extract_function(t: &SyntaxTree, src: &[u8], node: usize, module: &mut Module) -> (r: Option<Symbol>)
    requires
        syntax_wf(t@),
        node < t@.len(),
    ensures
        keeps_all_but_docs(*final(module), *old(module)),
        match function_sym(ctx_of(*t, src@, *old(module)), node as int, docs_view(old(module).docstrings@)) {
            None => r is None && final(module).docstrings == old(module).docstrings,
            Some((s, d)) => r matches Some(sym) && sym_view(sym) == s && sym.members@.len() == 0
                && sym.bases@.len() == 0 && docs_view(final(module).docstrings@) == d,
        },
{
    let ghost c = ctx_of(*t, src@, *module);
    let f = if kind_is(t, node, "decorated_definition") {
        match field_child_exec(t, node, "definition") {
            None => {
                return None;
            },
            Some(f) => f,
        }
    } else {
        node
    };
    let n = match field_child_exec(t, f, "name") {
        None => {
            return None;
        },
        Some(n) => n,
    };
    let name = match node_text_exec(t, src, n) {
        None => {
            return None;
        },
        Some(x) => x,
    };
    let ghost before = docs_view(module.docstrings@);
    match field_child_exec(t, f, "body") {
        Some(b) => {
            assert(node_wf(t@, b as int));
            if t.nodes[b].child_count > 0 {
                let first = t.nodes[b].first_child;
                match try_extract_docstring(t, src, module, first) {
                    Some(ds) => {
                        module.docstrings.push(ds);
                        assert(docs_view(module.docstrings@) =~= before + seq![doc_view(ds)]);
                    },
                    None => {
                        assert(before + Seq::<DocV>::empty() =~= before);
                    },
                }
            } else {
                assert(before + Seq::<DocV>::empty() =~= before);
            }
        },
        None => {
            assert(before + Seq::<DocV>::empty() =~= before);
        },
    }
    assert(node_wf(t@, n as int));
    let file = chars_of(module.file_path.as_str());
    let loc = SourceLocation {
        file: string_of(file.as_slice()),
        line: t.nodes[n].row + 1,
        col: t.nodes[n].column + 1,
    };
    let sym = Symbol {
        name: string_of(name.as_slice()),
        kind: SymbolKind::Function,
        members: Vec::new(),
        bases: Vec::new(),
        location: Some(loc),
    };
    assert(members_view(sym.members@) =~= Seq::<LeafV>::empty());
    assert(string_views(sym.bases@) =~= Seq::<Seq<char>>::empty());
    Some(sym)
}

/// The attribute that `self.<name> = ...` sets, in an expression statement.
fn self_attribute(t: &SyntaxTree, src: &[u8], m: &Module, s: usize) -> (r: Option<Vec<char>>)
    requires
        syntax_wf(t@),
        s < t@.len(),
    ensures
        match r {
            Some(v) => self_attr(ctx_of(*t, src@, *m), s as int) == Some(v@),
            None => self_attr(ctx_of(*t, src@, *m), s as int) is None,
        },
{
    assert(node_wf(t@, s as int));
    if t.nodes[s].child_count == 0 {
        return None;
    }
    let a = t.nodes[s].first_child;
    if !kind_is(t, a, "assignment") {
        return None;
    }
    let left = match field_child_exec(t, a, "left") {
        None => {
            return None;
        },
        Some(l) => l,
    };
    if !kind_is(t, left, "attribute") {
        return None;
    }
    let obj = match field_child_exec(t, left, "object") {
        None => {
            return None;
        },
        Some(o) => o,
    };
    let attr = match field_child_exec(t, left, "attribute") {
        None => {
            return None;
        },
        Some(x) => x,
    };
    if !text_is(t, src, obj, "self") {
        return None;
    }
    node_text_exec(t, src, attr)
}

/// Whether node `i` is a statement whose body may hold `self.X = ...`.
fn compound_kind(t: &SyntaxTree, i: usize) -> (r: bool)
    requires
        i < t@.len(),
    ensures
        r == is_compound(t@[i as int].kind),
{
    kind_is(t, i, "if_statement") || kind_is(t, i, "else_clause") || kind_is(t, i, "elif_clause")
        || kind_is(t, i, "try_statement") || kind_is(t, i, "except_clause") || kind_is(
        t,
        i,
        "finally_clause",
    ) || kind_is(t, i, "with_statement") || kind_is(t, i, "for_statement") || kind_is(
        t,
        i,
        "while_statement",
    ) || kind_is(t, i, "block")
}

/// Walk a function body to find `self.X = ...` assignments and register
/// them as class-level attribute members.
fn walk_for_self_attrs(t: &SyntaxTree, src: &[u8], m: &Module, node: usize, members: &mut Vec<Symbol>)
    requires
        syntax_wf(t@),
        node < t@.len(),
        members_ok(old(members)@),
    ensures
        members_view(final(members)@) == walk_self(
            ctx_of(*t, src@, *m),
            node as int,
            0,
            members_view(old(members)@),
        ),
        members_ok(final(members)@),
    decreases t@.len() - node,
{
    let ghost c = ctx_of(*t, src@, *m);
    assert(node_wf(t@, node as int));
    let n = t.nodes[node].child_count;
    let first = t.nodes[node].first_child;
    let ghost target = walk_self(c, node as int, 0, members_view(members@));
    let len = t.nodes.len();
    let mut j: usize = 0;
    while j < n
        invariant
            len == t@.len(),
            c == ctx_of(*t, src@, *m),
            syntax_wf(t@),
            node < t@.len(),
            n == t@[node as int].child_count,
            first == t@[node as int].first_child,
            node < first,
            first + n <= t@.len(),
            j <= n,
            members_ok(members@),
            walk_self(c, node as int, j as int, members_view(members@)) == target,
        decreases n - j,
    {
        let ch = first + j;
        if kind_is(t, ch, "expression_statement") {
            match self_attribute(t, src, m, ch) {
                Some(name) => {
                    add_attribute_if_absent(members, name.as_slice());
                },
                None => {},
            }
        } else if compound_kind(t, ch) {
            walk_for_self_attrs(t, src, m, ch, members);
        }
        j = j + 1;
    }
}

/// Record the `self` attributes set in the body of function node `f`.
fn extract_self_attributes(t: &SyntaxTree, src: &[u8], m: &Module, f: usize, members: &mut Vec<Symbol>)
    requires
        syntax_wf(t@),
        f < t@.len(),
        members_ok(old(members)@),
    ensures
        members_view(final(members)@) == init_attrs(
            ctx_of(*t, src@, *m),
            f as int,
            members_view(old(members)@),
        ),
        members_ok(final(members)@),
{
    match field_child_exec(t, f, "body") {
        None => {},
        Some(b) => {
            walk_for_self_attrs(t, src, m, b, members);
        },
    }
}

/// The name that an assignment or type alias at the head of an expression
/// statement defines.
fn attribute_name_exec(t: &SyntaxTree, src: &[u8], m: &Module, node: usize) -> (r: Option<Vec<char>>)
    requires
        syntax_wf(t@),
        node < t@.len(),
    ensures
        match r {
            Some(v) => attribute_name(ctx_of(*t, src@, *m), node as int) == Some(v@),
            None => attribute_name(ctx_of(*t, src@, *m), node as int) is None,
        },
{
    assert(node_wf(t@, node as int));
    if t.nodes[node].child_count == 0 {
        return None;
    }
    let a = t.nodes[node].first_child;
    if kind_is(t, a, "assignment") {
        match field_child_exec(t, a, "left") {
            None => None,
            Some(left) => if kind_is(t, left, "identifier") {
                node_text_exec(t, src, left)
            } else {
                None
            },
        }
    } else if kind_is(t, a, "type_alias_statement") {
        match field_child_exec(t, a, "name") {
            None => None,
            Some(n) => node_text_exec(t, src, n),
        }
    } else {
        None
    }
}

/// Record the attribute that an expression statement defines.
fn extract_attribute(t: &SyntaxTree, src: &[u8], m: &Module, node: usize, defs: &mut Vec<Symbol>)
    requires
        syntax_wf(t@),
        node < t@.len(),
    ensures
        members_view(final(defs)@) == match attribute_name(ctx_of(*t, src@, *m), node as int) {
            Some(n) => insert_leaf(members_view(old(defs)@), attr_leaf(n)),
            None => members_view(old(defs)@),
        },
        syms_view(final(defs)@) == match attribute_name(ctx_of(*t, src@, *m), node as int) {
            Some(n) => insert_symv(syms_view(old(defs)@), attr_sym(n)),
            None => syms_view(old(defs)@),
        },
        members_ok(old(defs)@) ==> members_ok(final(defs)@),
        syms_ok(old(defs)@) ==> syms_ok(final(defs)@),
{
    match attribute_name_exec(t, src, m, node) {
        Some(name) => put_attribute(defs, name.as_slice()),
        None => {},
    }
}

/// Extract base class names from a class definition's argument list.
fn extract_bases(t: &SyntaxTree, src: &[u8], m: &Module, node: usize) -> (r: Vec<String>)
    requires
        syntax_wf(t@),
        node < t@.len(),
    ensures
        string_views(r@) == class_bases(ctx_of(*t, src@, *m), node as int),
{
    let ghost c = ctx_of(*t, src@, *m);
    let mut bases: Vec<String> = Vec::new();
    let sc = match field_child_exec(t, node, "superclasses") {
        None => {
            assert(string_views(bases@) =~= Seq::<Seq<char>>::empty());
            return bases;
        },
        Some(sc) => sc,
    };
    assert(node_wf(t@, sc as int));
    let n = t.nodes[sc].child_count;
    let first = t.nodes[sc].first_child;
    let ghost target = class_bases(c, node as int);
    assert(string_views(bases@) =~= Seq::<Seq<char>>::empty());
    let len = t.nodes.len();
    let mut j: usize = 0;
    while j < n
        invariant
            len == t@.len(),
            c == ctx_of(*t, src@, *m),
            syntax_wf(t@),
            sc < t@.len(),
            sc as int == field(c, node as int, "superclasses"@),
            n == t@[sc as int].child_count,
            first == t@[sc as int].first_child,
            first + n <= t@.len(),
            j <= n,
            bases_from(c, sc as int, j as int, string_views(bases@)) == target,
        decreases n - j,
    {
        let ch = first + j;
        let ghost before = string_views(bases@);
        if kind_is(t, ch, "identifier") || kind_is(t, ch, "dotted_name") || kind_is(
            t,
            ch,
            "attribute",
        ) {
            match node_text_exec(t, src, ch) {
                Some(x) => {
                    bases.push(string_of(x.as_slice()));
                    assert(string_views(bases@) =~= before.push(x@));
                },
                None => {},
            }
        } else if kind_is(t, ch, "subscript") {
            match field_child_exec(t, ch, "value") {
                Some(v) => match node_text_exec(t, src, v) {
                    Some(x) => {
                        bases.push(string_of(x.as_slice()));
                        assert(string_views(bases@) =~= before.push(x@));
                    },
                    None => {},
                },
                None => {},
            }
        }
        j = j + 1;
    }
    bases
}

/// The class defined at `node`; the docstrings of its body are recorded in
/// the module.
fn extract_class(t: &SyntaxTree, src: &[u8], node: usize, module: &mut Module) -> (r: Option<Symbol>)
    requires
        syntax_wf(t@),
        node < t@.len(),
    ensures
        keeps_all_but_docs(*final(module), *old(module)),
        match class_sym(ctx_of(*t, src@, *old(module)), node as int, docs_view(old(module).docstrings@)) {
            None => r is None && final(module).docstrings == old(module).docstrings,
            Some((s, d)) => r matches Some(sym) && sym_view(sym) == s && members_ok(sym.members@)
                && docs_view(final(module).docstrings@) == d,
        },
{
    let ghost c = ctx_of(*t, src@, *module);
    let ghost orig = *module;
    let n = match field_child_exec(t, node, "name") {
        None => {
            return None;
        },
        Some(n) => n,
    };
    let name = match node_text_exec(t, src, n) {
        None => {
            return None;
        },
        Some(x) => x,
    };
    let mut members: Vec<Symbol> = Vec::new();
    let bases = extract_bases(t, src, module, node);
    assert(members_view(members@) =~= Seq::<LeafV>::empty());
    match field_child_exec(t, node, "body") {
        None => {},
        Some(body) => {
            assert(node_wf(t@, body as int));
            let cnt = t.nodes[body].child_count;
            let first = t.nodes[body].first_child;
            let ghost target = class_body(
                c,
                body as int,
                0,
                members_view(members@),
                docs_view(module.docstrings@),
            );
            let len = t.nodes.len();
            let mut j: usize = 0;
            while j < cnt
                invariant
                    len == t@.len(),
                    c == ctx_of(*t, src@, orig),
                    syntax_wf(t@),
                    body < t@.len(),
                    cnt == t@[body as int].child_count,
                    first == t@[body as int].first_child,
                    first + cnt <= t@.len(),
                    j <= cnt,
                    keeps_all_but_docs(*module, orig),
                    members_ok(members@),
                    class_body(
                        c,
                        body as int,
                        j as int,
                        members_view(members@),
                        docs_view(module.docstrings@),
                    ) == target,
                decreases cnt - j,
            {
                let ch = first + j;
                let decorated = kind_is(t, ch, "decorated_definition");
                if kind_is(t, ch, "function_definition") || decorated {
                    match extract_function(t, src, ch, module) {
                        None => {},
                        Some(sym) => {
                            let init = ['_', '_', 'i', 'n', 'i', 't', '_', '_'];
                            assert(init@ =~= "__init__"@) by {
                                reveal_strlit("__init__");
                            }
                            if crate::text::str_is(sym.name.as_str(), init.as_slice()) {
                                let f = if decorated {
                                    field_child_exec(t, ch, "definition")
                                } else {
                                    Some(ch)
                                };
                                match f {
                                    Some(f) => extract_self_attributes(t, src, module, f, &mut members),
                                    None => {},
                                }
                            }
                            proof {
                                lemma_insert_views(members@, sym);
                            }
                            put_symbol(&mut members, sym);
                        },
                    }
                } else if kind_is(t, ch, "expression_statement") {
                    match try_extract_docstring(t, src, module, ch) {
                        Some(ds) => {
                            let ghost before = docs_view(module.docstrings@);
                            module.docstrings.push(ds);
                            assert(docs_view(module.docstrings@) =~= before.push(doc_view(ds)));
                        },
                        None => {
                            extract_attribute(t, src, module, ch, &mut members);
                        },
                    }
                }
                j = j + 1;
            }
        },
    }
    assert(node_wf(t@, n as int));
    let file = chars_of(module.file_path.as_str());
    let loc = SourceLocation {
        file: string_of(file.as_slice()),
        line: t.nodes[n].row + 1,
        col: t.nodes[n].column + 1,
    };
    Some(
        Symbol {
            name: string_of(name.as_slice()),
            kind: SymbolKind::Class,
            members,
            bases,
            location: Some(loc),
        },
    )
}

// ---------------------------------------------------------------------------
// Imports
// ---------------------------------------------------------------------------

pub open spec fn opt_text_view(o: Option<Vec<char>>) -> Option<Seq<char>> {
    match o {
        Some(v) => Some(v@),
        None => None,
    }
}

/// The text of node `i`, or the empty text.
fn text_or_empty_exec(t: &SyntaxTree, src: &[u8], i: usize) -> (r: Vec<char>)
    requires
        i < t@.len(),
    ensures
        r@ == text_or_empty(t@, src@, i as int),
{
    match node_text_exec(t, src, i) {
        Some(v) => v,
        None => Vec::new(),
    }
}

/// An import with the given source, name and alias.
fn make_import(source: &[char], name: &[char], alias: Option<Vec<char>>) -> (r: Import)
    ensures
        import_view(r) == (ImportV { source: source@, name: name@, alias: opt_text_view(alias) }),
{
    Import {
        source: string_of(source),
        name: string_of(name),
        alias: match alias {
            Some(a) => Some(string_of(a.as_slice())),
            None => None,
        },
    }
}

/// The import that `import a.b.c` records: source `a.b`, name `c`.
fn dotted_import_exec(d: &[char], alias: Option<Vec<char>>) -> (r: Import)
    ensures
        import_view(r) == dotted_import(d@, opt_text_view(alias)),
{
    let pieces = split_chars(d, '.');
    proof {
        lemma_split_nonempty(d@, '.');
    }
    let last = pieces.len() - 1;
    let source = join_range(&pieces, 0, last, '.');
    assert(seq_views(pieces@).subrange(0, last as int) =~= seq_views(pieces@).drop_last());
    assert(seq_views(pieces@).last() == pieces@[last as int]@);
    make_import(source.as_slice(), pieces[last].as_slice(), alias)
}

/// Record an import in the module.
fn push_import(module: &mut Module, imp: Import)
    ensures
        parse_view(*final(module)) == add_imp(parse_view(*old(module)), import_view(imp)),
        same_id(*final(module), *old(module)),
        final(module).definitions == old(module).definitions,
{
    let ghost before = imports_view(module.imports@);
    module.imports.push(imp);
    assert(imports_view(module.imports@) =~= before.push(import_view(imp)));
}

/// The import recorded for a name node of a `from` statement.
fn parse_import_name(t: &SyntaxTree, src: &[u8], m: &Module, n: usize, source: &[char]) -> (r: Option<Import>)
    requires
        syntax_wf(t@),
        n < t@.len(),
    ensures
        match r {
            Some(i) => import_name(ctx_of(*t, src@, *m), n as int, source@) == Some(import_view(i)),
            None => import_name(ctx_of(*t, src@, *m), n as int, source@) is None,
        },
{
    if kind_is(t, n, "dotted_name") {
        match node_text_exec(t, src, n) {
            Some(x) => Some(make_import(source, x.as_slice(), None)),
            None => None,
        }
    } else if kind_is(t, n, "aliased_import") {
        let nn = match field_child_exec(t, n, "name") {
            None => {
                return None;
            },
            Some(nn) => nn,
        };
        let x = match node_text_exec(t, src, nn) {
            None => {
                return None;
            },
            Some(x) => x,
        };
        let alias = match field_child_exec(t, n, "alias") {
            Some(a) => node_text_exec(t, src, a),
            None => None,
        };
        Some(make_import(source, x.as_slice(), alias))
    } else {
        None
    }
}

/// The module a `from` statement imports from.
fn from_import_source(t: &SyntaxTree, src: &[u8], m: &Module, node: usize) -> (r: Option<Vec<char>>)
    requires
        syntax_wf(t@),
        node < t@.len(),
    ensures
        opt_text_view(r) == from_source(ctx_of(*t, src@, *m), node as int),
{
    let mn = field_child_exec(t, node, "module_name");
    let pre = kind_child_exec(t, node, "import_prefix");
    let text: Vec<char> = match (pre, mn) {
        (Some(p), Some(n)) => {
            let mut a = text_or_empty_exec(t, src, p);
            let b = text_or_empty_exec(t, src, n);
            crate::graph::extend_chars(&mut a, b.as_slice());
            a
        },
        (Some(p), None) => text_or_empty_exec(t, src, p),
        (None, Some(n)) => text_or_empty_exec(t, src, n),
        (None, None) => {
            return None;
        },
    };
    if text.len() > 0 && text[0] == '.' {
        let rel = string_of(text.as_slice());
        let cur = chars_of(m.path.as_str());
        let cur_str = string_of(cur.as_slice());
        assert(leading_dots(rel@) >= 1);
        let resolved = crate::util::resolve_relative_import(cur_str.as_str(), rel.as_str(), m.is_package);
        Some(chars_of(resolved.as_str()))
    } else {
        Some(text)
    }
}

/// `from <module> import <names>`: record the imports (and wildcard
/// sources) in the module.
fn extract_from_import(t: &SyntaxTree, src: &[u8], node: usize, module: &mut Module)
    requires
        syntax_wf(t@),
        node < t@.len(),
    ensures
        parse_view(*final(module)) == from_import(
            ctx_of(*t, src@, *old(module)),
            node as int,
            parse_view(*old(module)),
        ),
        same_id(*final(module), *old(module)),
        final(module).definitions == old(module).definitions,
{
    let ghost c = ctx_of(*t, src@, *module);
    let ghost orig = *module;
    let source = match from_import_source(t, src, module, node) {
        None => {
            return;
        },
        Some(s) => s,
    };
    let mn = field_child_exec(t, node, "module_name");
    let ghost mn_i: int = field(c, node as int, "module_name"@);
    assert(node_wf(t@, node as int));
    let cnt = t.nodes[node].child_count;
    let first = t.nodes[node].first_child;
    let len = t.nodes.len();
    let ghost target = from_names(c, node as int, mn_i, 0, parse_view(*module), source@);
    let mut j: usize = 0;
    while j < cnt
        invariant
            len == t@.len(),
            c == ctx_of(*t, src@, orig),
            syntax_wf(t@),
            node < t@.len(),
            cnt == t@[node as int].child_count,
            first == t@[node as int].first_child,
            first + cnt <= t@.len(),
            j <= cnt,
            mn_i == field(c, node as int, "module_name"@),
            match mn {
                Some(x) => x as int == mn_i,
                None => mn_i == -1,
            },
            same_id(*module, orig),
            module.definitions == orig.definitions,
            from_names(c, node as int, mn_i, j as int, parse_view(*module), source@) == target,
        decreases cnt - j,
    {
        let ch = first + j;
        let skip = match mn {
            Some(x) => x == ch,
            None => false,
        };
        if !skip {
            if kind_is(t, ch, "dotted_name") || kind_is(t, ch, "aliased_import") {
                match parse_import_name(t, src, module, ch, source.as_slice()) {
                    Some(imp) => push_import(module, imp),
                    None => {},
                }
            } else if kind_is(t, ch, "wildcard_import") {
                let ghost before = string_views(module.wildcard_imports@);
                module.wildcard_imports.push(string_of(source.as_slice()));
                assert(string_views(module.wildcard_imports@) =~= before.push(source@));
            }
        }
        j = j + 1;
    }
}

/// `import <dotted_name> [as <alias>]`: record the imports in the module.
fn extract_import(t: &SyntaxTree, src: &[u8], node: usize, module: &mut Module)
    requires
        syntax_wf(t@),
        node < t@.len(),
    ensures
        parse_view(*final(module)) == import_children(
            ctx_of(*t, src@, *old(module)),
            node as int,
            0,
            parse_view(*old(module)),
        ),
        same_id(*final(module), *old(module)),
        final(module).definitions == old(module).definitions,
{
    let ghost c = ctx_of(*t, src@, *module);
    let ghost orig = *module;
    assert(node_wf(t@, node as int));
    let cnt = t.nodes[node].child_count;
    let first = t.nodes[node].first_child;
    let len = t.nodes.len();
    let ghost target = import_children(c, node as int, 0, parse_view(*module));
    let mut j: usize = 0;
    while j < cnt
        invariant
            len == t@.len(),
            c == ctx_of(*t, src@, orig),
            syntax_wf(t@),
            node < t@.len(),
            cnt == t@[node as int].child_count,
            first == t@[node as int].first_child,
            first + cnt <= t@.len(),
            j <= cnt,
            same_id(*module, orig),
            module.definitions == orig.definitions,
            import_children(c, node as int, j as int, parse_view(*module)) == target,
        decreases cnt - j,
    {
        let ch = first + j;
        if kind_is(t, ch, "dotted_name") {
            match node_text_exec(t, src, ch) {
                Some(x) => push_import(module, dotted_import_exec(x.as_slice(), None)),
                None => {},
            }
        } else if kind_is(t, ch, "aliased_import") {
            match field_child_exec(t, ch, "name") {
                Some(nn) => match node_text_exec(t, src, nn) {
                    Some(x) => {
                        let alias = match field_child_exec(t, ch, "alias") {
                            Some(a) => node_text_exec(t, src, a),
                            None => None,
                        };
                        push_import(module, dotted_import_exec(x.as_slice(), alias));
                    },
                    None => {},
                },
                None => {},
            }
        }
        j = j + 1;
    }
}

// ---------------------------------------------------------------------------
// Expression statements and `__all__`
// ---------------------------------------------------------------------------

/// The text with its leading and then its trailing quote characters removed.
fn strip_quotes(x: &[char]) -> (r: Vec<char>)
    ensures
        r@ == drop_trail_quotes(drop_lead_quotes(x@)),
{
    let mut a: usize = 0;
    assert(x@.skip(0) =~= x@);
    while a < x.len() && (x[a] == '\'' || x[a] == '"')
        invariant
            a <= x.len(),
            drop_lead_quotes(x@) == drop_lead_quotes(x@.skip(a as int)),
        decreases x.len() - a,
    {
        assert(x@.skip(a as int).drop_first() =~= x@.skip(a + 1));
        a = a + 1;
    }
    let mut b: usize = x.len();
    let ghost lead = x@.skip(a as int);
    assert(lead == drop_lead_quotes(x@));
    assert(x@.subrange(a as int, b as int) =~= lead);
    while b > a && (x[b - 1] == '\'' || x[b - 1] == '"')
        invariant
            a <= b <= x.len(),
            lead == x@.skip(a as int),
            drop_trail_quotes(lead) == drop_trail_quotes(x@.subrange(a as int, b as int)),
        decreases b,
    {
        assert(x@.subrange(a as int, b as int).drop_last() =~= x@.subrange(a as int, b - 1));
        b = b - 1;
    }
    slice_chars(x, a, b)
}

/// Extract string elements from a list literal (the `__all__` value).
fn extract_all_list(t: &SyntaxTree, src: &[u8], m: &Module, node: usize) -> (r: Vec<String>)
    requires
        syntax_wf(t@),
        node < t@.len(),
    ensures
        string_views(r@) == all_list(ctx_of(*t, src@, *m), node as int),
{
    let ghost c = ctx_of(*t, src@, *m);
    let mut names: Vec<String> = Vec::new();
    assert(string_views(names@) =~= Seq::<Seq<char>>::empty());
    if !kind_is(t, node, "list") {
        return names;
    }
    assert(node_wf(t@, node as int));
    let cnt = t.nodes[node].child_count;
    let first = t.nodes[node].first_child;
    let len = t.nodes.len();
    let ghost target = all_list(c, node as int);
    let mut j: usize = 0;
    while j < cnt
        invariant
            len == t@.len(),
            c == ctx_of(*t, src@, *m),
            syntax_wf(t@),
            node < t@.len(),
            kind(c, node as int) == "list"@,
            cnt == t@[node as int].child_count,
            first == t@[node as int].first_child,
            first + cnt <= t@.len(),
            j <= cnt,
            all_from(c, node as int, j as int, string_views(names@)) == target,
        decreases cnt - j,
    {
        let ch = first + j;
        if kind_is(t, ch, "string") {
            match node_text_exec(t, src, ch) {
                Some(x) => {
                    let stripped = strip_quotes(x.as_slice());
                    let ghost before = string_views(names@);
                    names.push(string_of(stripped.as_slice()));
                    assert(string_views(names@) =~= before.push(stripped@));
                },
                None => {},
            }
        }
        j = j + 1;
    }
    names
}

/// A top-level expression statement: a docstring, `__all__ = [...]`, or an
/// attribute assignment.
fn handle_expression_statement(t: &SyntaxTree, src: &[u8], node: usize, module: &mut Module)
    requires
        syntax_wf(t@),
        node < t@.len(),
        syms_ok(old(module).definitions@),
    ensures
        parse_view(*final(module)) == expr_stmt(
            ctx_of(*t, src@, *old(module)),
            node as int,
            parse_view(*old(module)),
        ),
        same_id(*final(module), *old(module)),
        syms_ok(final(module).definitions@),
{
    let ghost c = ctx_of(*t, src@, *module);
    match try_extract_docstring(t, src, module, node) {
        Some(ds) => {
            let ghost before = docs_view(module.docstrings@);
            module.docstrings.push(ds);
            assert(docs_view(module.docstrings@) =~= before.push(doc_view(ds)));
            return;
        },
        None => {},
    }
    assert(node_wf(t@, node as int));
    if t.nodes[node].child_count == 0 {
        return;
    }
    let a = t.nodes[node].first_child;
    if !kind_is(t, a, "assignment") {
        return;
    }
    let left = match field_child_exec(t, a, "left") {
        None => {
            return;
        },
        Some(l) => l,
    };
    let right = field_child_exec(t, a, "right");
    if kind_is(t, left, "identifier") && text_is(t, src, left, "__all__") {
        match right {
            Some(r) => {
                let names = extract_all_list(t, src, module, r);
                module.all = Some(names);
            },
            None => {},
        }
    }
    match attribute_name_exec(t, src, module, node) {
        Some(name) => put_attribute(&mut module.definitions, name.as_slice()),
        None => {},
    }
}

// ---------------------------------------------------------------------------
// Statements and modules
// ---------------------------------------------------------------------------

/// Record a definition (class or function) in the module.
fn add_definition(module: &mut Module, sym: Symbol)
    requires
        syms_ok(old(module).definitions@),
        members_ok(sym.members@),
    ensures
        parse_view(*final(module)) == (ParseV {
            defs: insert_symv(parse_view(*old(module)).defs, sym_view(sym)),
            ..parse_view(*old(module))
        }),
        same_id(*final(module), *old(module)),
        syms_ok(final(module).definitions@),
{
    proof {
        lemma_insert_views(module.definitions@, sym);
    }
    put_symbol(&mut module.definitions, sym);
}

/// Process a single top-level statement.
fn process_statement(t: &SyntaxTree, src: &[u8], node: usize, module: &mut Module)
    requires
        syntax_wf(t@),
        node < t@.len(),
        syms_ok(old(module).definitions@),
    ensures
        parse_view(*final(module)) == process_node(
            ctx_of(*t, src@, *old(module)),
            node as int,
            parse_view(*old(module)),
        ),
        same_id(*final(module), *old(module)),
        syms_ok(final(module).definitions@),
{
    if kind_is(t, node, "class_definition") {
        match extract_class(t, src, node, module) {
            Some(sym) => add_definition(module, sym),
            None => {},
        }
    } else if kind_is(t, node, "decorated_definition") {
        match field_child_exec(t, node, "definition") {
            None => {},
            Some(inner) => {
                if kind_is(t, inner, "class_definition") {
                    match extract_class(t, src, inner, module) {
                        Some(sym) => add_definition(module, sym),
                        None => {},
                    }
                } else {
                    match extract_function(t, src, node, module) {
                        Some(sym) => {
                            assert(members_ok(sym.members@));
                            add_definition(module, sym);
                        },
                        None => {},
                    }
                }
            },
        }
    } else if kind_is(t, node, "function_definition") {
        match extract_function(t, src, node, module) {
            Some(sym) => {
                assert(members_ok(sym.members@));
                add_definition(module, sym);
            },
            None => {},
        }
    } else if kind_is(t, node, "import_from_statement") {
        extract_from_import(t, src, node, module);
    } else if kind_is(t, node, "import_statement") {
        extract_import(t, src, node, module);
    } else if kind_is(t, node, "expression_statement") {
        handle_expression_statement(t, src, node, module);
    }
}

/// The context of parsing `source` as the module `dotted_path` in file
/// `file_path`.
pub open spec fn module_ctx(nodes: Seq<SyntaxNodeV>, source: Seq<u8>, file_path: Seq<char>, dotted_path: Seq<char>) -> Ctx {
    Ctx {
        nodes,
        src: source,
        file: file_path,
        path: dotted_path,
        is_package: is_init_file(file_path),
    }
}

/// The module that a syntax tree of `source` describes: its definitions
/// (classes with their members and bases, functions, attributes), its
/// imports, wildcard imports, `__all__` and docstrings.
pub fn module_from_syntax(tree: &SyntaxTree, source: &[u8], file_path: &str, dotted_path: &str) -> (m: Module)
    requires
        syntax_wf(tree@),
    ensures
        m.path@ == dotted_path@,
        m.file_path@ == file_path@,
        m.is_package == is_init_file(file_path@),
        parse_view(m) == spec_module(module_ctx(tree@, source@, file_path@, dotted_path@)),
        syms_ok(m.definitions@),
{
    let is_package = is_package_file(file_path);
    let path_chars = chars_of(dotted_path);
    let file_chars = chars_of(file_path);
    let mut module = Module {
        path: string_of(path_chars.as_slice()),
        file_path: string_of(file_chars.as_slice()),
        is_package,
        definitions: Vec::new(),
        imports: Vec::new(),
        wildcard_imports: Vec::new(),
        all: None,
        docstrings: Vec::new(),
    };
    let ghost c = module_ctx(tree@, source@, file_path@, dotted_path@);
    assert(syms_view(module.definitions@) =~= Seq::<SymV>::empty());
    assert(imports_view(module.imports@) =~= Seq::<ImportV>::empty());
    assert(string_views(module.wildcard_imports@) =~= Seq::<Seq<char>>::empty());
    assert(docs_view(module.docstrings@) =~= Seq::<DocV>::empty());
    assert(node_wf(tree@, 0));
    let cnt = tree.nodes[0].child_count;
    let first = tree.nodes[0].first_child;
    let len = tree.nodes.len();
    let mut j: usize = 0;
    while j < cnt
        invariant
            len == tree@.len(),
            c == ctx_of(*tree, source@, module),
            syntax_wf(tree@),
            cnt == tree@[0].child_count,
            first == tree@[0].first_child,
            first + cnt <= tree@.len(),
            j <= cnt,
            module.path@ == dotted_path@,
            module.file_path@ == file_path@,
            module.is_package == is_init_file(file_path@),
            syms_ok(module.definitions@),
            process_top(c, j as int, parse_view(module)) == spec_module(c),
        decreases cnt - j,
    {
        process_statement(tree, source, first + j, &mut module);
        j = j + 1;
    }
    module
}

/// Parsing failed: no syntax tree could be built.
#[derive(Debug, Clone, Copy, PartialEq, Eq, Structural)]
pub enum ParseError {
    /// A node's row or column does not fit (only where a machine word is
    /// 32 bits wide).
    NoTree,
}

/// Parse Python source bytes and return a [`Module`]: what the syntax
/// tree that `tree_sitter` builds for the source defines, imports and
/// documents.  It always succeeds where a machine word is wider than 32 bits.
pub fn parse_bytes(source: &[u8], file_path: &str, dotted_path: &str) -> (r: Result<Module, ParseError>)
    ensures
        u32::MAX < usize::MAX ==> r is Ok,
        match r {
            Ok(m) => m.path@ == dotted_path@ && m.file_path@ == file_path@ && m.is_package
                == is_init_file(file_path@) && syms_ok(m.definitions@) && syntax_wf(python_nodes(source@))
                && parse_view(m) == spec_module(module_ctx(python_nodes(source@), source@, file_path@, dotted_path@)),
            Err(e) => e == ParseError::NoTree,
        },
{
    match syntax_tree(source) {
        None => Err(ParseError::NoTree),
        Some(tree) => {
            let m = module_from_syntax(&tree, source, file_path, dotted_path);
            Ok(m)
        },
    }
}

/// Resolve a relative import like `.foo` or `..bar` against the current
/// module path (see [`crate::util::resolve_relative_import`]).
pub fn resolve_relative_import(current_module: &str, relative: &str, is_package: bool) -> (r: String)
    requires
        is_package ==> leading_dots(relative@) >= 1,
    ensures
        r@ == relative_import_target(current_module@, relative@, is_package),
{
    crate::util::resolve_relative_import(current_module, relative, is_package)
}

// ---------------------------------------------------------------------------
// Laws of parsing: names stay unique
// ---------------------------------------------------------------------------

/// No two members share a name.
pub open spec fn leaf_names_unique(ms: Seq<LeafV>) -> bool {
    forall|i: int, j: int| 0 <= i < j < ms.len() ==> (#[trigger] ms[i]).name != (#[trigger] ms[j]).name
}

/// No two definitions share a name, and no two members of one definition do.
pub open spec fn defs_unique(ds: Seq<SymV>) -> bool {
    &&& forall|i: int, j: int| 0 <= i < j < ds.len() ==> (#[trigger] ds[i]).name != (#[trigger] ds[j]).name
    &&& forall|k: int| 0 <= k < ds.len() ==> leaf_names_unique((#[trigger] ds[k]).members)
}

proof fn lemma_leaf_pos_props(ms: Seq<LeafV>, name: Seq<char>)
    ensures
        -1 <= leaf_pos(ms, name) < ms.len(),
        leaf_pos(ms, name) >= 0 ==> ms[leaf_pos(ms, name)].name == name,
        forall|j: int|
            0 <= j < ms.len() && (leaf_pos(ms, name) < 0 || j < leaf_pos(ms, name))
                ==> (#[trigger] ms[j]).name != name,
    decreases ms.len(),
{
    if ms.len() > 0 {
        lemma_leaf_pos_props(ms.drop_first(), name);
        assert forall|j: int|
            0 <= j < ms.len() && (leaf_pos(ms, name) < 0 || j < leaf_pos(ms, name))
                implies (#[trigger] ms[j]).name != name by {
            if j > 0 {
                assert(ms[j] == ms.drop_first()[j - 1]);
            }
        }
    }
}

proof fn lemma_symv_pos_props(ds: Seq<SymV>, name: Seq<char>)
    ensures
        -1 <= symv_pos(ds, name) < ds.len(),
        symv_pos(ds, name) >= 0 ==> ds[symv_pos(ds, name)].name == name,
        forall|j: int|
            0 <= j < ds.len() && (symv_pos(ds, name) < 0 || j < symv_pos(ds, name))
                ==> (#[trigger] ds[j]).name != name,
    decreases ds.len(),
{
    if ds.len() > 0 {
        lemma_symv_pos_props(ds.drop_first(), name);
        assert forall|j: int|
            0 <= j < ds.len() && (symv_pos(ds, name) < 0 || j < symv_pos(ds, name))
                implies (#[trigger] ds[j]).name != name by {
            if j > 0 {
                assert(ds[j] == ds.drop_first()[j - 1]);
            }
        }
    }
}

proof fn lemma_insert_leaf_unique(ms: Seq<LeafV>, l: LeafV)
    requires
        leaf_names_unique(ms),
    ensures
        leaf_names_unique(insert_leaf(ms, l)),
        leaf_names_unique(add_leaf_if_absent(ms, l)),
{
    lemma_leaf_pos_props(ms, l.name);
    let p = leaf_pos(ms, l.name);
    let r = insert_leaf(ms, l);
    assert forall|i: int, j: int| 0 <= i < j < r.len() implies (#[trigger] r[i]).name != (#[trigger] r[j]).name by {
        if p >= 0 {
            if i != p && j != p {
                assert(r[i] == ms[i] && r[j] == ms[j]);
            } else if i == p {
                assert(r[j] == ms[j]);
            } else {
                assert(r[i] == ms[i]);
            }
        } else if j < ms.len() {
            assert(r[i] == ms[i] && r[j] == ms[j]);
        } else {
            assert(r[i] == ms[i]);
        }
    }
}

proof fn lemma_insert_symv_unique(ds: Seq<SymV>, s: SymV)
    requires
        defs_unique(ds),
        leaf_names_unique(s.members),
    ensures
        defs_unique(insert_symv(ds, s)),
{
    lemma_symv_pos_props(ds, s.name);
    let p = symv_pos(ds, s.name);
    let r = insert_symv(ds, s);
    assert forall|i: int, j: int| 0 <= i < j < r.len() implies (#[trigger] r[i]).name != (#[trigger] r[j]).name by {
        if p >= 0 {
            if i != p && j != p {
                assert(r[i] == ds[i] && r[j] == ds[j]);
            } else if i == p {
                assert(r[j] == ds[j]);
            } else {
                assert(r[i] == ds[i]);
            }
        } else if j < ds.len() {
            assert(r[i] == ds[i] && r[j] == ds[j]);
        } else {
            assert(r[i] == ds[i]);
        }
    }
    assert forall|k: int| 0 <= k < r.len() implies leaf_names_unique((#[trigger] r[k]).members) by {
        if !(k == p || k == ds.len()) {
            assert(r[k] == ds[k]);
        }
    }
}

proof fn lemma_walk_self_unique(c: Ctx, node: int, j: int, ms: Seq<LeafV>)
    requires
        leaf_names_unique(ms),
    ensures
        leaf_names_unique(walk_self(c, node, j, ms)),
    decreases c.nodes.len() - node, count(c, node) - j,
{
    if 0 <= node < c.nodes.len() && 0 <= j < count(c, node) {
        let ch = nth(c, node, j);
        let ms2 = if kind(c, ch) == "expression_statement"@ {
            match self_attr(c, ch) {
                Some(n) => {
                    lemma_insert_leaf_unique(ms, attr_leaf(n));
                    add_leaf_if_absent(ms, attr_leaf(n))
                },
                None => ms,
            }
        } else if is_compound(kind(c, ch)) && node < ch < c.nodes.len() {
            lemma_walk_self_unique(c, ch, 0, ms);
            walk_self(c, ch, 0, ms)
        } else {
            ms
        };
        lemma_walk_self_unique(c, node, j + 1, ms2);
    }
}

proof fn lemma_class_body_unique(c: Ctx, body: int, j: int, ms: Seq<LeafV>, docs: Seq<DocV>)
    requires
        leaf_names_unique(ms),
    ensures
        leaf_names_unique(class_body(c, body, j, ms, docs).0),
    decreases count(c, body) - j,
{
    if 0 <= j < count(c, body) {
        let ch = nth(c, body, j);
        let k = kind(c, ch);
        if k == "function_definition"@ || k == "decorated_definition"@ {
            match function_sym(c, ch, docs) {
                None => lemma_class_body_unique(c, body, j + 1, ms, docs),
                Some((sym, docs2)) => {
                    let ms1 = if sym.name == "__init__"@ {
                        let f = if k == "decorated_definition"@ {
                            field(c, ch, "definition"@)
                        } else {
                            ch
                        };
                        if f >= 0 {
                            let b = field(c, f, "body"@);
                            if b >= 0 {
                                lemma_walk_self_unique(c, b, 0, ms);
                            }
                            init_attrs(c, f, ms)
                        } else {
                            ms
                        }
                    } else {
                        ms
                    };
                    lemma_insert_leaf_unique(ms1, leaf_of(sym));
                    lemma_class_body_unique(c, body, j + 1, insert_leaf(ms1, leaf_of(sym)), docs2);
                },
            }
        } else if k == "expression_statement"@ {
            match docstring_of(c, ch) {
                Some(d) => lemma_class_body_unique(c, body, j + 1, ms, docs.push(d)),
                None => match attribute_name(c, ch) {
                    Some(n) => {
                        lemma_insert_leaf_unique(ms, attr_leaf(n));
                        lemma_class_body_unique(c, body, j + 1, insert_leaf(ms, attr_leaf(n)), docs);
                    },
                    None => lemma_class_body_unique(c, body, j + 1, ms, docs),
                },
            }
        } else {
            lemma_class_body_unique(c, body, j + 1, ms, docs);
        }
    }
}

proof fn lemma_with_def_unique(st: ParseV, d: Option<(SymV, Seq<DocV>)>)
    requires
        defs_unique(st.defs),
        d matches Some((s, _)) ==> leaf_names_unique(s.members),
    ensures
        defs_unique(with_def(st, d).defs),
{
    if let Some((s, _)) = d {
        lemma_insert_symv_unique(st.defs, s);
    }
}

proof fn lemma_class_sym_unique(c: Ctx, node: int, docs: Seq<DocV>)
    ensures
        class_sym(c, node, docs) matches Some((s, _)) ==> leaf_names_unique(s.members),
{
    let b = field(c, node, "body"@);
    if b >= 0 {
        lemma_class_body_unique(c, b, 0, Seq::empty(), docs);
    }
}

proof fn lemma_from_names_defs(c: Ctx, node: int, mn: int, j: int, st: ParseV, source: Seq<char>)
    ensures
        from_names(c, node, mn, j, st, source).defs == st.defs,
    decreases count(c, node) - j,
{
    if 0 <= j < count(c, node) {
        let ch = nth(c, node, j);
        let st2 = if ch == mn {
            st
        } else if kind(c, ch) == "dotted_name"@ || kind(c, ch) == "aliased_import"@ {
            match import_name(c, ch, source) {
                Some(i) => add_imp(st, i),
                None => st,
            }
        } else if kind(c, ch) == "wildcard_import"@ {
            ParseV {
                defs: st.defs,
                imports: st.imports,
                wildcards: st.wildcards.push(source),
                all: st.all,
                docs: st.docs,
            }
        } else {
            st
        };
        lemma_from_names_defs(c, node, mn, j + 1, st2, source);
    }
}

proof fn lemma_import_children_defs(c: Ctx, node: int, j: int, st: ParseV)
    ensures
        import_children(c, node, j, st).defs == st.defs,
    decreases count(c, node) - j,
{
    if 0 <= j < count(c, node) {
        let ch = nth(c, node, j);
        let st2 = if kind(c, ch) == "dotted_name"@ {
            match text(c, ch) {
                Some(x) => add_imp(st, dotted_import(x, None)),
                None => st,
            }
        } else if kind(c, ch) == "aliased_import"@ {
            let nn = field(c, ch, "name"@);
            if nn < 0 {
                st
            } else {
                match text(c, nn) {
                    None => st,
                    Some(x) => {
                        let a = field(c, ch, "alias"@);
                        add_imp(
                            st,
                            dotted_import(
                                x,
                                if a >= 0 {
                                    text(c, a)
                                } else {
                                    None
                                },
                            ),
                        )
                    },
                }
            }
        } else {
            st
        };
        lemma_import_children_defs(c, node, j + 1, st2);
    }
}

proof fn lemma_process_node_unique(c: Ctx, node: int, st: ParseV)
    requires
        defs_unique(st.defs),
    ensures
        defs_unique(process_node(c, node, st).defs),
{
    let k = kind(c, node);
    if k == "class_definition"@ {
        lemma_class_sym_unique(c, node, st.docs);
        lemma_with_def_unique(st, class_sym(c, node, st.docs));
    } else if k == "decorated_definition"@ {
        let inner = field(c, node, "definition"@);
        if inner >= 0 {
            lemma_class_sym_unique(c, inner, st.docs);
            lemma_with_def_unique(st, class_sym(c, inner, st.docs));
            lemma_with_def_unique(st, function_sym(c, node, st.docs));
        }
    } else if k == "function_definition"@ {
        lemma_with_def_unique(st, function_sym(c, node, st.docs));
    } else if k == "import_from_statement"@ {
        match from_source(c, node) {
            None => {},
            Some(source) => lemma_from_names_defs(c, node, field(c, node, "module_name"@), 0, st, source),
        }
    } else if k == "import_statement"@ {
        lemma_import_children_defs(c, node, 0, st);
    } else if k == "expression_statement"@ {
        if let Some(n) = attribute_name(c, node) {
            lemma_insert_symv_unique(st.defs, attr_sym(n));
        }
    }
}

proof fn lemma_process_top_unique(c: Ctx, j: int, st: ParseV)
    requires
        defs_unique(st.defs),
    ensures
        defs_unique(process_top(c, j, st).defs),
    decreases count(c, 0) - j,
{
    if 0 <= j < count(c, 0) {
        lemma_process_node_unique(c, nth(c, 0, j), st);
        lemma_process_top_unique(c, j + 1, process_node(c, nth(c, 0, j), st));
    }
}

/// Parsing records each top-level name once, and each member name of a
/// class once: a later definition of a name replaces the earlier one (a
/// `self` attribute never replaces a member already there).
pub proof fn law_parse_names_unique(c: Ctx)
    ensures
        defs_unique(spec_module(c).defs),
{
    lemma_process_top_unique(c, 0, empty_parse());
}

} // verus!
