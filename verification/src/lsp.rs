//! What the editor server decides: which docstring references to flag,
//! where a reference under the cursor is defined, and how file paths and
//! `file://` URIs map to each other.  Talking the protocol is the caller's
//! part.
use vstd::prelude::*;
use crate::config::DocStyle;
use crate::extract::{extract_references, ref_view, refs_view, spec_extract, RefV, Reference};
use crate::graph::{
    dotted, find_import, find_module, find_symbol, import_pos, import_target, import_target_chars,
    lemma_import_pos, lemma_module_pos, lemma_sym_pos, module_pos, prefix_path, root_chars,
    root_of, spec_resolve, sym_pos, Docstring, Module, SourceLocation, Symbol, SymbolGraph,
    MAX_DEPTH,
};
use crate::inventory::{lines_of, text_lines, Inventory};
use crate::parse::{loc_view, opt_loc_view, LocV};
use crate::text::{
    chars_of, has_prefix, join_range, seq_views, slice_chars, split_chars, split_seq, starts_with,
    string_of, string_views,
};

verus! {

// ---------------------------------------------------------------------------
// Paths and URIs
// ---------------------------------------------------------------------------

/// `file://`
pub open spec fn file_scheme() -> Seq<char> {
    seq!['f', 'i', 'l', 'e', ':', '/', '/']
}

/// The `file://` URI of a path: `file://` before an absolute path,
/// `file:///` before a relative one.
pub open spec fn uri_of_path(path: Seq<char>) -> Seq<char> {
    if path.len() > 0 && path[0] == '/' {
        file_scheme() + path
    } else {
        file_scheme().push('/') + path
    }
}

/// Convert a file path to a URI string (`file:///...`).
pub fn path_to_uri(path: &str) -> (r: String)
    ensures
        r@ == uri_of_path(path@),
{
    let p = chars_of(path);
    let mut out: Vec<char> = vec!['f', 'i', 'l', 'e', ':', '/', '/'];
    assert(out@ =~= file_scheme());
    if !(p.len() > 0 && p[0] == '/') {
        out.push('/');
    }
    crate::graph::extend_chars(&mut out, p.as_slice());
    string_of(out.as_slice())
}

/// Convert a URI string to a file path: the text after `file://`, or `None`
/// for a URI of another scheme.
pub fn uri_to_path(uri: &str) -> (r: Option<String>)
    ensures
        match r {
            Some(p) => has_prefix(uri@, file_scheme()) && p@ == uri@.skip(7),
            None => !has_prefix(uri@, file_scheme()),
        },
{
    let u = chars_of(uri);
    let scheme = ['f', 'i', 'l', 'e', ':', '/', '/'];
    assert(scheme@ =~= file_scheme());
    if !starts_with(u.as_slice(), scheme.as_slice()) {
        return None;
    }
    let rest = slice_chars(u.as_slice(), 7, u.len());
    assert(rest@ =~= u@.skip(7));
    Some(string_of(rest.as_slice()))
}

// ---------------------------------------------------------------------------
// Internal references
// ---------------------------------------------------------------------------

/// Whether the root of `target` is a module of the graph or the package of
/// one: some module path is the root or starts with the root and a dot.
pub open spec fn internal_target(mods: Seq<Module>, target: Seq<char>) -> bool {
    exists|k: int|
        0 <= k < mods.len() && ((#[trigger] mods[k]).path@ == root_of(target) || has_prefix(
            mods[k].path@,
            root_of(target).push('.'),
        ))
}

/// A reference whose first dotted segment is the path of a module of the
/// graph points into this project.
pub proof fn law_root_module_is_internal(mods: Seq<Module>, target: Seq<char>, k: int)
    requires
        0 <= k < mods.len(),
        mods[k].path@ == split_seq(target, '.')[0],
    ensures
        internal_target(mods, target),
{
    assert(mods[k].path@ == root_of(target));
}

/// A reference whose first dotted segment, followed by a dot, begins the
/// path of a module of the graph points into this project.
pub proof fn law_package_root_is_internal(mods: Seq<Module>, target: Seq<char>, k: int)
    requires
        0 <= k < mods.len(),
        mods[k].path@.len() > split_seq(target, '.')[0].len(),
        mods[k].path@.subrange(0, split_seq(target, '.')[0].len() + 1int) == split_seq(target, '.')[0].push('.'),
    ensures
        internal_target(mods, target),
{
    let root = root_of(target);
    assert(mods[k].path@.subrange(0, root.push('.').len() as int) == root.push('.'));
    assert(has_prefix(mods[k].path@, root.push('.')));
}

/// A reference is internal only through such a module: one whose path is
/// the reference's first segment or begins with it and a dot.
pub proof fn law_internal_needs_a_module(mods: Seq<Module>, target: Seq<char>)
    requires
        internal_target(mods, target),
    ensures
        exists|k: int|
            0 <= k < mods.len() && (#[trigger] mods[k].path@ == split_seq(target, '.')[0] || (
            mods[k].path@.len() > split_seq(target, '.')[0].len() && mods[k].path@.subrange(
                0,
                split_seq(target, '.')[0].len() + 1int,
            ) == split_seq(target, '.')[0].push('.'))),
{
    let k = choose|k: int|
        0 <= k < mods.len() && ((#[trigger] mods[k]).path@ == root_of(target) || has_prefix(
            mods[k].path@,
            root_of(target).push('.'),
        ));
    assert(mods[k].path@ == split_seq(target, '.')[0] || (mods[k].path@.len() > split_seq(target, '.')[0].len()
        && mods[k].path@.subrange(0, split_seq(target, '.')[0].len() + 1int) == split_seq(target, '.')[0].push('.')));
}

/// Whether a reference points into this project.
pub fn is_internal_ref(graph: &SymbolGraph, reference: &Reference) -> (r: bool)
    ensures
        r == internal_target(graph.modules@, reference.target@),
{
    let root = root_chars(reference.target.as_str());
    let mut dotted_root = root.clone();
    assert(dotted_root@ == root@);
    dotted_root.push('.');
    let mut k: usize = 0;
    while k < graph.modules.len()
        invariant
            k <= graph.modules@.len(),
            root@ == root_of(reference.target@),
            dotted_root@ == root@.push('.'),
            forall|j: int|
                0 <= j < k ==> !((#[trigger] graph.modules@[j]).path@ == root@ || has_prefix(
                    graph.modules@[j].path@,
                    root@.push('.'),
                )),
        decreases graph.modules@.len() - k,
    {
        let p = chars_of(graph.modules[k].path.as_str());
        if crate::text::chars_eq(p.as_slice(), root.as_slice()) || starts_with(
            p.as_slice(),
            dotted_root.as_slice(),
        ) {
            return true;
        }
        k = k + 1;
    }
    false
}

// ---------------------------------------------------------------------------
// Locations
// ---------------------------------------------------------------------------

/// The location of the definition that `segs` names through nested
/// definitions starting in `defs` (none when a name is missing, or when
/// the definition has no location).
pub open spec fn loc_in_defs(defs: Seq<Symbol>, segs: Seq<Seq<char>>) -> Option<LocV>
    decreases segs.len(),
{
    if segs.len() == 0 {
        None
    } else {
        let q = sym_pos(defs, segs[0]);
        if q < 0 {
            None
        } else if segs.len() == 1 {
            opt_loc_view(defs[q].location)
        } else {
            loc_in_defs(defs[q].members@, segs.drop_first())
        }
    }
}

/// The location a reference points to, following imports up to the same
/// depth as resolution.  Module prefixes are tried from the longest down; a
/// module prefix gives the module's file when it is the whole reference,
/// else the location of the nested definition named by the rest; failing
/// that, the first import binding the next name decides the answer.
pub open spec fn spec_location(mods: Seq<Module>, reference: Seq<char>, depth: int) -> Option<LocV>
    decreases 21 - depth, 2int, 0int,
{
    if depth > MAX_DEPTH {
        None
    } else {
        let segs = split_seq(reference, '.');
        location_splits(mods, segs, segs.len() as int, depth)
    }
}

pub open spec fn location_splits(mods: Seq<Module>, segs: Seq<Seq<char>>, k: int, depth: int) -> Option<LocV>
    decreases 21 - depth, 1int, k,
{
    if depth > MAX_DEPTH || k < 1 {
        None
    } else {
        match location_at(mods, segs, k, depth) {
            Some(answer) => answer,
            None => location_splits(mods, segs, k - 1, depth),
        }
    }
}

/// The answer that the module prefix of `k` segments decides, or `None`
/// when it decides nothing.
pub open spec fn location_at(mods: Seq<Module>, segs: Seq<Seq<char>>, k: int, depth: int) -> Option<Option<LocV>>
    decreases 21 - depth, 0int, 0int,
{
    if depth > MAX_DEPTH || k < 1 || k > segs.len() {
        None
    } else {
        let p = module_pos(mods, prefix_path(segs, k));
        if p < 0 {
            None
        } else if k == segs.len() {
            Some(Some(LocV { file: mods[p].file_path@, line: 1, col: 1 }))
        } else {
            let m = mods[p];
            let remaining = segs.skip(k);
            match loc_in_defs(m.definitions@, remaining) {
                Some(l) => Some(Some(l)),
                None => {
                    let i = import_pos(m.imports@, remaining[0]);
                    if i < 0 {
                        None
                    } else {
                        Some(
                            spec_location(
                                mods,
                                dotted(import_target(m.imports@[i]), remaining.drop_first()),
                                depth + 1,
                            ),
                        )
                    }
                },
            }
        }
    }
}

/// A copy of a source location.
fn copy_location(l: &SourceLocation) -> (r: SourceLocation)
    ensures
        loc_view(r) == loc_view(*l),
{
    let f = chars_of(l.file.as_str());
    SourceLocation { file: string_of(f.as_slice()), line: l.line, col: l.col }
}

/// The location of the definition that `segs[from..]` names through nested
/// definitions.
fn find_in_definitions(defs: &Vec<Symbol>, segs: &Vec<Vec<char>>, from: usize) -> (r: Option<SourceLocation>)
    requires
        from < segs.len(),
    ensures
        opt_loc_view(r) == loc_in_defs(defs@, seq_views(segs@).skip(from as int)),
    decreases segs.len() - from,
{
    let ghost rest = seq_views(segs@).skip(from as int);
    assert(rest[0] == segs@[from as int]@);
    proof {
        lemma_sym_pos(defs@, rest[0]);
    }
    match find_symbol(defs, segs[from].as_slice()) {
        None => None,
        Some(q) => {
            if from + 1 == segs.len() {
                match &defs[q].location {
                    Some(l) => Some(copy_location(l)),
                    None => None,
                }
            } else {
                assert(rest.drop_first() =~= seq_views(segs@).skip(from + 1));
                find_in_definitions(&defs[q].members, segs, from + 1)
            }
        },
    }
}

/// Resolve a dotted reference to the location of its definition.
pub fn resolve_to_location(graph: &SymbolGraph, reference: &str) -> (r: Option<SourceLocation>)
    ensures
        opt_loc_view(r) == spec_location(graph.modules@, reference@, 0),
{
    let c = chars_of(reference);
    location_inner(graph, c.as_slice(), 0)
}

fn location_inner(graph: &SymbolGraph, reference: &[char], depth: usize) -> (r: Option<SourceLocation>)
    ensures
        opt_loc_view(r) == spec_location(graph.modules@, reference@, depth as int),
    decreases 21 - depth, 2int, 0int,
{
    if depth > MAX_DEPTH {
        return None;
    }
    let segs = split_chars(reference, '.');
    location_splits_exec(graph, &segs, segs.len(), depth)
}

fn location_splits_exec(graph: &SymbolGraph, segs: &Vec<Vec<char>>, k: usize, depth: usize) -> (r: Option<SourceLocation>)
    requires
        k <= segs.len(),
        depth <= MAX_DEPTH,
    ensures
        opt_loc_view(r) == location_splits(graph.modules@, seq_views(segs@), k as int, depth as int),
    decreases 21 - depth, 1int, k,
{
    if k < 1 {
        return None;
    }
    match location_at_exec(graph, segs, k, depth) {
        Some(answer) => answer,
        None => location_splits_exec(graph, segs, k - 1, depth),
    }
}

fn location_at_exec(graph: &SymbolGraph, segs: &Vec<Vec<char>>, k: usize, depth: usize) -> (r: Option<Option<SourceLocation>>)
    requires
        1 <= k <= segs.len(),
        depth <= MAX_DEPTH,
    ensures
        match r {
            Some(a) => location_at(graph.modules@, seq_views(segs@), k as int, depth as int)
                == Some(opt_loc_view(a)),
            None => location_at(graph.modules@, seq_views(segs@), k as int, depth as int) is None,
        },
    decreases 21 - depth, 0int, 0int,
{
    let ghost sv = seq_views(segs@);
    let mp = join_range(segs, 0, k, '.');
    assert(sv.subrange(0, k as int) =~= sv.take(k as int));
    proof {
        lemma_module_pos(graph.modules@, mp@);
    }
    let p = match find_module(&graph.modules, mp.as_slice()) {
        None => {
            return None;
        },
        Some(p) => p,
    };
    let m = &graph.modules[p];
    if k == segs.len() {
        let f = chars_of(m.file_path.as_str());
        return Some(Some(SourceLocation { file: string_of(f.as_slice()), line: 1, col: 1 }));
    }
    let ghost remaining = sv.skip(k as int);
    match find_in_definitions(&m.definitions, segs, k) {
        Some(l) => {
            return Some(Some(l));
        },
        None => {},
    }
    assert(remaining[0] == segs@[k as int]@);
    proof {
        lemma_import_pos(m.imports@, remaining[0]);
    }
    match find_import(&m.imports, segs[k].as_slice()) {
        None => None,
        Some(i) => {
            let head = import_target_chars(&m.imports[i]);
            let target = crate::graph::dotted_from(head, segs, k + 1);
            assert(remaining.drop_first() =~= sv.skip(k + 1));
            Some(location_inner(graph, target.as_slice(), depth + 1))
        },
    }
}

// ---------------------------------------------------------------------------
// The reference under the cursor
// ---------------------------------------------------------------------------

/// The number of UTF-8 bytes of a text.
pub open spec fn byte_len(s: Seq<char>) -> nat {
    vstd::utf8::encode_utf8(s).len()
}

/// The byte offset of the start of line `n`, counting each earlier line and
/// one byte for its line break.
pub open spec fn line_start(lines: Seq<Seq<char>>, n: int) -> int
    decreases n,
{
    if n <= 0 || n > lines.len() {
        0
    } else {
        line_start(lines, n - 1) + byte_len(lines[n - 1]) + 1
    }
}

/// The line offsets of a text fit in a machine word.
pub open spec fn offsets_fit(content: Seq<char>) -> bool {
    line_start(text_lines(content), text_lines(content).len() as int) <= usize::MAX
}

/// Whether a reference spans the byte offset `off` (its end included).
pub open spec fn covers(r: RefV, off: int) -> bool {
    r.offset <= off <= r.offset + byte_len(r.target)
}

/// The first reference from the `i`-th on that spans `off`, or -1.
pub open spec fn first_covering(refs: Seq<RefV>, off: int, i: int) -> int
    decreases refs.len() - i,
{
    if i < 0 || i >= refs.len() {
        -1
    } else if covers(refs[i], off) {
        i
    } else {
        first_covering(refs, off, i + 1)
    }
}

/// The byte offset in the docstring of a cursor at `line`, `character`
/// (both counted from zero in the file), or `None` when the cursor is not
/// on one of its lines.  The column is clamped to the line.
pub open spec fn cursor_byte_offset(doc_line: int, content: Seq<char>, line: int, character: int) -> Option<int> {
    let lines = text_lines(content);
    let rel = line - (doc_line - 1);
    if rel < 0 || rel >= lines.len() {
        None
    } else {
        let len = byte_len(lines[rel]) as int;
        Some(line_start(lines, rel) + if character <= len {
            character
        } else {
            len
        })
    }
}

/// The reference of a docstring under the cursor: the first that spans the
/// cursor's byte offset.
pub open spec fn ref_at_cursor(doc_line: int, content: Seq<char>, refs: Seq<RefV>, line: int, character: int) -> Option<RefV> {
    match cursor_byte_offset(doc_line, content, line, character) {
        None => None,
        Some(off) => {
            let i = first_covering(refs, off, 0);
            if i < 0 {
                None
            } else {
                Some(refs[i])
            }
        },
    }
}

proof fn lemma_line_start_mono(lines: Seq<Seq<char>>, a: int, b: int)
    requires
        0 <= a <= b <= lines.len(),
    ensures
        line_start(lines, a) <= line_start(lines, b),
        a < b ==> line_start(lines, a) + byte_len(lines[a]) + 1 <= line_start(lines, b),
    decreases b - a,
{
    if a < b {
        lemma_line_start_mono(lines, a, b - 1);
    }
}

/// The byte length of a text.
fn text_byte_len(s: &[char]) -> (r: usize)
    ensures
        r == byte_len(s@),
{
    let t = string_of(s);
    let b = t.as_str().as_bytes();
    b.len()
}

/// Find the reference under the cursor at `line`, `character` (counted from
/// zero, as the editor protocol counts them).
pub fn find_ref_at_cursor(docstring: &Docstring, refs: &Vec<Reference>, line: u32, character: u32) -> (r: Option<Reference>)
    requires
        docstring.line >= 1,
        offsets_fit(docstring.content@),
    ensures
        match r {
            Some(x) => ref_at_cursor(docstring.line as int, docstring.content@, refs_view(refs@), line as int, character as int)
                == Some(ref_view(x)),
            None => ref_at_cursor(docstring.line as int, docstring.content@, refs_view(refs@), line as int, character as int) is None,
        },
{
    let ghost rv = refs_view(refs@);
    let cursor_line = line as usize;
    let ds_start_line = docstring.line - 1;
    if cursor_line < ds_start_line {
        return None;
    }
    let relative_line = cursor_line - ds_start_line;
    let lines = lines_of(docstring.content.as_str());
    let ghost lv = seq_views(lines@);
    if relative_line >= lines.len() {
        return None;
    }
    let cursor_col = character as usize;
    let mut cursor_offset: usize = 0;
    let mut i: usize = 0;
    while i < relative_line
        invariant
            i <= relative_line < lines.len(),
            lv == seq_views(lines@),
            lv == text_lines(docstring.content@),
            offsets_fit(docstring.content@),
            cursor_offset == line_start(lv, i as int),
        decreases relative_line - i,
    {
        assert(lv[i as int] == lines@[i as int]@);
        let len = text_byte_len(lines[i].as_slice());
        proof {
            lemma_line_start_mono(lv, i + 1, lv.len() as int);
        }
        cursor_offset = cursor_offset + len + 1;
        i = i + 1;
    }
    assert(lv[relative_line as int] == lines@[relative_line as int]@);
    let len = text_byte_len(lines[relative_line].as_slice());
    proof {
        lemma_line_start_mono(lv, relative_line as int, lv.len() as int);
    }
    cursor_offset = cursor_offset + if cursor_col <= len {
        cursor_col
    } else {
        len
    };
    let ghost off = cursor_offset as int;
    assert(cursor_byte_offset(docstring.line as int, docstring.content@, line as int, character as int)
        == Some(off));
    let mut k: usize = 0;
    while k < refs.len()
        invariant
            k <= refs@.len(),
            rv == refs_view(refs@),
            off == cursor_offset,
            cursor_byte_offset(docstring.line as int, docstring.content@, line as int, character as int) == Some(off),
            first_covering(rv, off, 0) == first_covering(rv, off, k as int),
        decreases refs@.len() - k,
    {
        let r = &refs[k];
        let tlen = text_byte_len(chars_of(r.target.as_str()).as_slice());
        assert(rv[k as int] == ref_view(*r));
        if cursor_offset >= r.offset && cursor_offset - r.offset <= tlen {
            let t = chars_of(r.target.as_str());
            let found = Reference { target: string_of(t.as_slice()), offset: r.offset, kind: r.kind };
            assert(covers(rv[k as int], off));
            assert(first_covering(rv, off, k as int) == k);
            assert(ref_view(found) == rv[k as int]);
            assert(ref_at_cursor(docstring.line as int, docstring.content@, rv, line as int, character as int) == Some(rv[k as int]));
            return Some(found);
        }
        k = k + 1;
    }
    None
}

// ---------------------------------------------------------------------------
// Go to definition
// ---------------------------------------------------------------------------

/// Whether the cursor line lies on the lines of a docstring (from its first
/// line to as many lines further as it has).
pub open spec fn on_docstring(d: Docstring, line: int) -> bool {
    d.line - 1 <= line <= d.line - 1 + text_lines(d.content@).len()
}

/// The first docstring of the module from the `i`-th on that the cursor
/// line lies on, or -1.
pub open spec fn docstring_at(docs: Seq<Docstring>, line: int, i: int) -> int
    decreases docs.len() - i,
{
    if i < 0 || i >= docs.len() {
        -1
    } else if on_docstring(docs[i], line) {
        i
    } else {
        docstring_at(docs, line, i + 1)
    }
}

/// Docstrings whose lines count from one and whose offsets fit.
pub open spec fn docs_ok(docs: Seq<Docstring>) -> bool {
    forall|k: int| 0 <= k < docs.len() ==> (#[trigger] docs[k]).line >= 1 && docs[k].col >= 1 && offsets_fit(docs[k].content@)
}

/// Where the reference under the cursor is defined: the first docstring on
/// the cursor line, the reference under the cursor in it, and that
/// reference's location.
pub open spec fn spec_definition_at(g: SymbolGraph, style: DocStyle, m: Module, line: int, character: int) -> Option<LocV> {
    let i = docstring_at(m.docstrings@, line, 0);
    if i < 0 {
        None
    } else {
        let d = m.docstrings@[i];
        match ref_at_cursor(d.line as int, d.content@, spec_extract(d.content@, style), line, character) {
            None => None,
            Some(r) => spec_location(g.modules@, r.target, 0),
        }
    }
}

/// Go to the definition of the reference under the cursor, in a docstring
/// of `module`.
pub fn goto_definition(graph: &SymbolGraph, style: &DocStyle, module: &Module, line: u32, character: u32) -> (r: Option<SourceLocation>)
    requires
        docs_ok(module.docstrings@),
    ensures
        opt_loc_view(r) == spec_definition_at(*graph, *style, *module, line as int, character as int),
{
    let mut i: usize = 0;
    let ghost docs = module.docstrings@;
    while i < module.docstrings.len()
        invariant
            i <= docs.len(),
            docs == module.docstrings@,
            docs_ok(docs),
            docstring_at(docs, line as int, 0) == docstring_at(docs, line as int, i as int),
        decreases docs.len() - i,
    {
        let ds = &module.docstrings[i];
        assert(docs_ok(docs) ==> ds.line >= 1 && offsets_fit(ds.content@));
        let count = lines_of(ds.content.as_str()).len();
        let start = ds.line - 1;
        if (line as usize) >= start && (line as usize) - start <= count {
            let refs = extract_references(ds.content.as_str(), style);
            return match find_ref_at_cursor(ds, &refs, line, character) {
                None => None,
                Some(r) => resolve_to_location(graph, r.target.as_str()),
            };
        }
        i = i + 1;
    }
    None
}

// ---------------------------------------------------------------------------
// Editor diagnostics
// ---------------------------------------------------------------------------

/// A flagged reference: zero-based line and column of its docstring, and
/// the message.
#[derive(Debug)]
pub struct LspProblem {
    pub line: usize,
    pub character: usize,
    pub message: String,
}

/// The message of an unresolved reference in the editor.
pub open spec fn lsp_message(target: Seq<char>) -> Seq<char> {
    "Unresolved reference `"@ + target + "`"@
}

/// The flagged references of one docstring from the `n` first references:
/// internal references that neither resolve nor appear in an inventory.
pub open spec fn doc_problems(g: SymbolGraph, inv: Inventory, refs: Seq<RefV>) -> Seq<Seq<char>>
    decreases refs.len(),
{
    if refs.len() == 0 {
        Seq::empty()
    } else {
        let acc = doc_problems(g, inv, refs.drop_last());
        let t = refs.last().target;
        if internal_target(g.modules@, t) && !spec_resolve(g.modules@, t, 0) && !string_views(
            inv.symbols@,
        ).contains(t) {
            acc.push(lsp_message(t))
        } else {
            acc
        }
    }
}

/// The messages of a docstring's flagged references, each with the
/// docstring's position.
pub open spec fn problems_of(g: SymbolGraph, style: DocStyle, inv: Inventory, docs: Seq<Docstring>) -> Seq<(int, int, Seq<char>)>
    decreases docs.len(),
{
    if docs.len() == 0 {
        Seq::empty()
    } else {
        let d = docs.last();
        problems_of(g, style, inv, docs.drop_last()) + doc_problems(g, inv, spec_extract(d.content@, style)).map_values(
            |msg: Seq<char>| (d.line - 1, d.col - 1, msg),
        )
    }
}

pub open spec fn problem_view(p: LspProblem) -> (int, int, Seq<char>) {
    (p.line as int, p.character as int, p.message@)
}

pub open spec fn problems_view(ps: Seq<LspProblem>) -> Seq<(int, int, Seq<char>)> {
    ps.map_values(|p: LspProblem| problem_view(p))
}

fn lsp_message_exec(target: &str) -> (r: String)
    ensures
        r@ == lsp_message(target@),
{
    let mut out = String::new();
    out.append("Unresolved reference `");
    out.append(target);
    out.append("`");
    out
}

/// The references to flag in the docstrings of `module`: those into this
/// project that neither resolve nor appear in an inventory.
pub fn docstring_problems(graph: &SymbolGraph, style: &DocStyle, inventory: &Inventory, module: &Module) -> (r: Vec<LspProblem>)
    requires
        docs_ok(module.docstrings@),
    ensures
        problems_view(r@) == problems_of(*graph, *style, *inventory, module.docstrings@),
{
    let mut out: Vec<LspProblem> = Vec::new();
    let ghost docs = module.docstrings@;
    let mut i: usize = 0;
    assert(problems_view(out@) =~= problems_of(*graph, *style, *inventory, docs.take(0)));
    while i < module.docstrings.len()
        invariant
            i <= docs.len(),
            docs == module.docstrings@,
            docs_ok(docs),
            problems_view(out@) == problems_of(*graph, *style, *inventory, docs.take(i as int)),
        decreases docs.len() - i,
    {
        let ds = &module.docstrings[i];
        assert(docs_ok(docs) ==> ds.line >= 1 && ds.col >= 1);
        let refs = extract_references(ds.content.as_str(), style);
        let ghost rv = refs_view(refs@);
        let ghost before = problems_view(out@);
        let mut k: usize = 0;
        while k < refs.len()
            invariant
                k <= refs@.len(),
                rv == refs_view(refs@),
                ds.line >= 1,
                ds.col >= 1,
                problems_view(out@) == before + doc_problems(*graph, *inventory, rv.take(k as int)).map_values(
                    |msg: Seq<char>| (ds.line - 1, ds.col - 1, msg),
                ),
            decreases refs@.len() - k,
        {
            let r = &refs[k];
            assert(rv[k as int] == ref_view(*r));
            assert(rv.take(k + 1).drop_last() =~= rv.take(k as int));
            let ghost prev = doc_problems(*graph, *inventory, rv.take(k as int)).map_values(
                |msg: Seq<char>| (ds.line - 1, ds.col - 1, msg),
            );
            if is_internal_ref(graph, r) && !graph.resolve(r.target.as_str()) && !inventory.contains(
                r.target.as_str(),
            ) {
                let p = LspProblem {
                    line: ds.line - 1,
                    character: ds.col - 1,
                    message: lsp_message_exec(r.target.as_str()),
                };
                let ghost pv = problems_view(out@);
                out.push(p);
                assert(problems_view(out@) =~= pv.push(problem_view(p)));
                assert(doc_problems(*graph, *inventory, rv.take(k + 1)).map_values(
                    |msg: Seq<char>| (ds.line - 1, ds.col - 1, msg),
                ) =~= prev.push(problem_view(p)));
            } else {
                assert(doc_problems(*graph, *inventory, rv.take(k + 1)).map_values(
                    |msg: Seq<char>| (ds.line - 1, ds.col - 1, msg),
                ) =~= prev);
            }
            k = k + 1;
        }
        assert(rv.take(refs@.len() as int) =~= rv);
        assert(docs.take(i + 1).drop_last() =~= docs.take(i as int));
        assert(docs.take(i + 1).last() == *ds);
        assert(problems_view(out@) =~= problems_of(*graph, *style, *inventory, docs.take(i + 1)));
        i = i + 1;
    }
    assert(docs.take(docs.len() as int) =~= docs);
    out
}

} // verus!
