//! Fast line-based scanner for Python files without docstrings.
//!
//! Extracts imports and top-level class/function names without a syntax
//! tree.  Used as a fast path when a file has no triple-quoted strings (and
//! thus no docstrings to check).
use vstd::prelude::*;
use crate::discover::{is_init_file, is_package_file};
use crate::graph::{
    Import, ImportV, Module, Symbol, SymbolKind, import_view, imports_view, insert_symbol,
    put_symbol, sym_pos,
};
use crate::text::{
    chars_of, has_prefix, join_range, join_seq, lemma_split_nonempty, seq_views, slice_chars,
    split_chars, split_seq, starts_with, string_of, string_views, trim_chars, trim_seq, utf8_text,
};
use crate::util::{relative_import_target, resolve_relative_import};

verus! {

// ---------------------------------------------------------------------------
// Byte-level tests
// ---------------------------------------------------------------------------

/// A space or a tab.
pub open spec fn is_blank(b: u8) -> bool {
    b == 32 || b == 9
}

/// Whether `p` occurs in `s` at index `i`.
pub open spec fn bytes_at(s: Seq<u8>, i: int, p: Seq<u8>) -> bool {
    0 <= i && i + p.len() <= s.len() && s.subrange(i, i + p.len()) == p
}

/// Whether `s` starts with `p`.
pub open spec fn bytes_prefix(s: Seq<u8>, p: Seq<u8>) -> bool {
    bytes_at(s, 0, p)
}

/// `"""` or `'''` at index `i`.
pub open spec fn triple_quote_at(s: Seq<u8>, i: int) -> bool {
    0 <= i && i + 3 <= s.len() && s[i] == s[i + 1] && s[i + 1] == s[i + 2] && (s[i] == 34 || s[i]
        == 39)
}

/// Whether the source holds a triple-quoted string delimiter.
pub open spec fn spec_has_docstrings(s: Seq<u8>) -> bool {
    exists|i: int| triple_quote_at(s, i)
}

/// `import (`, the start of an import list in parentheses.
pub open spec fn paren_import() -> Seq<u8> {
    seq![105u8, 109, 112, 111, 114, 116, 32, 40]
}

/// A backslash that continues a line.
pub open spec fn line_continuation() -> Seq<u8> {
    seq![92u8, 10]
}

/// Whether the source may hold a statement that spans lines: an import list
/// in parentheses or a backslash continuation.
pub open spec fn spec_has_multiline_imports(s: Seq<u8>) -> bool {
    exists|i: int| bytes_at(s, i, paren_import()) || bytes_at(s, i, line_continuation())
}

/// Whether `p` occurs in `s` at index `i`.
fn occurs_at(s: &[u8], i: usize, p: &[u8]) -> (r: bool)
    ensures
        r == bytes_at(s@, i as int, p@),
{
    if i > s.len() || p.len() > s.len() - i {
        return false;
    }
    let mut k: usize = 0;
    while k < p.len()
        invariant
            i + p.len() <= s.len(),
            k <= p.len(),
            forall|j: int| 0 <= j < k ==> s@[i + j] == p@[j],
        decreases p.len() - k,
    {
        if s[i + k] != p[k] {
            assert(s@.subrange(i as int, i + p.len())[k as int] != p@[k as int]);
            return false;
        }
        k = k + 1;
    }
    assert(s@.subrange(i as int, i + p.len()) =~= p@);
    true
}

/// Check if source bytes contain a triple-quoted string.
pub fn has_docstrings(source: &[u8]) -> (r: bool)
    ensures
        r == spec_has_docstrings(source@),
{
    let n = source.len();
    let mut i: usize = 0;
    while i < n && n - i >= 3
        invariant
            n == source.len(),
            i <= n,
            forall|k: int| 0 <= k < i ==> !triple_quote_at(source@, k),
        decreases n - i,
    {
        let a = source[i];
        if (a == 34 || a == 39) && source[i + 1] == a && source[i + 2] == a {
            assert(triple_quote_at(source@, i as int));
            return true;
        }
        i = i + 1;
    }
    assert forall|k: int| !triple_quote_at(source@, k) by {
        if k >= i {
            assert(k + 3 > n);
        }
    }
    false
}

/// Check if source bytes may hold an import (or other statement) that spans
/// lines, which the line scanner cannot follow.
pub fn has_multiline_imports(source: &[u8]) -> (r: bool)
    ensures
        r == spec_has_multiline_imports(source@),
{
    let paren: [u8; 8] = [105, 109, 112, 111, 114, 116, 32, 40];
    let cont: [u8; 2] = [92, 10];
    assert(paren@ =~= paren_import());
    assert(cont@ =~= line_continuation());
    let n = source.len();
    let mut i: usize = 0;
    while i < n
        invariant
            n == source.len(),
            i <= n,
            paren@ == paren_import(),
            cont@ == line_continuation(),
            forall|k: int|
                0 <= k < i ==> !bytes_at(source@, k, paren_import()) && !bytes_at(
                    source@,
                    k,
                    line_continuation(),
                ),
        decreases n - i,
    {
        if occurs_at(source, i, paren.as_slice()) || occurs_at(source, i, cont.as_slice()) {
            return true;
        }
        i = i + 1;
    }
    false
}

// ---------------------------------------------------------------------------
// Lines
// ---------------------------------------------------------------------------

/// The lines of `s`: the pieces between newline bytes, as `split` on `\n`
/// yields them (always at least one, empty ones kept).
pub open spec fn byte_lines(s: Seq<u8>) -> Seq<Seq<u8>>
    decreases s.len(),
{
    if s.len() == 0 {
        seq![Seq::<u8>::empty()]
    } else {
        let rest = byte_lines(s.drop_last());
        if s.last() == 10 {
            rest.push(Seq::<u8>::empty())
        } else {
            rest.update(rest.len() - 1, rest.last().push(s.last()))
        }
    }
}

proof fn lemma_byte_lines_nonempty(s: Seq<u8>)
    ensures
        byte_lines(s).len() >= 1,
    decreases s.len(),
{
    if s.len() > 0 {
        lemma_byte_lines_nonempty(s.drop_last());
    }
}

/// The contents of a list of byte vectors.
pub open spec fn byte_views(v: Seq<Vec<u8>>) -> Seq<Seq<u8>> {
    v.map_values(|x: Vec<u8>| x@)
}

/// Split the source into lines.
fn split_lines(s: &[u8]) -> (r: Vec<Vec<u8>>)
    ensures
        byte_views(r@) == byte_lines(s@),
{
    let mut out: Vec<Vec<u8>> = Vec::new();
    let mut cur: Vec<u8> = Vec::new();
    let mut i: usize = 0;
    assert(s@.take(0) =~= Seq::<u8>::empty());
    assert(byte_views(out@).push(cur@) =~= byte_lines(s@.take(0)));
    while i < s.len()
        invariant
            i <= s.len(),
            byte_views(out@).push(cur@) == byte_lines(s@.take(i as int)),
        decreases s.len() - i,
    {
        let ghost prev = s@.take(i as int);
        let ghost before = byte_views(out@);
        assert(s@.take(i + 1).drop_last() =~= prev);
        assert(s@.take(i + 1).last() == s@[i as int]);
        proof {
            lemma_byte_lines_nonempty(prev);
        }
        if s[i] == 10 {
            let old_cur = cur;
            cur = Vec::new();
            out.push(old_cur);
            assert(byte_views(out@) =~= before.push(old_cur@));
            assert(byte_views(out@).push(cur@) =~= byte_lines(s@.take(i + 1)));
        } else {
            let ghost c0 = cur@;
            cur.push(s[i]);
            assert(byte_views(out@).push(cur@) =~= before.push(c0).update(
                before.len() as int,
                c0.push(s@[i as int]),
            ));
        }
        i = i + 1;
    }
    assert(s@.take(s.len() as int) =~= s@);
    let ghost before = byte_views(out@);
    out.push(cur);
    assert(byte_views(out@) =~= before.push(cur@));
    out
}

/// Number of leading spaces and tabs.
pub open spec fn lead_blanks(s: Seq<u8>) -> nat
    decreases s.len(),
{
    if s.len() > 0 && is_blank(s[0]) {
        1 + lead_blanks(s.drop_first())
    } else {
        0
    }
}

/// The line without its leading spaces and tabs.
pub open spec fn strip_blanks(s: Seq<u8>) -> Seq<u8> {
    s.skip(lead_blanks(s) as int)
}

/// The line without its leading spaces and tabs.
fn strip_leading_spaces(line: &[u8]) -> (r: Vec<u8>)
    ensures
        r@ == strip_blanks(line@),
{
    let mut start: usize = 0;
    assert(line@.skip(0) =~= line@);
    while start < line.len() && (line[start] == 32 || line[start] == 9)
        invariant
            start <= line.len(),
            lead_blanks(line@) == start + lead_blanks(line@.skip(start as int)),
        decreases line.len() - start,
    {
        assert(line@.skip(start as int).drop_first() =~= line@.skip(start + 1));
        start = start + 1;
    }
    let mut out: Vec<u8> = Vec::new();
    let mut k: usize = start;
    while k < line.len()
        invariant
            start <= k <= line.len(),
            out@ == line@.subrange(start as int, k as int),
        decreases line.len() - k,
    {
        out.push(line[k]);
        assert(line@.subrange(start as int, k + 1) =~= line@.subrange(start as int, k as int).push(
            line@[k as int],
        ));
        k = k + 1;
    }
    assert(out@ =~= line@.skip(start as int));
    out
}

/// Whether `s` starts with `p`.
fn bytes_starts_with(s: &[u8], p: &[u8]) -> (r: bool)
    ensures
        r == bytes_prefix(s@, p@),
{
    occurs_at(s, 0, p)
}

// ---------------------------------------------------------------------------
// Definition names
// ---------------------------------------------------------------------------

/// An ASCII letter, digit or underscore.
pub open spec fn is_name_byte(b: u8) -> bool {
    (48 <= b && b <= 57) || (65 <= b && b <= 90) || (97 <= b && b <= 122) || b == 95
}

/// The first index at or after `i` that does not hold a name byte, or -1
/// when there is none.
pub open spec fn name_end(s: Seq<u8>, i: int) -> int
    decreases s.len() - i,
{
    if i < 0 || i >= s.len() {
        -1
    } else if !is_name_byte(s[i]) {
        i
    } else {
        name_end(s, i + 1)
    }
}

/// ASCII bytes as characters.
pub open spec fn ascii_chars(bs: Seq<u8>) -> Seq<char> {
    bs.map_values(|b: u8| b as char)
}

/// The name defined by a line like `class Foo(Bar):` or `def baz(x):`, after
/// a keyword prefix of `plen` bytes: the name bytes up to the first other
/// byte; none when the name is empty or runs to the end of the line.
pub open spec fn def_name(line: Seq<u8>, plen: int) -> Option<Seq<char>> {
    let rest = line.skip(plen);
    let e = name_end(rest, 0);
    if e <= 0 {
        None
    } else {
        Some(ascii_chars(rest.take(e)))
    }
}

/// Extract a class/function name from a line like `class Foo(Bar):` or
/// `def baz(x):`.
fn extract_def_name(line: &[u8], prefix: &[u8]) -> (r: Option<String>)
    requires
        prefix.len() <= line.len(),
    ensures
        match r {
            Some(s) => def_name(line@, prefix.len() as int) == Some(s@),
            None => def_name(line@, prefix.len() as int) is None,
        },
{
    let ghost rest = line@.skip(prefix.len() as int);
    let start = prefix.len();
    let mut k: usize = start;
    while k < line.len() && (
    (48 <= line[k] && line[k] <= 57) || (65 <= line[k] && line[k] <= 90) || (97 <= line[k]
        && line[k] <= 122) || line[k] == 95)
        invariant
            start <= k <= line.len(),
            rest == line@.skip(start as int),
            name_end(rest, 0) == name_end(rest, k - start),
        decreases line.len() - k,
    {
        k = k + 1;
    }
    if k == line.len() || k == start {
        return None;
    }
    let mut name = String::new();
    let mut j: usize = start;
    while j < k
        invariant
            start <= j <= k < line.len(),
            rest == line@.skip(start as int),
            name@ == ascii_chars(rest.take(j - start)),
        decreases k - j,
    {
        let b = line[j];
        name.push(b as char);
        assert(ascii_chars(rest.take(j + 1 - start)) =~= ascii_chars(rest.take(j - start)).push(
            b as char,
        ));
        j = j + 1;
    }
    Some(name)
}

// ---------------------------------------------------------------------------
// Text-level search
// ---------------------------------------------------------------------------

/// Whether `p` occurs in `s` at index `i`.
pub open spec fn chars_at(s: Seq<char>, i: int, p: Seq<char>) -> bool {
    0 <= i && i + p.len() <= s.len() && s.subrange(i, i + p.len()) == p
}

/// The first index at or after `i` where `p` occurs in `s`, or -1.
pub open spec fn first_occ(s: Seq<char>, p: Seq<char>, i: int) -> int
    decreases s.len() + 1 - i,
{
    if i < 0 || i + p.len() > s.len() {
        -1
    } else if chars_at(s, i, p) {
        i
    } else {
        first_occ(s, p, i + 1)
    }
}

/// Whether `p` occurs in `s` at index `i`.
fn chars_occur_at(s: &[char], i: usize, p: &[char]) -> (r: bool)
    ensures
        r == chars_at(s@, i as int, p@),
{
    if i > s.len() || p.len() > s.len() - i {
        return false;
    }
    let mut k: usize = 0;
    while k < p.len()
        invariant
            i + p.len() <= s.len(),
            k <= p.len(),
            forall|j: int| 0 <= j < k ==> s@[i + j] == p@[j],
        decreases p.len() - k,
    {
        if s[i + k] != p[k] {
            assert(s@.subrange(i as int, i + p.len())[k as int] != p@[k as int]);
            return false;
        }
        k = k + 1;
    }
    assert(s@.subrange(i as int, i + p.len()) =~= p@);
    true
}

/// The first index where `p` occurs in `s`, as `str::find` gives it.
fn find_text(s: &[char], p: &[char]) -> (r: Option<usize>)
    ensures
        match r {
            Some(k) => k as int == first_occ(s@, p@, 0) && k + p.len() <= s.len(),
            None => first_occ(s@, p@, 0) == -1,
        },
{
    if p.len() == 0 {
        assert(s@.subrange(0, 0) =~= p@);
        return Some(0);
    }
    let mut i: usize = 0;
    while i <= s.len() && p.len() <= s.len() - i
        invariant
            p.len() > 0,
            first_occ(s@, p@, 0) == first_occ(s@, p@, i as int),
        decreases s.len() + 1 - i,
    {
        if chars_occur_at(s, i, p) {
            return Some(i);
        }
        i = i + 1;
    }
    None
}

/// `(`, `)` and `\`, the marks stripped from the end of an imported name.
pub open spec fn is_end_mark(c: char) -> bool {
    c == '(' || c == ')' || c == '\\'
}

/// `s` without trailing end marks.
pub open spec fn strip_end_marks(s: Seq<char>) -> Seq<char>
    decreases s.len(),
{
    if s.len() > 0 && is_end_mark(s.last()) {
        strip_end_marks(s.drop_last())
    } else {
        s
    }
}

fn strip_trailing_marks(s: &[char]) -> (r: Vec<char>)
    ensures
        r@ == strip_end_marks(s@),
{
    let mut end: usize = s.len();
    assert(s@.take(end as int) =~= s@);
    while end > 0 && (s[end - 1] == '(' || s[end - 1] == ')' || s[end - 1] == '\\')
        invariant
            end <= s.len(),
            strip_end_marks(s@) == strip_end_marks(s@.take(end as int)),
        decreases end,
    {
        assert(s@.take(end as int).drop_last() =~= s@.take(end - 1));
        end = end - 1;
    }
    let r = slice_chars(s, 0, end);
    assert(r@ =~= s@.take(end as int));
    r
}

/// Whether a character may stand in a Python name as `char::is_alphanumeric`
/// decides it: a letter or a digit in the Unicode sense.
pub uninterp spec fn unicode_alphanumeric(c: char) -> bool;

/// Calls `char::is_alphanumeric`.  Trusted: the result is what std computes
/// from the Unicode tables, named by [`unicode_alphanumeric`].
#[verifier::external_body]
fn is_alphanumeric(c: char) -> (r: bool)
    ensures
        r == unicode_alphanumeric(c),
{
    c.is_alphanumeric()
}

/// A character of an imported name (with `dots`, of a dotted path).
pub open spec fn name_char(c: char, dots: bool) -> bool {
    unicode_alphanumeric(c) || c == '_' || (dots && c == '.')
}

pub open spec fn all_name_chars(s: Seq<char>, dots: bool) -> bool {
    forall|k: int| 0 <= k < s.len() ==> name_char(#[trigger] s[k], dots)
}

fn all_name(s: &[char], dots: bool) -> (r: bool)
    ensures
        r == all_name_chars(s@, dots),
{
    let mut i: usize = 0;
    while i < s.len()
        invariant
            i <= s.len(),
            forall|k: int| 0 <= k < i ==> name_char(#[trigger] s@[k], dots),
        decreases s.len() - i,
    {
        let c = s[i];
        if !(is_alphanumeric(c) || c == '_' || (dots && c == '.')) {
            assert(!name_char(s@[i as int], dots));
            return false;
        }
        i = i + 1;
    }
    true
}

// ---------------------------------------------------------------------------
// What a scan records
// ---------------------------------------------------------------------------

/// The part of a module that scanning fills: the definitions by name and
/// kind, the imports, and the sources of `from X import *`.
pub struct ScanV {
    pub defs: Seq<(Seq<char>, SymbolKind)>,
    pub imports: Seq<ImportV>,
    pub wildcards: Seq<Seq<char>>,
}

pub open spec fn empty_scan() -> ScanV {
    ScanV { defs: Seq::empty(), imports: Seq::empty(), wildcards: Seq::empty() }
}

/// The definitions of a module by name and kind.
pub open spec fn defs_brief(ds: Seq<Symbol>) -> Seq<(Seq<char>, SymbolKind)> {
    ds.map_values(|s: Symbol| (s.name@, s.kind))
}

/// Definitions with no members, no bases and no location, as scanning
/// records them.
pub open spec fn bare_defs(ds: Seq<Symbol>) -> bool {
    forall|k: int|
        0 <= k < ds.len() ==> (#[trigger] ds[k]).members@.len() == 0 && ds[k].bases@.len() == 0
            && ds[k].location is None
}

/// What a module holds, seen as a scan result.
pub open spec fn scan_view(m: Module) -> ScanV {
    ScanV {
        defs: defs_brief(m.definitions@),
        imports: imports_view(m.imports@),
        wildcards: string_views(m.wildcard_imports@),
    }
}

/// The fields of a module that scanning leaves alone.
pub open spec fn same_frame(a: Module, b: Module) -> bool {
    a.path == b.path && a.file_path == b.file_path && a.is_package == b.is_package && a.all
        == b.all && a.docstrings == b.docstrings
}

pub open spec fn add_import(st: ScanV, imp: ImportV) -> ScanV {
    ScanV { defs: st.defs, imports: st.imports.push(imp), wildcards: st.wildcards }
}

pub open spec fn add_wildcard(st: ScanV, source: Seq<char>) -> ScanV {
    ScanV { defs: st.defs, imports: st.imports, wildcards: st.wildcards.push(source) }
}

/// Index of the first definition named `name`, or -1.
pub open spec fn def_pos(defs: Seq<(Seq<char>, SymbolKind)>, name: Seq<char>) -> int
    decreases defs.len(),
{
    if defs.len() == 0 {
        -1
    } else if defs[0].0 == name {
        0
    } else {
        let p = def_pos(defs.drop_first(), name);
        if p < 0 {
            -1
        } else {
            p + 1
        }
    }
}

/// The definition put in place of the first one of the same name, or
/// appended.
pub open spec fn with_def(st: ScanV, name: Seq<char>, kind: SymbolKind) -> ScanV {
    let p = def_pos(st.defs, name);
    ScanV {
        defs: if p >= 0 {
            st.defs.update(p, (name, kind))
        } else {
            st.defs.push((name, kind))
        },
        imports: st.imports,
        wildcards: st.wildcards,
    }
}

proof fn lemma_def_pos(ds: Seq<Symbol>, name: Seq<char>)
    ensures
        sym_pos(ds, name) == def_pos(defs_brief(ds), name),
    decreases ds.len(),
{
    if ds.len() > 0 {
        assert(defs_brief(ds).drop_first() =~= defs_brief(ds.drop_first()));
        lemma_def_pos(ds.drop_first(), name);
    }
}

proof fn lemma_insert_brief(ds: Seq<Symbol>, s: Symbol)
    requires
        bare_defs(ds),
        s.members@.len() == 0,
        s.bases@.len() == 0,
        s.location is None,
    ensures
        defs_brief(insert_symbol(ds, s)) == with_def(
            ScanV { defs: defs_brief(ds), imports: Seq::empty(), wildcards: Seq::empty() },
            s.name@,
            s.kind,
        ).defs,
        bare_defs(insert_symbol(ds, s)),
{
    lemma_def_pos(ds, s.name@);
    crate::graph::lemma_sym_pos(ds, s.name@);
    let p = sym_pos(ds, s.name@);
    if p >= 0 {
        assert(defs_brief(ds.update(p, s)) =~= defs_brief(ds).update(p, (s.name@, s.kind)));
    } else {
        assert(defs_brief(ds.push(s)) =~= defs_brief(ds).push((s.name@, s.kind)));
    }
}

// ---------------------------------------------------------------------------
// Import statements: specification
// ---------------------------------------------------------------------------

pub open spec fn as_kw() -> Seq<char> {
    seq![' ', 'a', 's', ' ']
}

pub open spec fn from_kw() -> Seq<char> {
    seq!['f', 'r', 'o', 'm', ' ']
}

pub open spec fn import_kw() -> Seq<char> {
    seq!['i', 'm', 'p', 'o', 'r', 't', ' ']
}

pub open spec fn import_sep() -> Seq<char> {
    seq![' ', 'i', 'm', 'p', 'o', 'r', 't', ' ']
}

/// A trimmed comma-separated part that ends the list: empty, or a comment.
pub open spec fn stops(p: Seq<char>) -> bool {
    p.len() == 0 || p[0] == '#'
}

/// One name of `from <source> import ...`: `name`, `name as alias`, or `*`.
/// Names that are not plain identifiers are skipped.
pub open spec fn from_part(st: ScanV, part: Seq<char>, source: Seq<char>) -> ScanV {
    let q = trim_seq(strip_end_marks(part));
    let k = first_occ(q, as_kw(), 0);
    if q.len() == 0 {
        st
    } else if k >= 0 {
        add_import(
            st,
            ImportV {
                source,
                name: trim_seq(q.take(k)),
                alias: Some(trim_seq(q.skip(k + 4))),
            },
        )
    } else if q == seq!['*'] {
        add_wildcard(st, source)
    } else if all_name_chars(q, false) {
        add_import(st, ImportV { source, name: q, alias: None })
    } else {
        st
    }
}

/// The comma-separated parts from index `i` on, up to the first that stops
/// the list.
pub open spec fn from_parts(st: ScanV, parts: Seq<Seq<char>>, source: Seq<char>, i: int) -> ScanV
    decreases parts.len() - i,
{
    if i < 0 || i >= parts.len() {
        st
    } else {
        let p = trim_seq(parts[i]);
        if stops(p) {
            st
        } else {
            from_parts(from_part(st, p, source), parts, source, i + 1)
        }
    }
}

/// `from <source> import <names>` on one line; a relative source is
/// resolved against the module's own path.
pub open spec fn scan_from_text(st: ScanV, line: Seq<char>, path: Seq<char>, is_package: bool) -> ScanV {
    if !has_prefix(line, from_kw()) {
        st
    } else {
        let rest = line.skip(5);
        let k = first_occ(rest, import_sep(), 0);
        if k < 0 {
            st
        } else {
            let raw = trim_seq(rest.take(k));
            let source = if raw.len() > 0 && raw[0] == '.' {
                relative_import_target(path, raw, is_package)
            } else {
                raw
            };
            from_parts(st, split_seq(rest.skip(k + 8), ','), source, 0)
        }
    }
}

/// The import that `import a.b.c` (with an optional alias) records: source
/// `a.b`, name `c`.
pub open spec fn dotted_import(d: Seq<char>, alias: Option<Seq<char>>) -> ImportV {
    let pieces = split_seq(d, '.');
    ImportV { source: join_seq(pieces.drop_last(), '.'), name: pieces.last(), alias }
}

/// One module of `import ...`: `a.b.c` or `a.b.c as alias`.
pub open spec fn import_part(st: ScanV, p: Seq<char>) -> ScanV {
    let k = first_occ(p, as_kw(), 0);
    if k >= 0 {
        add_import(st, dotted_import(trim_seq(p.take(k)), Some(trim_seq(p.skip(k + 4)))))
    } else if all_name_chars(p, true) {
        add_import(st, dotted_import(p, None))
    } else {
        st
    }
}

pub open spec fn import_parts(st: ScanV, parts: Seq<Seq<char>>, i: int) -> ScanV
    decreases parts.len() - i,
{
    if i < 0 || i >= parts.len() {
        st
    } else {
        let p = trim_seq(parts[i]);
        if stops(p) {
            st
        } else {
            import_parts(import_part(st, p), parts, i + 1)
        }
    }
}

/// `import <modules>` on one line.
pub open spec fn scan_import_text(st: ScanV, line: Seq<char>) -> ScanV {
    if !has_prefix(line, import_kw()) {
        st
    } else {
        import_parts(st, split_seq(line.skip(7), ','), 0)
    }
}

// ---------------------------------------------------------------------------
// Import statements: implementation
// ---------------------------------------------------------------------------

fn push_import(module: &mut Module, source: &[char], name: &[char], alias: Option<&[char]>)
    ensures
        scan_view(*final(module)) == add_import(
            scan_view(*old(module)),
            ImportV {
                source: source@,
                name: name@,
                alias: match alias {
                    Some(a) => Some(a@),
                    None => None,
                },
            },
        ),
        same_frame(*final(module), *old(module)),
        final(module).definitions == old(module).definitions,
{
    let imp = Import {
        source: string_of(source),
        name: string_of(name),
        alias: match alias {
            Some(a) => Some(string_of(a)),
            None => None,
        },
    };
    let ghost before = imports_view(module.imports@);
    module.imports.push(imp);
    assert(imports_view(module.imports@) =~= before.push(import_view(imp)));
}

fn push_wildcard(module: &mut Module, source: &[char])
    ensures
        scan_view(*final(module)) == add_wildcard(scan_view(*old(module)), source@),
        same_frame(*final(module), *old(module)),
        final(module).definitions == old(module).definitions,
{
    let ghost before = string_views(module.wildcard_imports@);
    module.wildcard_imports.push(string_of(source));
    assert(string_views(module.wildcard_imports@) =~= before.push(source@));
}

/// Record one name of a `from` import.
fn scan_from_part(module: &mut Module, part: &[char], source: &[char])
    ensures
        scan_view(*final(module)) == from_part(scan_view(*old(module)), part@, source@),
        same_frame(*final(module), *old(module)),
        final(module).definitions == old(module).definitions,
{
    let stripped = strip_trailing_marks(part);
    let q = trim_chars(stripped.as_slice());
    if q.len() == 0 {
        return;
    }
    let as_kw_chars = [' ', 'a', 's', ' '];
    assert(as_kw_chars@ =~= as_kw());
    match find_text(q.as_slice(), as_kw_chars.as_slice()) {
        Some(k) => {
            let before = slice_chars(q.as_slice(), 0, k);
            let after = slice_chars(q.as_slice(), k + 4, q.len());
            assert(before@ =~= q@.take(k as int));
            assert(after@ =~= q@.skip(k + 4));
            let name = trim_chars(before.as_slice());
            let alias = trim_chars(after.as_slice());
            push_import(module, source, name.as_slice(), Some(alias.as_slice()));
        },
        None => {
            if q.len() == 1 && q[0] == '*' {
                assert(q@ =~= seq!['*']);
                push_wildcard(module, source);
            } else {
                assert(q@ != seq!['*']);
                if all_name(q.as_slice(), false) {
                    push_import(module, source, q.as_slice(), None);
                }
            }
        },
    }
}

/// Parse `from <module> import <name1>, <name2>` (single line only).
fn scan_from_import(line: &[u8], module: &mut Module)
    ensures
        scan_view(*final(module)) == (if vstd::utf8::valid_utf8(line@) {
            scan_from_text(
                scan_view(*old(module)),
                vstd::utf8::decode_utf8(line@),
                old(module).path@,
                old(module).is_package,
            )
        } else {
            scan_view(*old(module))
        }),
        same_frame(*final(module), *old(module)),
        final(module).definitions == old(module).definitions,
{
    let text = match utf8_text(line) {
        None => {
            return;
        },
        Some(t) => t,
    };
    proof {
        vstd::utf8::decode_utf8_encode_utf8(line@);
        vstd::utf8::encode_utf8_decode_utf8(text@);
    }
    let l = chars_of(text);
    assert(l@ == vstd::utf8::decode_utf8(line@));
    let kw = ['f', 'r', 'o', 'm', ' '];
    assert(kw@ =~= from_kw());
    if !starts_with(l.as_slice(), kw.as_slice()) {
        return;
    }
    let rest = slice_chars(l.as_slice(), 5, l.len());
    assert(rest@ =~= l@.skip(5));
    let sep = [' ', 'i', 'm', 'p', 'o', 'r', 't', ' '];
    assert(sep@ =~= import_sep());
    let k = match find_text(rest.as_slice(), sep.as_slice()) {
        None => {
            return;
        },
        Some(k) => k,
    };
    let head = slice_chars(rest.as_slice(), 0, k);
    assert(head@ =~= rest@.take(k as int));
    let raw = trim_chars(head.as_slice());
    let source: Vec<char> = if raw.len() > 0 && raw[0] == '.' {
        let raw_str = string_of(raw.as_slice());
        let path_chars = chars_of(module.path.as_str());
        let path_str = string_of(path_chars.as_slice());
        assert(raw_str@ == raw@);
        assert(crate::util::leading_dots(raw@) >= 1);
        let resolved = resolve_relative_import(path_str.as_str(), raw_str.as_str(), module.is_package);
        chars_of(resolved.as_str())
    } else {
        raw
    };
    let names = slice_chars(rest.as_slice(), k + 8, rest.len());
    assert(names@ =~= rest@.skip(k + 8));
    let parts = split_chars(names.as_slice(), ',');
    let ghost pv = seq_views(parts@);
    let ghost orig = *module;
    let ghost target = from_parts(scan_view(*module), pv, source@, 0);
    let mut i: usize = 0;
    while i < parts.len()
        invariant
            pv == seq_views(parts@),
            i <= parts.len(),
            from_parts(scan_view(*module), pv, source@, i as int) == target,
            same_frame(*module, orig),
            module.definitions == orig.definitions,
        ensures
            scan_view(*module) == target,
            same_frame(*module, orig),
            module.definitions == orig.definitions,
        decreases parts.len() - i,
    {
        let p = trim_chars(parts[i].as_slice());
        assert(pv[i as int] == parts@[i as int]@);
        if p.len() == 0 || p[0] == '#' {
            break;
        }
        scan_from_part(module, p.as_slice(), source.as_slice());
        i = i + 1;
    }
}

/// Record one module of an `import` statement.
fn scan_import_part(module: &mut Module, p: &[char])
    ensures
        scan_view(*final(module)) == import_part(scan_view(*old(module)), p@),
        same_frame(*final(module), *old(module)),
        final(module).definitions == old(module).definitions,
{
    let as_kw_chars = [' ', 'a', 's', ' '];
    assert(as_kw_chars@ =~= as_kw());
    let (dotted, alias) = match find_text(p, as_kw_chars.as_slice()) {
        Some(k) => {
            let before = slice_chars(p, 0, k);
            let after = slice_chars(p, k + 4, p.len());
            assert(before@ =~= p@.take(k as int));
            assert(after@ =~= p@.skip(k + 4));
            (trim_chars(before.as_slice()), Some(trim_chars(after.as_slice())))
        },
        None => {
            if !all_name(p, true) {
                return;
            }
            (slice_chars(p, 0, p.len()), None)
        },
    };
    assert(p@.subrange(0, p@.len() as int) =~= p@);
    let pieces = split_chars(dotted.as_slice(), '.');
    proof {
        lemma_split_nonempty(dotted@, '.');
    }
    let last = pieces.len() - 1;
    let source = join_range(&pieces, 0, last, '.');
    assert(seq_views(pieces@).subrange(0, last as int) =~= seq_views(pieces@).drop_last());
    assert(seq_views(pieces@).last() == pieces@[last as int]@);
    match alias {
        Some(a) => push_import(module, source.as_slice(), pieces[last].as_slice(), Some(a.as_slice())),
        None => push_import(module, source.as_slice(), pieces[last].as_slice(), None),
    }
}

/// Parse `import <module>` (single line only).
fn scan_import(line: &[u8], module: &mut Module)
    ensures
        scan_view(*final(module)) == (if vstd::utf8::valid_utf8(line@) {
            scan_import_text(scan_view(*old(module)), vstd::utf8::decode_utf8(line@))
        } else {
            scan_view(*old(module))
        }),
        same_frame(*final(module), *old(module)),
        final(module).definitions == old(module).definitions,
{
    let text = match utf8_text(line) {
        None => {
            return;
        },
        Some(t) => t,
    };
    proof {
        vstd::utf8::decode_utf8_encode_utf8(line@);
        vstd::utf8::encode_utf8_decode_utf8(text@);
    }
    let l = chars_of(text);
    assert(l@ == vstd::utf8::decode_utf8(line@));
    let kw = ['i', 'm', 'p', 'o', 'r', 't', ' '];
    assert(kw@ =~= import_kw());
    if !starts_with(l.as_slice(), kw.as_slice()) {
        return;
    }
    let rest = slice_chars(l.as_slice(), 7, l.len());
    assert(rest@ =~= l@.skip(7));
    let parts = split_chars(rest.as_slice(), ',');
    let ghost pv = seq_views(parts@);
    let ghost orig = *module;
    let ghost target = import_parts(scan_view(*module), pv, 0);
    let mut i: usize = 0;
    while i < parts.len()
        invariant
            pv == seq_views(parts@),
            i <= parts.len(),
            import_parts(scan_view(*module), pv, i as int) == target,
            same_frame(*module, orig),
            module.definitions == orig.definitions,
        ensures
            scan_view(*module) == target,
            same_frame(*module, orig),
            module.definitions == orig.definitions,
        decreases parts.len() - i,
    {
        let p = trim_chars(parts[i].as_slice());
        assert(pv[i as int] == parts@[i as int]@);
        if p.len() == 0 || p[0] == '#' {
            break;
        }
        scan_import_part(module, p.as_slice());
        i = i + 1;
    }
}

// ---------------------------------------------------------------------------
// Lines and the whole file
// ---------------------------------------------------------------------------

pub open spec fn kw_from() -> Seq<u8> {
    seq![102u8, 114, 111, 109, 32]
}

pub open spec fn kw_import() -> Seq<u8> {
    seq![105u8, 109, 112, 111, 114, 116, 32]
}

pub open spec fn kw_class() -> Seq<u8> {
    seq![99u8, 108, 97, 115, 115, 32]
}

pub open spec fn kw_def() -> Seq<u8> {
    seq![100u8, 101, 102, 32]
}

pub open spec fn kw_async_def() -> Seq<u8> {
    seq![97u8, 115, 121, 110, 99, 32, 100, 101, 102, 32]
}

/// A definition recorded when the name is there.
pub open spec fn with_def_opt(st: ScanV, name: Option<Seq<char>>, kind: SymbolKind) -> ScanV {
    match name {
        Some(n) => with_def(st, n, kind),
        None => st,
    }
}

/// One line of source.  Only unindented (top-level) statements count;
/// blank lines and comments are skipped; an import line that is not UTF-8
/// is skipped.
pub open spec fn scan_line(st: ScanV, line: Seq<u8>, path: Seq<char>, is_package: bool) -> ScanV {
    let t = strip_blanks(line);
    if t.len() == 0 || t[0] == 35 {
        st
    } else if line.len() > 0 && is_blank(line[0]) {
        st
    } else if bytes_prefix(t, kw_from()) {
        if vstd::utf8::valid_utf8(t) {
            scan_from_text(st, vstd::utf8::decode_utf8(t), path, is_package)
        } else {
            st
        }
    } else if bytes_prefix(t, kw_import()) {
        if vstd::utf8::valid_utf8(t) {
            scan_import_text(st, vstd::utf8::decode_utf8(t))
        } else {
            st
        }
    } else if bytes_prefix(t, kw_class()) {
        with_def_opt(st, def_name(t, 6), SymbolKind::Class)
    } else if bytes_prefix(t, kw_def()) {
        with_def_opt(st, def_name(t, 4), SymbolKind::Function)
    } else if bytes_prefix(t, kw_async_def()) {
        with_def_opt(st, def_name(t, 10), SymbolKind::Function)
    } else {
        st
    }
}

/// The first `n` lines, scanned in order.
pub open spec fn scan_lines(lines: Seq<Seq<u8>>, n: int, path: Seq<char>, is_package: bool) -> ScanV
    decreases n,
{
    if n <= 0 || n > lines.len() {
        empty_scan()
    } else {
        scan_line(scan_lines(lines, n - 1, path, is_package), lines[n - 1], path, is_package)
    }
}

/// What the fast scan of a whole file records.
pub open spec fn spec_fast_scan(source: Seq<u8>, path: Seq<char>, is_package: bool) -> ScanV {
    let lines = byte_lines(source);
    scan_lines(lines, lines.len() as int, path, is_package)
}

/// Record a definition found on a line.
fn record_def(module: &mut Module, name: Option<String>, kind: SymbolKind)
    requires
        bare_defs(old(module).definitions@),
    ensures
        scan_view(*final(module)) == with_def_opt(
            scan_view(*old(module)),
            match name {
                Some(n) => Some(n@),
                None => None,
            },
            kind,
        ),
        same_frame(*final(module), *old(module)),
        bare_defs(final(module).definitions@),
{
    if let Some(n) = name {
        let sym = Symbol::new(n, kind);
        proof {
            lemma_insert_brief(module.definitions@, sym);
        }
        put_symbol(&mut module.definitions, sym);
    }
}

/// Scan one line.
fn scan_one_line(line: &[u8], module: &mut Module)
    requires
        bare_defs(old(module).definitions@),
    ensures
        scan_view(*final(module)) == scan_line(
            scan_view(*old(module)),
            line@,
            old(module).path@,
            old(module).is_package,
        ),
        same_frame(*final(module), *old(module)),
        bare_defs(final(module).definitions@),
{
    let trimmed = strip_leading_spaces(line);
    if trimmed.len() == 0 || trimmed[0] == 35 {
        return;
    }
    if line.len() > 0 && (line[0] == 32 || line[0] == 9) {
        return;
    }
    let kw_f: [u8; 5] = [102, 114, 111, 109, 32];
    let kw_i: [u8; 7] = [105, 109, 112, 111, 114, 116, 32];
    let kw_c: [u8; 6] = [99, 108, 97, 115, 115, 32];
    let kw_d: [u8; 4] = [100, 101, 102, 32];
    let kw_a: [u8; 10] = [97, 115, 121, 110, 99, 32, 100, 101, 102, 32];
    assert(kw_f@ =~= kw_from());
    assert(kw_i@ =~= kw_import());
    assert(kw_c@ =~= kw_class());
    assert(kw_d@ =~= kw_def());
    assert(kw_a@ =~= kw_async_def());
    if bytes_starts_with(trimmed.as_slice(), kw_f.as_slice()) {
        scan_from_import(trimmed.as_slice(), module);
    } else if bytes_starts_with(trimmed.as_slice(), kw_i.as_slice()) {
        scan_import(trimmed.as_slice(), module);
    } else if bytes_starts_with(trimmed.as_slice(), kw_c.as_slice()) {
        let name = extract_def_name(trimmed.as_slice(), kw_c.as_slice());
        record_def(module, name, SymbolKind::Class);
    } else if bytes_starts_with(trimmed.as_slice(), kw_d.as_slice()) {
        let name = extract_def_name(trimmed.as_slice(), kw_d.as_slice());
        record_def(module, name, SymbolKind::Function);
    } else if bytes_starts_with(trimmed.as_slice(), kw_a.as_slice()) {
        let name = extract_def_name(trimmed.as_slice(), kw_a.as_slice());
        record_def(module, name, SymbolKind::Function);
    }
}

/// Fast-scan a Python file to extract imports and top-level definitions.
/// Does NOT extract docstrings, class members, bases, or attributes.
pub fn fast_scan(source: &[u8], file_path: &str, dotted_path: &str) -> (m: Module)
    ensures
        m.path@ == dotted_path@,
        m.file_path@ == file_path@,
        m.is_package == is_init_file(file_path@),
        m.all is None,
        m.docstrings@.len() == 0,
        bare_defs(m.definitions@),
        scan_view(m) == spec_fast_scan(source@, dotted_path@, is_init_file(file_path@)),
{
    let is_package = is_package_file(file_path);
    let path_chars = chars_of(dotted_path);
    let file_chars = chars_of(file_path);
    let mut module = Module {
        path: string_of(path_chars.as_slice()),
        file_path: string_of(file_chars.as_slice()),
        is_package,
        definitions: Vec::new(),
        imports: Vec::new(),
        wildcard_imports: Vec::new(),
        all: None,
        docstrings: Vec::new(),
    };
    let lines = split_lines(source);
    let ghost lv = byte_views(lines@);
    assert(defs_brief(module.definitions@) =~= Seq::empty());
    assert(imports_view(module.imports@) =~= Seq::empty());
    assert(string_views(module.wildcard_imports@) =~= Seq::empty());
    let mut i: usize = 0;
    while i < lines.len()
        invariant
            lv == byte_views(lines@),
            lv == byte_lines(source@),
            i <= lines.len(),
            module.path@ == dotted_path@,
            module.file_path@ == file_path@,
            module.is_package == is_init_file(file_path@),
            module.all is None,
            module.docstrings@.len() == 0,
            bare_defs(module.definitions@),
            scan_view(module) == scan_lines(lv, i as int, dotted_path@, is_init_file(file_path@)),
        decreases lines.len() - i,
    {
        assert(lv[i as int] == lines@[i as int]@);
        scan_one_line(lines[i].as_slice(), &mut module);
        i = i + 1;
    }
    module
}

// ---------------------------------------------------------------------------
// Laws of the scan
// ---------------------------------------------------------------------------

/// No two recorded definitions share a name.
pub open spec fn scan_names_unique(defs: Seq<(Seq<char>, SymbolKind)>) -> bool {
    forall|i: int, j: int| 0 <= i < j < defs.len() ==> (#[trigger] defs[i]).0 != (#[trigger] defs[j]).0
}

proof fn lemma_def_pos_props(defs: Seq<(Seq<char>, SymbolKind)>, name: Seq<char>)
    ensures
        -1 <= def_pos(defs, name) < defs.len(),
        def_pos(defs, name) >= 0 ==> defs[def_pos(defs, name)].0 == name,
        forall|j: int|
            0 <= j < defs.len() && (def_pos(defs, name) < 0 || j < def_pos(defs, name))
                ==> (#[trigger] defs[j]).0 != name,
    decreases defs.len(),
{
    if defs.len() > 0 {
        lemma_def_pos_props(defs.drop_first(), name);
        assert forall|j: int|
            0 <= j < defs.len() && (def_pos(defs, name) < 0 || j < def_pos(defs, name))
                implies (#[trigger] defs[j]).0 != name by {
            if j > 0 {
                assert(defs[j] == defs.drop_first()[j - 1]);
            }
        }
    }
}

proof fn lemma_with_def_unique(st: ScanV, name: Seq<char>, kind: SymbolKind)
    requires
        scan_names_unique(st.defs),
    ensures
        scan_names_unique(with_def(st, name, kind).defs),
{
    lemma_def_pos_props(st.defs, name);
    let p = def_pos(st.defs, name);
    let d = st.defs;
    let r = with_def(st, name, kind).defs;
    assert forall|i: int, j: int| 0 <= i < j < r.len() implies (#[trigger] r[i]).0 != (#[trigger] r[j]).0 by {
        if p >= 0 {
            if i != p && j != p {
                assert(r[i] == d[i] && r[j] == d[j]);
            } else if i == p {
                assert(r[j] == d[j]);
                assert(d[p].0 == name);
            } else {
                assert(r[i] == d[i]);
                assert(d[p].0 == name);
            }
        } else if j < d.len() {
            assert(r[i] == d[i] && r[j] == d[j]);
        } else {
            assert(r[i] == d[i]);
        }
    }
}

proof fn lemma_from_parts_defs(st: ScanV, parts: Seq<Seq<char>>, source: Seq<char>, i: int)
    ensures
        from_parts(st, parts, source, i).defs == st.defs,
    decreases parts.len() - i,
{
    if 0 <= i < parts.len() && !stops(trim_seq(parts[i])) {
        lemma_from_parts_defs(from_part(st, trim_seq(parts[i]), source), parts, source, i + 1);
    }
}

proof fn lemma_import_parts_defs(st: ScanV, parts: Seq<Seq<char>>, i: int)
    ensures
        import_parts(st, parts, i).defs == st.defs,
    decreases parts.len() - i,
{
    if 0 <= i < parts.len() && !stops(trim_seq(parts[i])) {
        lemma_import_parts_defs(import_part(st, trim_seq(parts[i])), parts, i + 1);
    }
}

proof fn lemma_scan_line_unique(st: ScanV, line: Seq<u8>, path: Seq<char>, is_package: bool)
    requires
        scan_names_unique(st.defs),
    ensures
        scan_names_unique(scan_line(st, line, path, is_package).defs),
{
    let t = strip_blanks(line);
    if vstd::utf8::valid_utf8(t) {
        let text = vstd::utf8::decode_utf8(t);
        if has_prefix(text, from_kw()) {
            let rest = text.skip(5);
            let k = first_occ(rest, import_sep(), 0);
            if k >= 0 {
                let raw = trim_seq(rest.take(k));
                let source = if raw.len() > 0 && raw[0] == '.' {
                    relative_import_target(path, raw, is_package)
                } else {
                    raw
                };
                lemma_from_parts_defs(st, split_seq(rest.skip(k + 8), ','), source, 0);
            }
        }
        if has_prefix(text, import_kw()) {
            lemma_import_parts_defs(st, split_seq(text.skip(7), ','), 0);
        }
    }
    match def_name(t, 6) {
        Some(n) => lemma_with_def_unique(st, n, SymbolKind::Class),
        None => {},
    }
    match def_name(t, 4) {
        Some(n) => lemma_with_def_unique(st, n, SymbolKind::Function),
        None => {},
    }
    match def_name(t, 10) {
        Some(n) => lemma_with_def_unique(st, n, SymbolKind::Function),
        None => {},
    }
}

proof fn lemma_scan_lines_unique(lines: Seq<Seq<u8>>, n: int, path: Seq<char>, is_package: bool)
    ensures
        scan_names_unique(scan_lines(lines, n, path, is_package).defs),
    decreases n,
{
    if 0 < n <= lines.len() {
        lemma_scan_lines_unique(lines, n - 1, path, is_package);
        lemma_scan_line_unique(scan_lines(lines, n - 1, path, is_package), lines[n - 1], path, is_package);
    }
}

/// The fast scan records each top-level name once: a later definition of
/// a name replaces the earlier one.
pub proof fn law_fast_scan_names_unique(source: Seq<u8>, path: Seq<char>, is_package: bool)
    ensures
        scan_names_unique(spec_fast_scan(source, path, is_package).defs),
{
    let lines = byte_lines(source);
    lemma_scan_lines_unique(lines, lines.len() as int, path, is_package);
}

} // verus!
