//! Extract cross-references from docstring content.
//!
//! Supports MkDocs/mkdocstrings Markdown syntax, Sphinx RST roles, and the
//! Rust-style `[Symbol]` intra-doc links.  Matching is done by the `regex`
//! crate; what is kept of each match is decided here.
use vstd::prelude::*;
use crate::config::DocStyle;
use crate::patterns::{
    is_fq, is_fully_qualified_chars, should_skip_rust_style, skips_rust_style, MKDOCS_AUTOREF,
    MKDOCS_EXPLICIT, RUST_STYLE, SPHINX_XREF,
};
use crate::text::{chars_of, has_prefix, string_of, trim_chars, trim_seq};
use vstd::string::StringSliceAdditionalSpecFns;

verus! {

/// Whether a reference is fully qualified or a short name needing expansion.
#[derive(Debug, Clone, Copy, PartialEq, Eq, Structural)]
pub enum ReferenceKind {
    /// A dotted path like `pkg.models.User`: resolve directly.
    FullyQualified,
    /// A short name like `User`: expand via imports/definitions first.
    ShortName,
}

/// A cross-reference found in a docstring.
#[derive(Debug)]
pub struct Reference {
    /// The dotted path being referenced (e.g. `my_pkg.foo.Bar`).
    pub target: String,
    /// Byte offset within the docstring where the referenced path starts.
    pub offset: usize,
    /// Whether this is a fully-qualified path or a short name.
    pub kind: ReferenceKind,
}

/// The plain contents of a reference.
pub struct RefV {
    pub target: Seq<char>,
    pub offset: usize,
    pub kind: ReferenceKind,
}

pub open spec fn ref_view(r: Reference) -> RefV {
    RefV { target: r.target@, offset: r.offset, kind: r.kind }
}

pub open spec fn refs_view(rs: Seq<Reference>) -> Seq<RefV> {
    rs.map_values(|r: Reference| ref_view(r))
}

// ---------------------------------------------------------------------------
// Matching (regex crate)
// ---------------------------------------------------------------------------

/// One match: the byte span of the whole match and of one capture group.
pub type CaptureSpan = (usize, usize, Option<(usize, usize)>);

/// The successive non-overlapping matches of the regular expression
/// `pattern` in `haystack`, as `regex::Regex::captures_iter` yields them:
/// the byte span of each whole match and of capture group `group`;
/// `None` when `pattern` is not a valid regular expression.
pub uninterp spec fn regex_captures(pattern: Seq<char>, group: usize, haystack: Seq<char>) -> Option<Seq<CaptureSpan>>;

/// Calls `regex::Regex::new(pattern)` and, when the pattern compiles,
/// `captures_iter(haystack)`, recording for each match the byte offsets of
/// the whole match (`get_match`) and of capture group `group` (`get`).
/// Trusted: the result is whatever the `regex` crate computes, named by
/// [`regex_captures`]; nothing more is claimed of it.
#[verifier::external_body]
fn captures(pattern: &str, group: usize, haystack: &str) -> (r: Option<Vec<CaptureSpan>>)
    ensures
        match r {
            Some(v) => regex_captures(pattern@, group, haystack@) == Some(v@),
            None => regex_captures(pattern@, group, haystack@) is None,
        },
{
    let re = regex::Regex::new(pattern).ok()?;
    Some(
        re.captures_iter(haystack).map(
            |c| (c.get_match().start(), c.get_match().end(), c.get(group).map(|m| (m.start(), m.end()))),
        ).collect(),
    )
}

/// The matches, or none when the pattern does not compile.
pub open spec fn spans(pattern: Seq<char>, group: usize, haystack: Seq<char>) -> Seq<CaptureSpan> {
    match regex_captures(pattern, group, haystack) {
        Some(v) => v,
        None => Seq::empty(),
    }
}

fn spans_of(pattern: &str, group: usize, haystack: &str) -> (r: Vec<CaptureSpan>)
    ensures
        r@ == spans(pattern@, group, haystack@),
{
    match captures(pattern, group, haystack) {
        Some(v) => v,
        None => Vec::new(),
    }
}

// ---------------------------------------------------------------------------
// Text of a byte span
// ---------------------------------------------------------------------------

/// The UTF-8 bytes of a text.
pub open spec fn utf8(s: Seq<char>) -> Seq<u8> {
    vstd::utf8::encode_utf8(s)
}

/// The text of `content` between byte offsets `s` and `e`, when both fall on
/// character boundaries.
pub open spec fn text_at(content: Seq<char>, s: int, e: int) -> Option<Seq<char>> {
    let b = utf8(content);
    if 0 <= s <= e <= b.len() && vstd::utf8::is_char_boundary(b, s) && vstd::utf8::is_char_boundary(b, e) {
        Some(vstd::utf8::decode_utf8(b.subrange(s, e)))
    } else {
        None
    }
}

/// The characters of `content[s..e]` (byte offsets), when that is a valid span.
pub fn text_of_span(content: &str, s: usize, e: usize) -> (r: Option<Vec<char>>)
    ensures
        match r {
            Some(v) => text_at(content@, s as int, e as int) == Some(v@),
            None => text_at(content@, s as int, e as int) is None,
        },
{
    let bytes = content.as_bytes();
    let ghost b = utf8(content@);
    assert(bytes@ == b);
    let n = bytes.len();
    if !(s <= e && e <= n) {
        return None;
    }
    if !(content.is_char_boundary(s) && content.is_char_boundary(e)) {
        return None;
    }
    proof {
        vstd::utf8::encode_utf8_valid_utf8(content@);
        vstd::utf8::valid_utf8_split(b, s as int);
    }
    let (_, tail) = content.split_at(s);
    let ghost tb = b.subrange(s as int, n as int);
    assert(tail.spec_bytes() == tb);
    proof {
        vstd::utf8::is_char_boundary_start_end_of_seq(tb);
        if e < n {
            vstd::utf8::is_char_boundary_iff_not_is_continuation_byte(b, e as int);
            vstd::utf8::is_char_boundary_iff_not_is_continuation_byte(tb, (e - s) as int);
            assert(tb[(e - s) as int] == b[e as int]);
        } else {
            assert((e - s) as int == tb.len());
        }
    }
    let (mid, _) = tail.split_at(e - s);
    assert(mid.spec_bytes() =~= b.subrange(s as int, e as int));
    proof {
        vstd::utf8::encode_utf8_decode_utf8(mid@);
    }
    Some(chars_of(mid))
}

// ---------------------------------------------------------------------------
// From matches to references
// ---------------------------------------------------------------------------

/// References from MkDocs matches: the text of the captured path, kept when
/// it is fully qualified.
pub open spec fn mkdocs_refs(content: Seq<char>, caps: Seq<CaptureSpan>) -> Seq<RefV>
    decreases caps.len(),
{
    if caps.len() == 0 {
        Seq::empty()
    } else {
        let acc = mkdocs_refs(content, caps.drop_last());
        match caps.last().2 {
            None => acc,
            Some((s, e)) => match text_at(content, s as int, e as int) {
                Some(t) => if is_fq(t) {
                    acc.push(RefV { target: t, offset: s, kind: ReferenceKind::FullyQualified })
                } else {
                    acc
                },
                None => acc,
            },
        }
    }
}

/// The path a Sphinx role names: the captured text trimmed, without a
/// leading `~` (a display hint).
pub open spec fn sphinx_target(t: Seq<char>) -> Seq<char> {
    let t2 = trim_seq(t);
    if t2.len() > 0 && t2[0] == '~' {
        t2.drop_first()
    } else {
        t2
    }
}

/// References from Sphinx matches, kept when fully qualified.
pub open spec fn sphinx_refs(content: Seq<char>, caps: Seq<CaptureSpan>) -> Seq<RefV>
    decreases caps.len(),
{
    if caps.len() == 0 {
        Seq::empty()
    } else {
        let acc = sphinx_refs(content, caps.drop_last());
        match caps.last().2 {
            None => acc,
            Some((s, e)) => match text_at(content, s as int, e as int) {
                Some(t) => if is_fq(sphinx_target(t)) {
                    acc.push(
                        RefV { target: sphinx_target(t), offset: s, kind: ReferenceKind::FullyQualified },
                    )
                } else {
                    acc
                },
                None => acc,
            },
        }
    }
}

/// References from Rust-style matches: skipped when escaped, when part of
/// an MkDocs link, or when an earlier reference starts at the same offset;
/// a dotted name is fully qualified, an undotted one a short name.
pub open spec fn native_refs(content: Seq<char>, caps: Seq<CaptureSpan>, existing: Seq<usize>) -> Seq<RefV>
    decreases caps.len(),
{
    if caps.len() == 0 {
        Seq::empty()
    } else {
        let acc = native_refs(content, caps.drop_last(), existing);
        let (ws, we, g) = caps.last();
        if skips_rust_style(utf8(content), ws as int, we as int) {
            acc
        } else {
            match g {
                None => acc,
                Some((s, e)) => match text_at(content, s as int, e as int) {
                    Some(t) => if existing.contains(s) {
                        acc
                    } else {
                        acc.push(
                            RefV {
                                target: t,
                                offset: s,
                                kind: if t.contains('.') {
                                    ReferenceKind::FullyQualified
                                } else {
                                    ReferenceKind::ShortName
                                },
                            },
                        )
                    },
                    None => acc,
                },
            }
        }
    }
}

/// MkDocs references: explicit links, then autorefs.
pub open spec fn spec_extract_mkdocs(content: Seq<char>) -> Seq<RefV> {
    mkdocs_refs(content, spans(MKDOCS_EXPLICIT@, 1, content)) + mkdocs_refs(
        content,
        spans(MKDOCS_AUTOREF@, 1, content),
    )
}

/// Sphinx references.
pub open spec fn spec_extract_sphinx(content: Seq<char>) -> Seq<RefV> {
    sphinx_refs(content, spans(SPHINX_XREF@, 2, content))
}

/// The offsets of a list of references.
pub open spec fn offsets(rs: Seq<RefV>) -> Seq<usize> {
    rs.map_values(|r: RefV| r.offset)
}

/// All references of a docstring: those of the configured style (both
/// styles for `Auto`), then the Rust-style ones at offsets not taken yet.
pub open spec fn spec_extract(content: Seq<char>, style: DocStyle) -> Seq<RefV> {
    let base = match style {
        DocStyle::Mkdocs => spec_extract_mkdocs(content),
        DocStyle::Sphinx => spec_extract_sphinx(content),
        DocStyle::Auto => spec_extract_mkdocs(content) + spec_extract_sphinx(content),
    };
    base + native_refs(content, spans(RUST_STYLE@, 1, content), offsets(base))
}

fn push_ref(out: &mut Vec<Reference>, target: &[char], offset: usize, kind: ReferenceKind)
    ensures
        refs_view(final(out)@) == refs_view(old(out)@).push(RefV { target: target@, offset, kind }),
{
    let r = Reference { target: string_of(target), offset, kind };
    out.push(r);
    assert(refs_view(out@) =~= refs_view(old(out)@).push(ref_view(r)));
}

/// References from the matches of an MkDocs pattern.
pub fn mkdocs_references(content: &str, caps: &Vec<CaptureSpan>) -> (r: Vec<Reference>)
    ensures
        refs_view(r@) == mkdocs_refs(content@, caps@),
{
    let mut out: Vec<Reference> = Vec::new();
    let mut i: usize = 0;
    assert(caps@.take(0) =~= Seq::<CaptureSpan>::empty());
    assert(refs_view(out@) =~= Seq::<RefV>::empty());
    while i < caps.len()
        invariant
            i <= caps.len(),
            refs_view(out@) == mkdocs_refs(content@, caps@.take(i as int)),
        decreases caps.len() - i,
    {
        assert(caps@.take(i + 1).drop_last() =~= caps@.take(i as int));
        assert(caps@.take(i + 1).last() == caps@[i as int]);
        let (_, _, g) = caps[i];
        match g {
            None => {},
            Some((s, e)) => match text_of_span(content, s, e) {
                Some(t) => {
                    if is_fully_qualified_chars(t.as_slice()) {
                        push_ref(&mut out, t.as_slice(), s, ReferenceKind::FullyQualified);
                    }
                },
                None => {},
            },
        }
        i = i + 1;
    }
    assert(caps@.take(caps.len() as int) =~= caps@);
    out
}

/// References from the matches of the Sphinx pattern.
pub fn sphinx_references(content: &str, caps: &Vec<CaptureSpan>) -> (r: Vec<Reference>)
    ensures
        refs_view(r@) == sphinx_refs(content@, caps@),
{
    let mut out: Vec<Reference> = Vec::new();
    let mut i: usize = 0;
    assert(caps@.take(0) =~= Seq::<CaptureSpan>::empty());
    assert(refs_view(out@) =~= Seq::<RefV>::empty());
    while i < caps.len()
        invariant
            i <= caps.len(),
            refs_view(out@) == sphinx_refs(content@, caps@.take(i as int)),
        decreases caps.len() - i,
    {
        assert(caps@.take(i + 1).drop_last() =~= caps@.take(i as int));
        assert(caps@.take(i + 1).last() == caps@[i as int]);
        let (_, _, g) = caps[i];
        match g {
            None => {},
            Some((s, e)) => match text_of_span(content, s, e) {
                Some(t) => {
                    let t2 = trim_chars(t.as_slice());
                    let target = if t2.len() > 0 && t2[0] == '~' {
                        crate::text::slice_chars(t2.as_slice(), 1, t2.len())
                    } else {
                        t2
                    };
                    assert(target@ == sphinx_target(t@)) by {
                        if t2@.len() > 0 && t2@[0] == '~' {
                            assert(t2@.subrange(1, t2@.len() as int) =~= t2@.drop_first());
                        }
                    }
                    if is_fully_qualified_chars(target.as_slice()) {
                        push_ref(&mut out, target.as_slice(), s, ReferenceKind::FullyQualified);
                    }
                },
                None => {},
            },
        }
        i = i + 1;
    }
    assert(caps@.take(caps.len() as int) =~= caps@);
    out
}

fn contains_offset(v: &Vec<usize>, x: usize) -> (r: bool)
    ensures
        r == v@.contains(x),
{
    let mut k: usize = 0;
    while k < v.len()
        invariant
            k <= v.len(),
            forall|j: int| 0 <= j < k ==> v@[j] != x,
        decreases v.len() - k,
    {
        if v[k] == x {
            assert(v@[k as int] == x);
            return true;
        }
        k = k + 1;
    }
    false
}

/// References from the matches of the Rust-style pattern; `existing` holds
/// the offsets of references already found by the other patterns.
pub fn native_references(content: &str, caps: &Vec<CaptureSpan>, existing: &Vec<usize>) -> (r: Vec<Reference>)
    ensures
        refs_view(r@) == native_refs(content@, caps@, existing@),
{
    let bytes = content.as_bytes();
    let mut out: Vec<Reference> = Vec::new();
    let mut i: usize = 0;
    assert(caps@.take(0) =~= Seq::<CaptureSpan>::empty());
    assert(refs_view(out@) =~= Seq::<RefV>::empty());
    while i < caps.len()
        invariant
            i <= caps.len(),
            bytes@ == utf8(content@),
            refs_view(out@) == native_refs(content@, caps@.take(i as int), existing@),
        decreases caps.len() - i,
    {
        assert(caps@.take(i + 1).drop_last() =~= caps@.take(i as int));
        assert(caps@.take(i + 1).last() == caps@[i as int]);
        let (ws, we, g) = caps[i];
        let skip = if ws <= bytes.len() {
            should_skip_rust_style(bytes, ws, we)
        } else {
            we < bytes.len() && bytes[we] == ('[' as u8)
        };
        if !skip {
            match g {
                None => {},
                Some((s, e)) => match text_of_span(content, s, e) {
                    Some(t) => {
                        if !contains_offset(existing, s) {
                            let kind = if crate::text::contains_char(t.as_slice(), '.') {
                                ReferenceKind::FullyQualified
                            } else {
                                ReferenceKind::ShortName
                            };
                            push_ref(&mut out, t.as_slice(), s, kind);
                        }
                    },
                    None => {},
                },
            }
        }
        i = i + 1;
    }
    assert(caps@.take(caps.len() as int) =~= caps@);
    out
}

fn append_refs(out: &mut Vec<Reference>, more: Vec<Reference>)
    ensures
        refs_view(final(out)@) == refs_view(old(out)@) + refs_view(more@),
{
    let mut more = more;
    let ghost m = more@;
    out.append(&mut more);
    assert(refs_view(out@) =~= refs_view(old(out)@) + refs_view(m));
}

fn extract_mkdocs(content: &str) -> (r: Vec<Reference>)
    ensures
        refs_view(r@) == spec_extract_mkdocs(content@),
{
    let c1 = spans_of(MKDOCS_EXPLICIT, 1, content);
    let c2 = spans_of(MKDOCS_AUTOREF, 1, content);
    let mut out = mkdocs_references(content, &c1);
    append_refs(&mut out, mkdocs_references(content, &c2));
    out
}

fn extract_sphinx(content: &str) -> (r: Vec<Reference>)
    ensures
        refs_view(r@) == spec_extract_sphinx(content@),
{
    let c = spans_of(SPHINX_XREF, 2, content);
    sphinx_references(content, &c)
}

fn extract_native(content: &str, existing: &Vec<usize>) -> (r: Vec<Reference>)
    ensures
        refs_view(r@) == native_refs(content@, spans(RUST_STYLE@, 1, content@), existing@),
{
    let c = spans_of(RUST_STYLE, 1, content);
    native_references(content, &c, existing)
}

/// Extract all cross-references from a docstring's content.
pub fn extract_references(content: &str, style: &DocStyle) -> (r: Vec<Reference>)
    ensures
        refs_view(r@) == spec_extract(content@, *style),
{
    let mut refs = match style {
        DocStyle::Mkdocs => extract_mkdocs(content),
        DocStyle::Sphinx => extract_sphinx(content),
        DocStyle::Auto => {
            let mut r = extract_mkdocs(content);
            append_refs(&mut r, extract_sphinx(content));
            r
        },
    };
    let ghost base = refs_view(refs@);
    let mut existing: Vec<usize> = Vec::new();
    let mut k: usize = 0;
    while k < refs.len()
        invariant
            k <= refs.len(),
            base == refs_view(refs@),
            existing@ == offsets(base).take(k as int),
        decreases refs.len() - k,
    {
        existing.push(refs[k].offset);
        assert(offsets(base).take(k + 1) =~= offsets(base).take(k as int).push(base[k as int].offset));
        k = k + 1;
    }
    assert(offsets(base).take(refs.len() as int) =~= offsets(base));
    let native = extract_native(content, &existing);
    append_refs(&mut refs, native);
    refs
}

// ---------------------------------------------------------------------------
// Laws of extraction
// ---------------------------------------------------------------------------

/// Each reference is a short name exactly when its target has no dot.
pub open spec fn kinds_match(rs: Seq<RefV>) -> bool {
    forall|k: int|
        0 <= k < rs.len() ==> ((#[trigger] rs[k]).kind == ReferenceKind::ShortName <==> !rs[k].target.contains('.'))
}

proof fn lemma_kinds_push(rs: Seq<RefV>, r: RefV)
    requires
        kinds_match(rs),
        r.kind == ReferenceKind::ShortName <==> !r.target.contains('.'),
    ensures
        kinds_match(rs.push(r)),
{
    assert forall|k: int| 0 <= k < rs.push(r).len() implies ((#[trigger] rs.push(r)[k]).kind
        == ReferenceKind::ShortName <==> !rs.push(r)[k].target.contains('.')) by {
        if k < rs.len() {
            assert(rs.push(r)[k] == rs[k]);
        }
    }
}

proof fn lemma_kinds_mkdocs(content: Seq<char>, caps: Seq<CaptureSpan>)
    ensures
        kinds_match(mkdocs_refs(content, caps)),
    decreases caps.len(),
{
    if caps.len() > 0 {
        lemma_kinds_mkdocs(content, caps.drop_last());
        let acc = mkdocs_refs(content, caps.drop_last());
        if let Some((s, e)) = caps.last().2 {
            if let Some(t) = text_at(content, s as int, e as int) {
                if is_fq(t) {
                    lemma_kinds_push(acc, RefV { target: t, offset: s, kind: ReferenceKind::FullyQualified });
                }
            }
        }
    }
}

proof fn lemma_kinds_sphinx(content: Seq<char>, caps: Seq<CaptureSpan>)
    ensures
        kinds_match(sphinx_refs(content, caps)),
    decreases caps.len(),
{
    if caps.len() > 0 {
        lemma_kinds_sphinx(content, caps.drop_last());
        let acc = sphinx_refs(content, caps.drop_last());
        if let Some((s, e)) = caps.last().2 {
            if let Some(t) = text_at(content, s as int, e as int) {
                if is_fq(sphinx_target(t)) {
                    lemma_kinds_push(
                        acc,
                        RefV { target: sphinx_target(t), offset: s, kind: ReferenceKind::FullyQualified },
                    );
                }
            }
        }
    }
}

proof fn lemma_kinds_native(content: Seq<char>, caps: Seq<CaptureSpan>, existing: Seq<usize>)
    ensures
        kinds_match(native_refs(content, caps, existing)),
    decreases caps.len(),
{
    if caps.len() > 0 {
        lemma_kinds_native(content, caps.drop_last(), existing);
        let acc = native_refs(content, caps.drop_last(), existing);
        let (ws, we, g) = caps.last();
        if !skips_rust_style(utf8(content), ws as int, we as int) {
            if let Some((s, e)) = g {
                if let Some(t) = text_at(content, s as int, e as int) {
                    if !existing.contains(s) {
                        lemma_kinds_push(
                            acc,
                            RefV {
                                target: t,
                                offset: s,
                                kind: if t.contains('.') {
                                    ReferenceKind::FullyQualified
                                } else {
                                    ReferenceKind::ShortName
                                },
                            },
                        );
                    }
                }
            }
        }
    }
}

proof fn lemma_kinds_concat(a: Seq<RefV>, b: Seq<RefV>)
    requires
        kinds_match(a),
        kinds_match(b),
    ensures
        kinds_match(a + b),
{
    assert forall|k: int| 0 <= k < (a + b).len() implies ((#[trigger] (a + b)[k]).kind
        == ReferenceKind::ShortName <==> !(a + b)[k].target.contains('.')) by {
        if k < a.len() {
            assert((a + b)[k] == a[k]);
        } else {
            assert((a + b)[k] == b[k - a.len()]);
        }
    }
}

/// Every extracted reference is a short name exactly when its target has
/// no dot: MkDocs and Sphinx references are always dotted paths, and a
/// Rust-style reference is a short name when it has no dot.
pub proof fn law_reference_kinds(content: Seq<char>, style: DocStyle)
    ensures
        kinds_match(spec_extract(content, style)),
{
    let mk_e = mkdocs_refs(content, spans(MKDOCS_EXPLICIT@, 1, content));
    let mk_a = mkdocs_refs(content, spans(MKDOCS_AUTOREF@, 1, content));
    lemma_kinds_mkdocs(content, spans(MKDOCS_EXPLICIT@, 1, content));
    lemma_kinds_mkdocs(content, spans(MKDOCS_AUTOREF@, 1, content));
    lemma_kinds_concat(mk_e, mk_a);
    lemma_kinds_sphinx(content, spans(SPHINX_XREF@, 2, content));
    lemma_kinds_concat(spec_extract_mkdocs(content), spec_extract_sphinx(content));
    let base = match style {
        DocStyle::Mkdocs => spec_extract_mkdocs(content),
        DocStyle::Sphinx => spec_extract_sphinx(content),
        DocStyle::Auto => spec_extract_mkdocs(content) + spec_extract_sphinx(content),
    };
    lemma_kinds_native(content, spans(RUST_STYLE@, 1, content), offsets(base));
    lemma_kinds_concat(base, native_refs(content, spans(RUST_STYLE@, 1, content), offsets(base)));
}

/// Every target of `rs` is a dotted path that starts with a lowercase ASCII
/// letter or `_`.
pub open spec fn all_lowercase_paths(rs: Seq<RefV>) -> bool {
    forall|k: int|
        0 <= k < rs.len() ==> {
            let t = (#[trigger] rs[k]).target;
            &&& t.len() > 0
            &&& ('a' <= t[0] <= 'z' || t[0] == '_')
            &&& t.contains('.')
        }
}

proof fn lemma_paths_push(rs: Seq<RefV>, r: RefV)
    requires
        all_lowercase_paths(rs),
        all_lowercase_paths(seq![r]),
    ensures
        all_lowercase_paths(rs.push(r)),
{
    assert forall|k: int| 0 <= k < rs.push(r).len() implies {
        let t = (#[trigger] rs.push(r)[k]).target;
        &&& t.len() > 0
        &&& ('a' <= t[0] <= 'z' || t[0] == '_')
        &&& t.contains('.')
    } by {
        if k < rs.len() {
            assert(rs.push(r)[k] == rs[k]);
        } else {
            assert(rs.push(r)[k] == seq![r][0]);
        }
    }
}

proof fn lemma_paths_concat(a: Seq<RefV>, b: Seq<RefV>)
    requires
        all_lowercase_paths(a),
        all_lowercase_paths(b),
    ensures
        all_lowercase_paths(a + b),
{
    assert forall|k: int| 0 <= k < (a + b).len() implies {
        let t = (#[trigger] (a + b)[k]).target;
        &&& t.len() > 0
        &&& ('a' <= t[0] <= 'z' || t[0] == '_')
        &&& t.contains('.')
    } by {
        if k < a.len() {
            assert((a + b)[k] == a[k]);
        } else {
            assert((a + b)[k] == b[k - a.len()]);
        }
    }
}

proof fn lemma_paths_mkdocs(content: Seq<char>, caps: Seq<CaptureSpan>)
    ensures
        all_lowercase_paths(mkdocs_refs(content, caps)),
    decreases caps.len(),
{
    if caps.len() > 0 {
        lemma_paths_mkdocs(content, caps.drop_last());
        let acc = mkdocs_refs(content, caps.drop_last());
        if let Some((s, e)) = caps.last().2 {
            if let Some(t) = text_at(content, s as int, e as int) {
                if is_fq(t) {
                    let r = RefV { target: t, offset: s, kind: ReferenceKind::FullyQualified };
                    assert(seq![r][0] == r);
                    lemma_paths_push(acc, r);
                }
            }
        }
    }
}

proof fn lemma_paths_sphinx(content: Seq<char>, caps: Seq<CaptureSpan>)
    ensures
        all_lowercase_paths(sphinx_refs(content, caps)),
    decreases caps.len(),
{
    if caps.len() > 0 {
        lemma_paths_sphinx(content, caps.drop_last());
        let acc = sphinx_refs(content, caps.drop_last());
        if let Some((s, e)) = caps.last().2 {
            if let Some(t) = text_at(content, s as int, e as int) {
                if is_fq(sphinx_target(t)) {
                    let r = RefV { target: sphinx_target(t), offset: s, kind: ReferenceKind::FullyQualified };
                    assert(seq![r][0] == r);
                    lemma_paths_push(acc, r);
                }
            }
        }
    }
}

/// Whether `t` is a dotted path starting with a lowercase ASCII letter or `_`.
pub open spec fn lowercase_dotted(t: Seq<char>) -> bool {
    t.len() > 0 && ('a' <= t[0] <= 'z' || t[0] == '_') && t.contains('.')
}

/// One more MkDocs match adds a reference exactly when its captured text is
/// a lowercase dotted path, and then that text at the capture's offset.
pub proof fn law_mkdocs_match_kept(content: Seq<char>, caps: Seq<CaptureSpan>, c: CaptureSpan, s: usize, e: usize, t: Seq<char>)
    requires
        c.2 == Some((s, e)),
        text_at(content, s as int, e as int) == Some(t),
    ensures
        mkdocs_refs(content, caps.push(c)) == if lowercase_dotted(t) {
            mkdocs_refs(content, caps).push(RefV { target: t, offset: s, kind: ReferenceKind::FullyQualified })
        } else {
            mkdocs_refs(content, caps)
        },
{
    assert(caps.push(c).drop_last() =~= caps);
}

/// One more Sphinx match adds a reference exactly when the path it names
/// (trimmed, without a leading `~`) is a lowercase dotted path.
pub proof fn law_sphinx_match_kept(content: Seq<char>, caps: Seq<CaptureSpan>, c: CaptureSpan, s: usize, e: usize, t: Seq<char>)
    requires
        c.2 == Some((s, e)),
        text_at(content, s as int, e as int) == Some(t),
    ensures
        sphinx_refs(content, caps.push(c)) == if lowercase_dotted(sphinx_target(t)) {
            sphinx_refs(content, caps).push(
                RefV { target: sphinx_target(t), offset: s, kind: ReferenceKind::FullyQualified },
            )
        } else {
            sphinx_refs(content, caps)
        },
{
    assert(caps.push(c).drop_last() =~= caps);
}

/// MkDocs and Sphinx matches are kept only as fully-qualified paths: every
/// reference of those syntaxes is dotted and starts with a lowercase ASCII
/// letter or `_`, so `ClassName.method` is never taken for a path.
pub proof fn law_style_refs_are_lowercase_paths(content: Seq<char>, style: DocStyle)
    ensures
        all_lowercase_paths(spec_extract_mkdocs(content)),
        all_lowercase_paths(spec_extract_sphinx(content)),
        all_lowercase_paths(style_refs(content, style)),
{
    lemma_paths_mkdocs(content, spans(MKDOCS_EXPLICIT@, 1, content));
    lemma_paths_mkdocs(content, spans(MKDOCS_AUTOREF@, 1, content));
    lemma_paths_concat(
        mkdocs_refs(content, spans(MKDOCS_EXPLICIT@, 1, content)),
        mkdocs_refs(content, spans(MKDOCS_AUTOREF@, 1, content)),
    );
    lemma_paths_sphinx(content, spans(SPHINX_XREF@, 2, content));
    lemma_paths_concat(spec_extract_mkdocs(content), spec_extract_sphinx(content));
}

/// The references of the configured style (both for `Auto`).
pub open spec fn style_refs(content: Seq<char>, style: DocStyle) -> Seq<RefV> {
    match style {
        DocStyle::Mkdocs => spec_extract_mkdocs(content),
        DocStyle::Sphinx => spec_extract_sphinx(content),
        DocStyle::Auto => spec_extract_mkdocs(content) + spec_extract_sphinx(content),
    }
}

/// The Rust-style syntax is active whatever the style: every Rust-style
/// reference at an offset that no reference of the style takes is
/// extracted, after those of the style.
pub proof fn law_native_in_every_style(content: Seq<char>, style: DocStyle, k: int)
    requires
        0 <= k < native_refs(content, spans(RUST_STYLE@, 1, content), offsets(style_refs(content, style))).len(),
    ensures
        spec_extract(content, style)[style_refs(content, style).len() + k] == native_refs(
            content,
            spans(RUST_STYLE@, 1, content),
            offsets(style_refs(content, style)),
        )[k],
{
}

} // verus!
