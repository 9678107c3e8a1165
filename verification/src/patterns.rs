//! Cross-reference patterns for docstring syntax detection, and the
//! filtering rules applied to what they match.
use vstd::prelude::*;

verus! {

// ---------------------------------------------------------------------------
// MkDocs patterns
// ---------------------------------------------------------------------------

/// `[display text][dotted.path]`
pub const MKDOCS_EXPLICIT: &'static str = r"\[[^\]]*\]\[([a-zA-Z_][\w.]*)\]";

/// `[dotted.path][]` (autoref shorthand)
pub const MKDOCS_AUTOREF: &'static str = r"\[([a-zA-Z_][\w.]*)\]\[\]";

// ---------------------------------------------------------------------------
// Sphinx patterns
// ---------------------------------------------------------------------------

/// ``:role:`~optional.dotted.path` ``
pub const SPHINX_XREF: &'static str = r":(class|func|meth|mod|attr|exc|data|obj|const|type):`~?([^`]+)`";

// ---------------------------------------------------------------------------
// Rust-style patterns (intra-doc links)
// ---------------------------------------------------------------------------

/// `[identifier]` or ``[`identifier`]``
pub const RUST_STYLE: &'static str = r"\[`?([a-zA-Z_][\w.]*)`?\]";

// ---------------------------------------------------------------------------
// Shared filtering logic
// ---------------------------------------------------------------------------

/// Whether `s` looks like a fully-qualified Python path: it contains a dot
/// and starts with a lowercase ASCII letter or `_` (package names are
/// lowercase; `ClassName.method` is a scoped reference, not a path).
pub open spec fn is_fq(s: Seq<char>) -> bool {
    s.contains('.') && s.len() > 0 && (('a' <= s[0] && s[0] <= 'z') || s[0] == '_')
}

/// Check if a reference looks like a fully-qualified Python path.
pub fn is_fully_qualified(s: &str) -> (r: bool)
    ensures
        r == is_fq(s@),
{
    let c = crate::text::chars_of(s);
    crate::text::contains_char(c.as_slice(), '.') && c.len() > 0 && (('a' <= c[0] && c[0] <= 'z')
        || c[0] == '_')
}

/// Whether the characters look like a fully-qualified Python path.
pub fn is_fully_qualified_chars(c: &[char]) -> (r: bool)
    ensures
        r == is_fq(c@),
{
    crate::text::contains_char(c, '.') && c.len() > 0 && (('a' <= c[0] && c[0] <= 'z') || c[0] == '_')
}

/// Whether a byte is an ASCII letter, an ASCII digit or `_`.
pub open spec fn is_word_byte(b: u8) -> bool {
    (('a' as u8) <= b && b <= ('z' as u8)) || (('A' as u8) <= b && b <= ('Z' as u8)) || (('0' as u8)
        <= b && b <= ('9' as u8)) || b == ('_' as u8)
}

/// Whether a Rust-style match `content[start..end]` is not a reference: it is
/// escaped (`\[`), the second half of an MkDocs `[text][path]` (`][`), a
/// subscript like `Base[int]` (preceded by a word character), or the first
/// half of an MkDocs `[path][]` (followed by `[`).
pub open spec fn skips_rust_style(content: Seq<u8>, start: int, end: int) -> bool {
    (start > 0 && start <= content.len() && ({
        let prev = content[start - 1];
        prev == ('\\' as u8) || prev == (']' as u8) || is_word_byte(prev)
    })) || (0 <= end < content.len() && content[end] == ('[' as u8))
}

/// Check if a Rust-style match should be skipped based on surrounding context.
///
/// Returns `true` if the match should be skipped (not a real cross-reference).
pub fn should_skip_rust_style(content: &[u8], match_start: usize, match_end: usize) -> (r: bool)
    requires
        match_start <= content@.len(),
    ensures
        r == skips_rust_style(content@, match_start as int, match_end as int),
{
    if match_start > 0 {
        let prev = content[match_start - 1];
        if prev == ('\\' as u8) || prev == (']' as u8) || (('a' as u8) <= prev && prev <= ('z' as u8))
            || (('A' as u8) <= prev && prev <= ('Z' as u8)) || (('0' as u8) <= prev && prev <= ('9' as u8))
            || prev == ('_' as u8) {
            return true;
        }
    }
    if match_end < content.len() && content[match_end] == ('[' as u8) {
        return true;
    }
    false
}

} // verus!
