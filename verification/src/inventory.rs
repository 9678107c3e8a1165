//! Sphinx `objects.inv` (intersphinx inventory) files.
//!
//! Format (v2):
//!   Line 1: `# Sphinx inventory version 2`
//!   Line 2: `# Project: <name>`
//!   Line 3: `# Version: <version>`
//!   Line 4: `# The remainder of this file is compressed using zlib.`
//!   Rest:   zlib-compressed lines, each `{name} {domain}:{role} {priority} {uri} {dispname}`
//!
//! Only entries of the `py` domain (`py:class`, `py:function`, ...) are kept.
use vstd::prelude::*;
use crate::graph::{root_chars, root_of};
use crate::text::{
    chars_of, has_prefix, split_chars, split_seq, starts_with, str_is, string_of, string_views,
    seq_views, lemma_split_nonempty, utf8_text,
};
use vstd::string::StringSliceAdditionalSpecFns;

verus! {

/// A set of known external Python symbols loaded from inventory files.
#[derive(Debug)]
pub struct Inventory {
    /// Fully-qualified Python symbol names (e.g. `pydantic.BaseModel`), each once.
    pub symbols: Vec<String>,
    /// Root module names covered by loaded inventories (e.g. `ast`, `os`), each once.
    pub covered_roots: Vec<String>,
    /// Project names that were loaded (for diagnostics).
    pub projects: Vec<String>,
}

/// Why an inventory could not be read.
#[derive(Debug)]
pub enum InventoryError {
    /// Fewer than four newline-terminated header lines.
    HeaderTooShort,
    /// A header line is not UTF-8.
    InvalidHeaderUtf8,
    /// The first header line does not name version 2 of the format; holds that line.
    UnsupportedFormat(String),
    /// The compressed part does not inflate to UTF-8 text.
    DecompressFailed,
}

/// `set` with `x` added unless it is already there.
pub open spec fn set_insert(set: Seq<Seq<char>>, x: Seq<char>) -> Seq<Seq<char>> {
    if set.contains(x) {
        set
    } else {
        set.push(x)
    }
}

impl Inventory {
    /// No symbol and no covered root is held twice.
    pub open spec fn well_formed(&self) -> bool {
        &&& string_views(self.symbols@).no_duplicates()
        &&& string_views(self.covered_roots@).no_duplicates()
    }
}

/// Adding a text to a list that holds nothing twice gives a list that
/// holds nothing twice, and holds the text.
pub proof fn lemma_set_insert_unique(set: Seq<Seq<char>>, x: Seq<char>)
    requires
        set.no_duplicates(),
    ensures
        set_insert(set, x).no_duplicates(),
        set_insert(set, x).contains(x),
{
    if !set.contains(x) {
        let t = set.push(x);
        assert(t[set.len() as int] == x);
        assert forall|i: int, j: int| 0 <= i < t.len() && 0 <= j < t.len() && i != j implies t[i]
            != t[j] by {
            if i < set.len() && j < set.len() {
                assert(t[i] == set[i] && t[j] == set[j]);
            } else if i < set.len() {
                assert(t[i] == set[i]);
            } else {
                assert(t[j] == set[j]);
            }
        }
    }
}

/// Adding the `py` names of any lines keeps a symbol list free of repeats.
pub proof fn lemma_add_symbols_unique(set: Seq<Seq<char>>, lines: Seq<Seq<char>>)
    requires
        set.no_duplicates(),
    ensures
        add_symbols(set, lines).no_duplicates(),
    decreases lines.len(),
{
    if lines.len() > 0 {
        lemma_add_symbols_unique(set, lines.drop_last());
        if let Some(name) = py_entry(lines.last()) {
            lemma_set_insert_unique(add_symbols(set, lines.drop_last()), name);
        }
    }
}

/// Adding the roots of the `py` names of any lines keeps a root list free of
/// repeats.
pub proof fn lemma_add_roots_unique(set: Seq<Seq<char>>, lines: Seq<Seq<char>>)
    requires
        set.no_duplicates(),
    ensures
        add_roots(set, lines).no_duplicates(),
    decreases lines.len(),
{
    if lines.len() > 0 {
        lemma_add_roots_unique(set, lines.drop_last());
        if let Some(name) = py_entry(lines.last()) {
            lemma_set_insert_unique(add_roots(set, lines.drop_last()), split_seq(name, '.')[0]);
        }
    }
}

impl Inventory {
    /// An empty inventory.
    pub fn new() -> (r: Self)
        ensures
            r.symbols@.len() == 0,
            r.covered_roots@.len() == 0,
            r.projects@.len() == 0,
            r.well_formed(),
    {
        Inventory { symbols: Vec::new(), covered_roots: Vec::new(), projects: Vec::new() }
    }

    /// Check if a dotted reference exists in the inventory.
    pub fn contains(&self, reference: &str) -> (r: bool)
        ensures
            r == string_views(self.symbols@).contains(reference@),
    {
        let c = chars_of(reference);
        contains_text(&self.symbols, c.as_slice())
    }

    /// Check if a reference's root module is covered by any loaded inventory.
    pub fn covers_root(&self, reference: &str) -> (r: bool)
        ensures
            r == string_views(self.covered_roots@).contains(root_of(reference@)),
    {
        let root = root_chars(reference);
        contains_text(&self.covered_roots, root.as_slice())
    }
}

/// Whether a list of strings holds the given text.
pub fn contains_text(v: &Vec<String>, x: &[char]) -> (r: bool)
    ensures
        r == string_views(v@).contains(x@),
{
    let mut k: usize = 0;
    while k < v.len()
        invariant
            k <= v.len(),
            forall|j: int| 0 <= j < k ==> #[trigger] string_views(v@)[j] != x@,
        decreases v.len() - k,
    {
        if str_is(v[k].as_str(), x) {
            assert(string_views(v@)[k as int] == x@);
            return true;
        }
        k = k + 1;
    }
    false
}

/// Add a text to a list of strings unless it is already there.
pub fn insert_text(v: &mut Vec<String>, x: &[char])
    ensures
        string_views(final(v)@) == set_insert(string_views(old(v)@), x@),
{
    if !contains_text(v, x) {
        let ghost before = string_views(v@);
        v.push(string_of(x));
        assert(string_views(v@) =~= before.push(x@));
    }
}

// ---------------------------------------------------------------------------
// Outside calls
// ---------------------------------------------------------------------------

/// The text that zlib-inflating `data` gives, or `None` when `data` is not a
/// complete zlib stream or does not inflate to UTF-8.
pub uninterp spec fn zlib_text(data: Seq<u8>) -> Option<Seq<char>>;

/// Calls `flate2::read::ZlibDecoder::new(data)` and `read_to_string` on it;
/// the text read, or `None` when reading fails.  Trusted: the result is what
/// `flate2` computes, named by [`zlib_text`].
#[verifier::external_body]
fn inflate_text(data: &[u8]) -> (r: Option<String>)
    ensures
        match r {
            Some(s) => zlib_text(data@) == Some(s@),
            None => zlib_text(data@) is None,
        },
{
    let mut decoder = flate2::read::ZlibDecoder::new(data);
    let mut out = String::new();
    std::io::Read::read_to_string(&mut decoder, &mut out).ok()?;
    Some(out)
}

// ---------------------------------------------------------------------------
// Parsing: specification
// ---------------------------------------------------------------------------

/// Index of the first newline byte at or after `pos`, or -1.
pub open spec fn find_newline(data: Seq<u8>, pos: int) -> int
    decreases data.len() - pos,
{
    if pos < 0 || pos >= data.len() {
        -1
    } else if data[pos] == 10 {
        pos
    } else {
        find_newline(data, pos + 1)
    }
}

/// The first `n` header lines from byte `pos` on, as text, and where the
/// rest starts.
pub open spec fn header_lines(data: Seq<u8>, pos: int, n: nat) -> Result<(Seq<Seq<char>>, int), InventoryError>
    decreases n,
{
    if n == 0 {
        Ok((Seq::empty(), pos))
    } else {
        let e = find_newline(data, pos);
        if e < 0 {
            Err(InventoryError::HeaderTooShort)
        } else if !vstd::utf8::valid_utf8(data.subrange(pos, e)) {
            Err(InventoryError::InvalidHeaderUtf8)
        } else {
            match header_lines(data, e + 1, (n - 1) as nat) {
                Err(err) => Err(err),
                Ok((rest, p)) => Ok((seq![vstd::utf8::decode_utf8(data.subrange(pos, e))] + rest, p)),
            }
        }
    }
}

/// Whether `pat` occurs in `s`.
pub open spec fn has_substring(s: Seq<char>, pat: Seq<char>) -> bool {
    exists|i: int| 0 <= i && i + pat.len() <= s.len() && #[trigger] s.subrange(i, i + pat.len()) == pat
}

/// The lines of a text as `str::lines` gives them: split at `\n`, one
/// `\r` before a `\n` removed, and no final empty line after a trailing
/// newline.
pub open spec fn text_lines(s: Seq<char>) -> Seq<Seq<char>> {
    let parts = split_seq(s, '\n');
    let body = parts.drop_last().map_values(|l: Seq<char>| strip_cr(l));
    if parts.last().len() == 0 {
        body
    } else {
        body.push(parts.last())
    }
}

pub open spec fn strip_cr(l: Seq<char>) -> Seq<char> {
    if l.len() > 0 && l.last() == '\r' {
        l.drop_last()
    } else {
        l
    }
}

/// The name an inventory line declares in the `py` domain: lines with at
/// least four space-separated fields whose second field starts with `py:`.
pub open spec fn py_entry(line: Seq<char>) -> Option<Seq<char>> {
    let fields = split_seq(line, ' ');
    if fields.len() >= 4 && has_prefix(fields[1], seq!['p', 'y', ':']) {
        Some(fields[0])
    } else {
        None
    }
}

/// Symbols after adding the `py` entries of `lines` in order.
pub open spec fn add_symbols(set: Seq<Seq<char>>, lines: Seq<Seq<char>>) -> Seq<Seq<char>>
    decreases lines.len(),
{
    if lines.len() == 0 {
        set
    } else {
        let acc = add_symbols(set, lines.drop_last());
        match py_entry(lines.last()) {
            Some(name) => set_insert(acc, name),
            None => acc,
        }
    }
}

/// Covered roots after adding the roots of the `py` entries of `lines`.
pub open spec fn add_roots(set: Seq<Seq<char>>, lines: Seq<Seq<char>>) -> Seq<Seq<char>>
    decreases lines.len(),
{
    if lines.len() == 0 {
        set
    } else {
        let acc = add_roots(set, lines.drop_last());
        match py_entry(lines.last()) {
            Some(name) => set_insert(acc, split_seq(name, '.')[0]),
            None => acc,
        }
    }
}

/// The project name from the second header line (`unknown` when the line
/// does not start with `# Project: `).
pub open spec fn project_name(line: Seq<char>) -> Seq<char> {
    let prefix = seq!['#', ' ', 'P', 'r', 'o', 'j', 'e', 'c', 't', ':', ' '];
    if has_prefix(line, prefix) {
        line.skip(prefix.len() as int)
    } else {
        seq!['u', 'n', 'k', 'n', 'o', 'w', 'n']
    }
}

/// The header text that marks version 2 of the format.
pub open spec fn version_2_mark() -> Seq<char> {
    seq![
        'S', 'p', 'h', 'i', 'n', 'x', ' ', 'i', 'n', 'v', 'e', 'n', 't', 'o', 'r', 'y', ' ', 'v',
        'e', 'r', 's', 'i', 'o', 'n', ' ', '2',
    ]
}

/// The outcome of parsing `data`: an error, or the decompressed text lines
/// together with the project name.
pub open spec fn parsed_inventory(data: Seq<u8>) -> Result<(Seq<Seq<char>>, Seq<char>), InventoryError> {
    match header_lines(data, 0, 4) {
        Err(e) => Err(e),
        Ok((h, pos)) => if !has_substring(h[0], version_2_mark()) {
            Err(InventoryError::UnsupportedFormat(arbitrary()))
        } else {
            match zlib_text(data.skip(pos)) {
                None => Err(InventoryError::DecompressFailed),
                Some(text) => Ok((text_lines(text), project_name(h[1]))),
            }
        },
    }
}

/// The first header line of `data`, when there is one.
pub open spec fn first_header_line(data: Seq<u8>) -> Seq<char> {
    match header_lines(data, 0, 4) {
        Ok((h, _)) => h[0],
        Err(_) => Seq::empty(),
    }
}

proof fn lemma_header_len(data: Seq<u8>, pos: int, n: nat)
    ensures
        header_lines(data, pos, n) matches Ok((h, p)) ==> h.len() == n && (n == 0 ==> p == pos) && (n
            > 0 ==> 0 <= pos <= p <= data.len()),
    decreases n,
{
    if n > 0 {
        let e = find_newline(data, pos);
        lemma_find_newline(data, pos);
        lemma_header_len(data, e + 1, (n - 1) as nat);
    }
}

proof fn lemma_find_newline(data: Seq<u8>, pos: int)
    ensures
        find_newline(data, pos) == -1 || (pos <= find_newline(data, pos) < data.len() && 0 <= pos
            && data[find_newline(data, pos)] == 10),
        find_newline(data, pos) >= 0 ==> forall|k: int| pos <= k < find_newline(data, pos) ==> data[k] != 10,
        find_newline(data, pos) < 0 && 0 <= pos ==> forall|k: int| pos <= k < data.len() ==> data[k] != 10,
    decreases data.len() - pos,
{
    if 0 <= pos < data.len() && data[pos] != 10 {
        lemma_find_newline(data, pos + 1);
    }
}

// ---------------------------------------------------------------------------
// Parsing: implementation
// ---------------------------------------------------------------------------

fn find_newline_exec(data: &[u8], pos: usize) -> (r: Option<usize>)
    ensures
        match r {
            Some(e) => e as int == find_newline(data@, pos as int),
            None => find_newline(data@, pos as int) == -1,
        },
{
    proof {
        lemma_find_newline(data@, pos as int);
    }
    let mut k = pos;
    while k < data.len()
        invariant
            pos <= k,
            find_newline(data@, pos as int) == find_newline(data@, k as int),
        decreases data.len() - k,
    {
        if data[k] == 10 {
            return Some(k);
        }
        k = k + 1;
    }
    None
}

/// Whether `pat` occurs in `s`.
pub fn contains_substring(s: &[char], pat: &[char]) -> (r: bool)
    ensures
        r == has_substring(s@, pat@),
{
    if pat.len() > s.len() {
        assert forall|i: int| 0 <= i && i + pat@.len() <= s@.len() implies #[trigger] s@.subrange(
            i,
            i + pat@.len(),
        ) != pat@ by {}
        return false;
    }
    if pat.len() == 0 {
        assert(s@.subrange(0, 0int + pat@.len()) =~= pat@);
        return true;
    }
    let mut i: usize = 0;
    while i <= s.len() - pat.len()
        invariant
            0 < pat.len() <= s.len(),
            i <= s.len() - pat.len() + 1,
            forall|j: int| 0 <= j < i ==> #[trigger] s@.subrange(j, j + pat@.len()) != pat@,
        decreases s.len() - i,
    {
        let window = crate::text::slice_chars(s, i, i + pat.len());
        if crate::text::chars_eq(window.as_slice(), pat) {
            assert(s@.subrange(i as int, i + pat@.len()) == pat@);
            return true;
        }
        i = i + 1;
    }
    assert forall|j: int| 0 <= j && j + pat@.len() <= s@.len() implies #[trigger] s@.subrange(
        j,
        j + pat@.len(),
    ) != pat@ by {
        assert(j < i);
    }
    false
}

impl Inventory {
    /// Parse raw `objects.inv` bytes and add their `py` entries.
    ///
    /// On success the inventory holds, besides what it held, every name
    /// declared in the `py` domain, the root module of each, and the project
    /// name.  On failure it is unchanged.
    pub fn parse_inv(&mut self, data: &[u8]) -> (r: Result<(), InventoryError>)
        ensures
            match parsed_inventory(data@) {
                Err(e) => r matches Err(e2) && (match e {
                    InventoryError::UnsupportedFormat(_) => e2 matches InventoryError::UnsupportedFormat(l)
                        && l@ == first_header_line(data@),
                    _ => e2 == e,
                }) && *final(self) == *old(self),
                Ok((lines, project)) => r is Ok
                    && string_views(final(self).symbols@) == add_symbols(string_views(old(self).symbols@), lines)
                    && string_views(final(self).covered_roots@) == add_roots(string_views(old(self).covered_roots@), lines)
                    && string_views(final(self).projects@) == string_views(old(self).projects@).push(project),
            },
            old(self).well_formed() ==> final(self).well_formed(),
    {
        // Read the four header lines (plain text, newline-terminated).
        let mut pos: usize = 0;
        let mut header: Vec<Vec<char>> = Vec::new();
        let mut n: usize = 0;
        proof {
            lemma_header_len(data@, 0, 4);
        }
        while n < 4
            invariant
                n <= 4,
                pos <= data@.len(),
                header_lines(data@, 0, 4) == (match header_lines(data@, pos as int, (4 - n) as nat) {
                    Err(e) => Err(e),
                    Ok((rest, p)) => Ok((seq_views(header@) + rest, p)),
                }),
            decreases 4 - n,
        {
            proof {
                lemma_find_newline(data@, pos as int);
                lemma_header_len(data@, pos as int, (4 - n) as nat);
            }
            let e = match find_newline_exec(data, pos) {
                None => {
                    return Err(InventoryError::HeaderTooShort);
                },
                Some(e) => e,
            };
            let line_bytes = vstd::slice::slice_subrange(data, pos, e);
            let text = match utf8_text(line_bytes) {
                None => {
                    return Err(InventoryError::InvalidHeaderUtf8);
                },
                Some(t) => t,
            };
            proof {
                vstd::utf8::decode_utf8_encode_utf8(line_bytes@);
                vstd::utf8::encode_utf8_decode_utf8(text@);
            }
            assert(text@ == vstd::utf8::decode_utf8(data@.subrange(pos as int, e as int)));
            let ghost before = seq_views(header@);
            header.push(chars_of(text));
            assert(seq_views(header@) =~= before.push(text@));
            proof {
                let tail = header_lines(data@, e + 1, (4 - n - 1) as nat);
                match tail {
                    Ok((rest, p)) => {
                        assert(before + (seq![text@] + rest) =~= seq_views(header@) + rest);
                    },
                    Err(_) => {},
                }
            }
            assert(e < data.len());
            pos = e + 1;
            n = n + 1;
        }
        assert(seq_views(header@) + Seq::<Seq<char>>::empty() =~= seq_views(header@));
        let ghost h = seq_views(header@);
        assert(h.len() == 4);
        // Validate the header.
        let mark = version_mark();
        if !contains_substring(header[0].as_slice(), mark.as_slice()) {
            assert(h[0] == header@[0]@);
            return Err(InventoryError::UnsupportedFormat(string_of(header[0].as_slice())));
        }
        assert(h[0] == header@[0]@);
        assert(h[1] == header@[1]@);
        // Extract the project name.
        let project = project_of(header[1].as_slice());
        // Decompress the rest.
        let compressed = vstd::slice::slice_subrange(data, pos, data.len());
        assert(compressed@ =~= data@.skip(pos as int));
        let text = match inflate_text(compressed) {
            None => {
                return Err(InventoryError::DecompressFailed);
            },
            Some(t) => t,
        };
        self.add_entries(text.as_str());
        let ghost pv = string_views(self.projects@);
        self.projects.push(string_of(project.as_slice()));
        assert(string_views(self.projects@) =~= pv.push(project@));
        Ok(())
    }
}

impl Inventory {
    /// Add the `py` entries of an inflated inventory text: the name each
    /// line declares in the `py` domain, and the root module of each name.
    /// Names and roots already held are not added again; the project list
    /// is unchanged.
    pub fn add_entries(&mut self, text: &str)
        ensures
            string_views(final(self).symbols@) == add_symbols(string_views(old(self).symbols@), text_lines(text@)),
            string_views(final(self).covered_roots@) == add_roots(string_views(old(self).covered_roots@), text_lines(text@)),
            final(self).projects@ == old(self).projects@,
            old(self).well_formed() ==> final(self).well_formed(),
    {
        let lines = lines_of(text);
        let mut i: usize = 0;
        let ghost sym0 = string_views(self.symbols@);
        let ghost roots0 = string_views(self.covered_roots@);
        let ghost proj0 = self.projects@;
        assert(seq_views(lines@).take(0) =~= Seq::<Seq<char>>::empty());
        while i < lines.len()
            invariant
                i <= lines.len(),
                string_views(self.symbols@) == add_symbols(sym0, seq_views(lines@).take(i as int)),
                string_views(self.covered_roots@) == add_roots(roots0, seq_views(lines@).take(i as int)),
                self.projects@ == proj0,
            decreases lines.len() - i,
        {
            let ghost lv = seq_views(lines@);
            assert(lv.take(i + 1).drop_last() =~= lv.take(i as int));
            assert(lv.take(i + 1).last() == lines@[i as int]@);
            match py_entry_exec(lines[i].as_slice()) {
                Some(name) => {
                    insert_text(&mut self.symbols, name.as_slice());
                    let parts = split_chars(name.as_slice(), '.');
                    proof {
                        lemma_split_nonempty(name@, '.');
                    }
                    assert(seq_views(parts@)[0] == parts@[0]@);
                    insert_text(&mut self.covered_roots, parts[0].as_slice());
                },
                None => {},
            }
            i = i + 1;
        }
        assert(seq_views(lines@).take(lines.len() as int) =~= seq_views(lines@));
        proof {
            if sym0.no_duplicates() {
                lemma_add_symbols_unique(sym0, seq_views(lines@));
            }
            if roots0.no_duplicates() {
                lemma_add_roots_unique(roots0, seq_views(lines@));
            }
        }
    }
}

fn version_mark() -> (r: Vec<char>)
    ensures
        r@ == version_2_mark(),
{
    let r = vec![
        'S', 'p', 'h', 'i', 'n', 'x', ' ', 'i', 'n', 'v', 'e', 'n', 't', 'o', 'r', 'y', ' ', 'v',
        'e', 'r', 's', 'i', 'o', 'n', ' ', '2',
    ];
    assert(r@ =~= version_2_mark());
    r
}

fn project_of(line: &[char]) -> (r: Vec<char>)
    ensures
        r@ == project_name(line@),
{
    let prefix = vec!['#', ' ', 'P', 'r', 'o', 'j', 'e', 'c', 't', ':', ' '];
    assert(prefix@ =~= seq!['#', ' ', 'P', 'r', 'o', 'j', 'e', 'c', 't', ':', ' ']);
    if starts_with(line, prefix.as_slice()) {
        let r = crate::text::slice_chars(line, prefix.len(), line.len());
        assert(r@ =~= line@.skip(prefix@.len() as int));
        r
    } else {
        let r = vec!['u', 'n', 'k', 'n', 'o', 'w', 'n'];
        assert(r@ =~= seq!['u', 'n', 'k', 'n', 'o', 'w', 'n']);
        r
    }
}

fn py_entry_exec(line: &[char]) -> (r: Option<Vec<char>>)
    ensures
        match r {
            Some(v) => py_entry(line@) == Some(v@),
            None => py_entry(line@) is None,
        },
{
    let fields = split_chars(line, ' ');
    if fields.len() >= 4 {
        let py = vec!['p', 'y', ':'];
        assert(py@ =~= seq!['p', 'y', ':']);
        assert(seq_views(fields@)[1] == fields@[1]@);
        assert(seq_views(fields@)[0] == fields@[0]@);
        if starts_with(fields[1].as_slice(), py.as_slice()) {
            let f0 = &fields[0];
            let r = crate::text::slice_chars(f0.as_slice(), 0, f0.len());
            assert(r@ =~= f0@);
            return Some(r);
        }
    }
    None
}

/// The lines of a text, as `str::lines` gives them.
pub fn lines_of(s: &str) -> (r: Vec<Vec<char>>)
    ensures
        seq_views(r@) == text_lines(s@),
{
    let c = chars_of(s);
    let parts = split_chars(c.as_slice(), '\n');
    proof {
        lemma_split_nonempty(c@, '\n');
    }
    let ghost pv = seq_views(parts@);
    let n = parts.len() - 1;
    assert(pv.last() == parts@[n as int]@);
    let mut out: Vec<Vec<char>> = Vec::new();
    let mut i: usize = 0;
    while i < n
        invariant
            i <= n,
            n + 1 == parts.len(),
            pv == seq_views(parts@),
            seq_views(out@) == pv.drop_last().take(i as int).map_values(|l: Seq<char>| strip_cr(l)),
        decreases n - i,
    {
        let p = &parts[i];
        let line = if p.len() > 0 && p[p.len() - 1] == '\r' {
            crate::text::slice_chars(p.as_slice(), 0, p.len() - 1)
        } else {
            crate::text::slice_chars(p.as_slice(), 0, p.len())
        };
        assert(pv[i as int] == p@);
        assert(line@ =~= strip_cr(p@));
        let ghost before = seq_views(out@);
        out.push(line);
        assert(seq_views(out@) =~= before.push(strip_cr(p@)));
        assert(pv.drop_last().take(i + 1).map_values(|l: Seq<char>| strip_cr(l)) =~= before.push(
            strip_cr(p@),
        ));
        i = i + 1;
    }
    assert(pv.drop_last().take(n as int) =~= pv.drop_last());
    if parts[n].len() != 0 {
        let last = crate::text::slice_chars(parts[n].as_slice(), 0, parts[n].len());
        assert(last@ =~= pv.last());
        let ghost before = seq_views(out@);
        out.push(last);
        assert(seq_views(out@) =~= before.push(pv.last()));
    }
    out
}

} // verus!
