//! Diagnostics: validate docstring references and report the unresolved
//! ones in Ruff's `file:line:col: CODE message` format.
use vstd::prelude::*;
use crate::config::DoxrConfig;
use crate::discover::{components, strip_prefix_comps, strip_prefix_components};
use crate::extract::{extract_references, ref_view, refs_view, spec_extract, RefV, ReferenceKind};
use crate::graph::{
    extend_chars, find_import, find_module, find_symbol, import_pos, import_target, import_target_chars,
    lemma_import_pos, lemma_module_pos, lemma_sym_pos, module_pos, root_chars, root_of, spec_resolve,
    spec_suggest, spec_suggest_short, sym_pos, Module, SymbolGraph,
};
use crate::inventory::Inventory;
use crate::text::{
    chars_of, decimal, join_seq, push_decimal, seq_views, split_chars, split_seq, string_of,
    string_views,
};

verus! {

/// Maximum edit distance for "did you mean?" suggestions.
pub const MAX_SUGGEST_DISTANCE: usize = 2;

/// The code of an unresolved reference.
pub const UNRESOLVED_CODE: &'static str = "DREF001";

pub const MSG_UNRESOLVED: &'static str = "Unresolved docstring reference `";

pub const MSG_CLOSE: &'static str = "`";

pub const MSG_DID_YOU_MEAN: &'static str = "`. Did you mean `";

pub const MSG_QUESTION: &'static str = "`?";

pub const MSG_NOT_IN_SCOPE: &'static str = "`. No import or definition found in this file";

pub const MSG_ALL_OK: &'static str = "All references OK.";

pub const MSG_ONE_ERROR: &'static str = "Found 1 error.";

pub const MSG_FOUND: &'static str = "Found ";

pub const MSG_ERRORS: &'static str = " errors.";

/// A single diagnostic (error) to report.
#[derive(Debug)]
pub struct Diagnostic {
    pub file: String,
    pub line: usize,
    pub col: usize,
    pub code: String,
    pub message: String,
}

/// The plain contents of a diagnostic.
pub struct DiagV {
    pub file: Seq<char>,
    pub line: usize,
    pub col: usize,
    pub code: Seq<char>,
    pub message: Seq<char>,
}

pub open spec fn diag_view(d: Diagnostic) -> DiagV {
    DiagV { file: d.file@, line: d.line, col: d.col, code: d.code@, message: d.message@ }
}

pub open spec fn diags_view(ds: Seq<Diagnostic>) -> Seq<DiagV> {
    ds.map_values(|d: Diagnostic| diag_view(d))
}

impl Diagnostic {
    /// The diagnostic as one output line: `file:line:col: CODE message`.
    pub fn render(&self) -> (r: String)
        ensures
            r@ == self.file@ + seq![':'] + decimal(self.line as nat) + seq![':'] + decimal(
                self.col as nat,
            ) + seq![':', ' '] + self.code@ + seq![' '] + self.message@,
    {
        let mut out = String::new();
        out.append(self.file.as_str());
        out.push(':');
        push_decimal(&mut out, self.line);
        out.push(':');
        push_decimal(&mut out, self.col);
        out.push(':');
        out.push(' ');
        out.append(self.code.as_str());
        out.push(' ');
        out.append(self.message.as_str());
        out
    }
}

// ---------------------------------------------------------------------------
// Messages
// ---------------------------------------------------------------------------

/// "Unresolved docstring reference `X`"
pub open spec fn msg_unresolved(x: Seq<char>) -> Seq<char> {
    MSG_UNRESOLVED@ + x + MSG_CLOSE@
}

/// "Unresolved docstring reference `X`. Did you mean `S`?"
pub open spec fn msg_did_you_mean(x: Seq<char>, s: Seq<char>) -> Seq<char> {
    MSG_UNRESOLVED@ + x + MSG_DID_YOU_MEAN@ + s + MSG_QUESTION@
}

/// "Unresolved docstring reference `X`. No import or definition found in this file"
pub open spec fn msg_not_in_scope(x: Seq<char>) -> Seq<char> {
    MSG_UNRESOLVED@ + x + MSG_NOT_IN_SCOPE@
}

fn message_unresolved(x: &[char]) -> (r: String)
    ensures
        r@ == msg_unresolved(x@),
{
    let mut out = String::new();
    out.append(MSG_UNRESOLVED);
    let xs = string_of(x);
    out.append(xs.as_str());
    out.append(MSG_CLOSE);
    out
}

fn message_did_you_mean(x: &[char], s: &str) -> (r: String)
    ensures
        r@ == msg_did_you_mean(x@, s@),
{
    let mut out = String::new();
    out.append(MSG_UNRESOLVED);
    let xs = string_of(x);
    out.append(xs.as_str());
    out.append(MSG_DID_YOU_MEAN);
    out.append(s);
    out.append(MSG_QUESTION);
    out
}

fn message_not_in_scope(x: &[char]) -> (r: String)
    ensures
        r@ == msg_not_in_scope(x@),
{
    let mut out = String::new();
    out.append(MSG_UNRESOLVED);
    let xs = string_of(x);
    out.append(xs.as_str());
    out.append(MSG_NOT_IN_SCOPE);
    out
}

// ---------------------------------------------------------------------------
// Checking one reference: specification
// ---------------------------------------------------------------------------

/// Whether a reference's root module is one of the configured known modules
/// (whose references are not checked).
pub open spec fn explicitly_skipped(target: Seq<char>, known: Seq<Seq<char>>) -> bool {
    exists|k: int| 0 <= k < known.len() && root_of(#[trigger] known[k]) == root_of(target)
}

/// The fully-qualified path a short name stands for in module `m`: through
/// the first import binding it, else as a definition of `m`.
pub open spec fn expand_short(name: Seq<char>, m: Module) -> Option<Seq<char>> {
    let i = import_pos(m.imports@, name);
    if i >= 0 {
        Some(import_target(m.imports@[i]))
    } else if sym_pos(m.definitions@, name) >= 0 {
        Some(m.path@.push('.') + name)
    } else {
        None
    }
}

/// The message for a fully-qualified `target` (shown as `display`), or
/// `None` when it is fine: an internal reference must resolve in the graph;
/// an external one whose root an inventory covers must be in the
/// inventory; any other external reference is not checked.
pub open spec fn target_message(g: SymbolGraph, inv: Inventory, target: Seq<char>, display: Seq<char>) -> Option<Seq<char>> {
    if g.roots().contains(root_of(target)) {
        if spec_resolve(g.modules@, target, 0) {
            None
        } else {
            match spec_suggest(g.modules@, target, MAX_SUGGEST_DISTANCE as nat) {
                Some(s) => Some(msg_did_you_mean(display, s)),
                None => Some(msg_unresolved(display)),
            }
        }
    } else if string_views(inv.covered_roots@).contains(root_of(target)) {
        if string_views(inv.symbols@).contains(target) {
            None
        } else {
            Some(msg_unresolved(display))
        }
    } else {
        None
    }
}

/// The message for a reference found in a docstring of module `m`, or `None`.
pub open spec fn ref_message(g: SymbolGraph, inv: Inventory, known: Seq<Seq<char>>, m: Module, r: RefV) -> Option<Seq<char>> {
    if explicitly_skipped(r.target, known) {
        None
    } else {
        match r.kind {
            ReferenceKind::ShortName => match expand_short(r.target, m) {
                None => match spec_suggest_short(m, r.target, MAX_SUGGEST_DISTANCE as nat) {
                    Some(s) => Some(msg_did_you_mean(r.target, s)),
                    None => Some(msg_not_in_scope(r.target)),
                },
                Some(fqn) => target_message(g, inv, fqn, r.target),
            },
            ReferenceKind::FullyQualified => target_message(g, inv, r.target, r.target),
        }
    }
}

/// The diagnostics of the references `refs` of one docstring, in order.
pub open spec fn refs_diags(
    g: SymbolGraph,
    inv: Inventory,
    known: Seq<Seq<char>>,
    m: Module,
    file: Seq<char>,
    line: usize,
    col: usize,
    refs: Seq<RefV>,
) -> Seq<DiagV>
    decreases refs.len(),
{
    if refs.len() == 0 {
        Seq::empty()
    } else {
        let acc = refs_diags(g, inv, known, m, file, line, col, refs.drop_last());
        match ref_message(g, inv, known, m, refs.last()) {
            None => acc,
            Some(msg) => acc.push(DiagV { file, line, col, code: UNRESOLVED_CODE@, message: msg }),
        }
    }
}

/// The diagnostics of the first `n` docstrings of module `m`.
pub open spec fn module_diags(g: SymbolGraph, cfg: DoxrConfig, inv: Inventory, m: Module, file: Seq<char>, n: int) -> Seq<DiagV>
    decreases n,
{
    if n <= 0 || n > m.docstrings@.len() {
        Seq::empty()
    } else {
        let ds = m.docstrings@[n - 1];
        module_diags(g, cfg, inv, m, file, n - 1) + refs_diags(
            g,
            inv,
            string_views(cfg.known_modules@),
            m,
            file,
            ds.line,
            ds.col,
            spec_extract(ds.content@, cfg.style),
        )
    }
}

/// The diagnostics of every (dotted path, file) pair of `fm`, in order,
/// before sorting; pairs whose module is not in the graph give none.
pub open spec fn unsorted_diags(g: SymbolGraph, cfg: DoxrConfig, inv: Inventory, fm: Seq<(String, String)>) -> Seq<DiagV>
    decreases fm.len(),
{
    if fm.len() == 0 {
        Seq::empty()
    } else {
        let acc = unsorted_diags(g, cfg, inv, fm.drop_last());
        let p = module_pos(g.modules@, fm.last().0@);
        if p < 0 {
            acc
        } else {
            let m = g.modules@[p];
            acc + module_diags(g, cfg, inv, m, fm.last().1@, m.docstrings@.len() as int)
        }
    }
}

// ---------------------------------------------------------------------------
// Ordering
// ---------------------------------------------------------------------------

/// Lexicographic order of texts by character code (the order of their
/// UTF-8 bytes).
pub open spec fn text_lt(a: Seq<char>, b: Seq<char>) -> bool
    decreases a.len(),
{
    if a.len() == 0 {
        b.len() > 0
    } else if b.len() == 0 {
        false
    } else if a[0] != b[0] {
        (a[0] as u32) < (b[0] as u32)
    } else {
        text_lt(a.drop_first(), b.drop_first())
    }
}

/// Order of diagnostics: by file, then line, then column.
pub open spec fn diag_lt(a: DiagV, b: DiagV) -> bool {
    text_lt(a.file, b.file) || (a.file == b.file && (a.line < b.line || (a.line == b.line && a.col
        < b.col)))
}

/// `d` inserted into `s` after every element not after it.
pub open spec fn insert_sorted(s: Seq<DiagV>, d: DiagV) -> Seq<DiagV>
    decreases s.len(),
{
    if s.len() == 0 {
        seq![d]
    } else if diag_lt(d, s.last()) {
        insert_sorted(s.drop_last(), d).push(s.last())
    } else {
        s.push(d)
    }
}

/// Stable sort of diagnostics by file, line and column.
pub open spec fn sort_diags(s: Seq<DiagV>) -> Seq<DiagV>
    decreases s.len(),
{
    if s.len() == 0 {
        s
    } else {
        insert_sorted(sort_diags(s.drop_last()), s.last())
    }
}

/// The diagnostics `check` reports.
pub open spec fn spec_check(g: SymbolGraph, cfg: DoxrConfig, inv: Inventory, fm: Seq<(String, String)>) -> Seq<DiagV> {
    sort_diags(unsorted_diags(g, cfg, inv, fm))
}

fn text_lt_exec(a: &[char], b: &[char]) -> (r: bool)
    ensures
        r == text_lt(a@, b@),
{
    let mut i: usize = 0;
    assert(a@.skip(0) =~= a@);
    assert(b@.skip(0) =~= b@);
    while i < a.len() && i < b.len() && a[i] == b[i]
        invariant
            i <= a.len(),
            i <= b.len(),
            text_lt(a@, b@) == text_lt(a@.skip(i as int), b@.skip(i as int)),
        decreases a.len() - i,
    {
        assert(a@.skip(i as int).drop_first() =~= a@.skip(i + 1));
        assert(b@.skip(i as int).drop_first() =~= b@.skip(i + 1));
        i = i + 1;
    }
    if i == a.len() {
        return i < b.len();
    }
    if i == b.len() {
        return false;
    }
    assert(a@.skip(i as int)[0] == a@[i as int]);
    assert(b@.skip(i as int)[0] == b@[i as int]);
    (a[i] as u32) < (b[i] as u32)
}

fn diag_lt_exec(a: &Diagnostic, b: &Diagnostic) -> (r: bool)
    ensures
        r == diag_lt(diag_view(*a), diag_view(*b)),
{
    let af = chars_of(a.file.as_str());
    let bf = chars_of(b.file.as_str());
    if text_lt_exec(af.as_slice(), bf.as_slice()) {
        return true;
    }
    crate::text::chars_eq(af.as_slice(), bf.as_slice()) && (a.line < b.line || (a.line == b.line
        && a.col < b.col))
}

proof fn lemma_insert_at(s: Seq<DiagV>, d: DiagV, j: int)
    requires
        0 <= j <= s.len(),
        forall|k: int| j <= k < s.len() ==> diag_lt(d, #[trigger] s[k]),
        j == 0 || !diag_lt(d, s[j - 1]),
    ensures
        insert_sorted(s, d) == s.take(j).push(d) + s.skip(j),
    decreases s.len(),
{
    if s.len() == 0 {
        assert(s.take(j).push(d) + s.skip(j) =~= seq![d]);
    } else if j == s.len() {
        assert(!diag_lt(d, s.last()));
        assert(s.take(j).push(d) + s.skip(j) =~= s.push(d));
    } else {
        assert(diag_lt(d, s[s.len() - 1]));
        lemma_insert_at(s.drop_last(), d, j);
        assert(s.drop_last().take(j) =~= s.take(j));
        assert((s.take(j).push(d) + s.drop_last().skip(j)).push(s.last()) =~= s.take(j).push(d) + s.skip(j));
    }
}

/// Insert `d` into the sorted list `v`, after every element not after it.
fn insert_diag(v: &mut Vec<Diagnostic>, d: Diagnostic)
    ensures
        diags_view(final(v)@) == insert_sorted(diags_view(old(v)@), diag_view(d)),
{
    let ghost s = diags_view(v@);
    let mut j: usize = v.len();
    while j > 0 && diag_lt_exec(&d, &v[j - 1])
        invariant
            j <= v.len(),
            s == diags_view(v@),
            forall|k: int| j <= k < s.len() ==> diag_lt(diag_view(d), #[trigger] s[k]),
        decreases j,
    {
        assert(s[j - 1] == diag_view(v@[j - 1]));
        j = j - 1;
    }
    proof {
        if j > 0 {
            assert(s[j - 1] == diag_view(v@[j - 1]));
        }
        lemma_insert_at(s, diag_view(d), j as int);
    }
    let ghost dv = diag_view(d);
    v.insert(j, d);
    assert(diags_view(v@) =~= s.take(j as int).push(dv) + s.skip(j as int));
}

// ---------------------------------------------------------------------------
// Checking: implementation
// ---------------------------------------------------------------------------

/// Check if a reference should be skipped entirely (explicit config).
fn is_explicitly_skipped(target: &str, config: &DoxrConfig) -> (r: bool)
    ensures
        r == explicitly_skipped(target@, string_views(config.known_modules@)),
{
    let root = root_chars(target);
    let mut k: usize = 0;
    while k < config.known_modules.len()
        invariant
            k <= config.known_modules.len(),
            root@ == root_of(target@),
            forall|j: int| 0 <= j < k ==> root_of(#[trigger] string_views(config.known_modules@)[j]) != root_of(target@),
        decreases config.known_modules.len() - k,
    {
        let km_root = root_chars(config.known_modules[k].as_str());
        assert(string_views(config.known_modules@)[k as int] == config.known_modules@[k as int]@);
        if crate::text::chars_eq(km_root.as_slice(), root.as_slice()) {
            return true;
        }
        k = k + 1;
    }
    false
}

/// Expand a short name (e.g. `User`) to a fully-qualified path using the
/// module's imports and definitions.  Returns `None` if the name isn't in scope.
pub fn expand_short_name(name: &str, module: &Module) -> (r: Option<String>)
    ensures
        match r {
            Some(s) => expand_short(name@, *module) == Some(s@),
            None => expand_short(name@, *module) is None,
        },
{
    let n = chars_of(name);
    proof {
        lemma_import_pos(module.imports@, name@);
    }
    match find_import(&module.imports, n.as_slice()) {
        Some(i) => {
            let t = import_target_chars(&module.imports[i]);
            return Some(string_of(t.as_slice()));
        },
        None => {},
    }
    match find_symbol(&module.definitions, n.as_slice()) {
        Some(_) => {
            let mut out = chars_of(module.path.as_str());
            out.push('.');
            extend_chars(&mut out, n.as_slice());
            Some(string_of(out.as_slice()))
        },
        None => None,
    }
}

fn target_message_exec(graph: &SymbolGraph, inventory: &Inventory, target: &str, display: &[char]) -> (r: Option<String>)
    ensures
        match r {
            Some(s) => target_message(*graph, *inventory, target@, display@) == Some(s@),
            None => target_message(*graph, *inventory, target@, display@) is None,
        },
{
    if graph.is_internal(target) {
        if graph.resolve(target) {
            None
        } else {
            match graph.suggest(target, MAX_SUGGEST_DISTANCE) {
                Some(s) => Some(message_did_you_mean(display, s.as_str())),
                None => Some(message_unresolved(display)),
            }
        }
    } else if inventory.covers_root(target) {
        if inventory.contains(target) {
            None
        } else {
            Some(message_unresolved(display))
        }
    } else {
        None
    }
}

fn ref_message_exec(graph: &SymbolGraph, config: &DoxrConfig, inventory: &Inventory, module: &Module, target: &str, kind: ReferenceKind) -> (r: Option<String>)
    ensures
        match r {
            Some(s) => ref_message(*graph, *inventory, string_views(config.known_modules@), *module, RefV { target: target@, offset: 0, kind }) == Some(s@),
            None => ref_message(*graph, *inventory, string_views(config.known_modules@), *module, RefV { target: target@, offset: 0, kind }) is None,
        },
{
    if is_explicitly_skipped(target, config) {
        return None;
    }
    let t = chars_of(target);
    match kind {
        ReferenceKind::ShortName => match expand_short_name(target, module) {
            None => match graph.suggest_short_name(target, module, MAX_SUGGEST_DISTANCE) {
                Some(s) => Some(message_did_you_mean(t.as_slice(), s.as_str())),
                None => Some(message_not_in_scope(t.as_slice())),
            },
            Some(fqn) => target_message_exec(graph, inventory, fqn.as_str(), t.as_slice()),
        },
        ReferenceKind::FullyQualified => target_message_exec(graph, inventory, target, t.as_slice()),
    }
}

/// Check all docstrings of the modules named in `file_map` (pairs of dotted
/// path and file path) and return the diagnostics, sorted by file, line and
/// column.
pub fn check(graph: &SymbolGraph, config: &DoxrConfig, inventory: &Inventory, file_map: &[(String, String)]) -> (r: Vec<Diagnostic>)
    ensures
        diags_view(r@) == spec_check(*graph, *config, *inventory, file_map@),
{
    let ghost known = string_views(config.known_modules@);
    let mut unsorted: Vec<Diagnostic> = Vec::new();
    let mut f: usize = 0;
    assert(file_map@.take(0) =~= Seq::<(String, String)>::empty());
    assert(diags_view(unsorted@) =~= Seq::<DiagV>::empty());
    while f < file_map.len()
        invariant
            f <= file_map.len(),
            known == string_views(config.known_modules@),
            diags_view(unsorted@) == unsorted_diags(*graph, *config, *inventory, file_map@.take(f as int)),
        decreases file_map.len() - f,
    {
        assert(file_map@.take(f + 1).drop_last() =~= file_map@.take(f as int));
        assert(file_map@.take(f + 1).last() == file_map@[f as int]);
        let (dotted, file_path) = &file_map[f];
        let key = chars_of(dotted.as_str());
        proof {
            lemma_module_pos(graph.modules@, key@);
        }
        match find_module(&graph.modules, key.as_slice()) {
            None => {},
            Some(p) => {
                let module = &graph.modules[p];
                let ghost base = diags_view(unsorted@);
                let mut d: usize = 0;
                while d < module.docstrings.len()
                    invariant
                        d <= module.docstrings.len(),
                        known == string_views(config.known_modules@),
                        *module == graph.modules@[p as int],
                        diags_view(unsorted@) == base + module_diags(*graph, *config, *inventory, *module, file_path@, d as int),
                    decreases module.docstrings.len() - d,
                {
                    let ds = &module.docstrings[d];
                    let refs = extract_references(ds.content.as_str(), &config.style);
                    let ghost rv = refs_view(refs@);
                    let ghost mid = diags_view(unsorted@);
                    let mut k: usize = 0;
                    assert(rv.take(0) =~= Seq::<RefV>::empty());
                    assert(mid + Seq::<DiagV>::empty() =~= mid);
                    while k < refs.len()
                        invariant
                            k <= refs.len(),
                            rv == refs_view(refs@),
                            known == string_views(config.known_modules@),
                            diags_view(unsorted@) == mid + refs_diags(*graph, *inventory, known, *module, file_path@, ds.line, ds.col, rv.take(k as int)),
                        decreases refs.len() - k,
                    {
                        assert(rv.take(k + 1).drop_last() =~= rv.take(k as int));
                        assert(rv.take(k + 1).last() == ref_view(refs@[k as int]));
                        let r = &refs[k];
                        let msg = ref_message_exec(graph, config, inventory, module, r.target.as_str(), r.kind);
                        assert(ref_message(*graph, *inventory, known, *module, RefV { target: r.target@, offset: 0, kind: r.kind })
                            == ref_message(*graph, *inventory, known, *module, ref_view(*r)));
                        match msg {
                            None => {},
                            Some(message) => {
                                let code = string_of(chars_of(UNRESOLVED_CODE).as_slice());
                                let diag = Diagnostic {
                                    file: string_of(chars_of(file_path.as_str()).as_slice()),
                                    line: ds.line,
                                    col: ds.col,
                                    code,
                                    message,
                                };
                                let ghost before = diags_view(unsorted@);
                                unsorted.push(diag);
                                assert(diags_view(unsorted@) =~= before.push(diag_view(diag)));
                            },
                        }
                        k = k + 1;
                    }
                    assert(rv.take(refs.len() as int) =~= rv);
                    assert(module_diags(*graph, *config, *inventory, *module, file_path@, d + 1)
                        == module_diags(*graph, *config, *inventory, *module, file_path@, d as int) + refs_diags(
                        *graph, *inventory, known, *module, file_path@, ds.line, ds.col, rv));
                    d = d + 1;
                }
                assert(unsorted_diags(*graph, *config, *inventory, file_map@.take(f + 1))
                    == unsorted_diags(*graph, *config, *inventory, file_map@.take(f as int)) + module_diags(
                    *graph, *config, *inventory, *module, file_path@, module.docstrings@.len() as int));
            },
        }
        f = f + 1;
    }
    assert(file_map@.take(file_map.len() as int) =~= file_map@);
    // Sort by file, then line, then column for stable output.
    let ghost all = diags_view(unsorted@);
    let mut sorted: Vec<Diagnostic> = Vec::new();
    let mut rest = unsorted;
    let mut i: usize = 0;
    let n = rest.len();
    assert(all.take(0) =~= Seq::<DiagV>::empty());
    assert(diags_view(sorted@) =~= Seq::<DiagV>::empty());
    assert(all.skip(0) =~= all);
    while i < n
        invariant
            i <= n,
            n == all.len(),
            diags_view(rest@) == all.skip(i as int),
            diags_view(sorted@) == sort_diags(all.take(i as int)),
        decreases n - i,
    {
        let ghost rv = diags_view(rest@);
        assert(rv.len() == rest@.len());
        assert(rv[0] == diag_view(rest@[0]));
        assert(rv[0] == all[i as int]);
        let ghost old_rest = rest@;
        let d = rest.remove(0);
        assert(diag_view(d) == all[i as int]);
        assert(rest@ == old_rest.remove(0));
        assert forall|k: int| 0 <= k < diags_view(rest@).len() implies diags_view(rest@)[k] == all.skip(i + 1)[k] by {
            assert(rest@[k] == old_rest[k + 1]);
            assert(rv[k + 1] == diag_view(old_rest[k + 1]));
        }
        assert(diags_view(rest@) =~= all.skip(i + 1));
        insert_diag(&mut sorted, d);
        assert(all.take(i + 1).drop_last() =~= all.take(i as int));
        assert(all.take(i + 1).last() == all[i as int]);
        i = i + 1;
    }
    assert(all.take(n as int) =~= all);
    sorted
}


// ---------------------------------------------------------------------------
// Output helpers
// ---------------------------------------------------------------------------

/// The summary line for `n` diagnostics.
pub open spec fn summary_text(n: nat) -> Seq<char> {
    if n == 0 {
        MSG_ALL_OK@
    } else if n == 1 {
        MSG_ONE_ERROR@
    } else {
        MSG_FOUND@ + decimal(n) + MSG_ERRORS@
    }
}

/// Format diagnostics as a summary line.
pub fn summary(diagnostics: &[Diagnostic]) -> (r: String)
    ensures
        r@ == summary_text(diagnostics@.len()),
{
    let n = diagnostics.len();
    if n == 0 {
        string_of(chars_of(MSG_ALL_OK).as_slice())
    } else if n == 1 {
        string_of(chars_of(MSG_ONE_ERROR).as_slice())
    } else {
        let mut out = String::new();
        out.append(MSG_FOUND);
        push_decimal(&mut out, n);
        out.append(MSG_ERRORS);
        out
    }
}

/// A piece of a path (text between separators) that names no component in
/// the body of a path: empty, or `.`.
pub open spec fn ignorable_piece(p: Seq<char>) -> bool {
    p.len() == 0 || p == seq!['.']
}

/// Whether piece `i` of a path gives a component (as `Path::components`
/// reads it): not empty, and not `.` unless it is the very first piece of a
/// relative path.
pub open spec fn is_comp_piece(p: Seq<char>, i: int, relative: bool) -> bool {
    p.len() > 0 && !(p == seq!['.'] && !(relative && i == 0))
}

/// The index just after the piece that gives the `need`-th component
/// counted from piece `i`.
pub open spec fn after_comps(pieces: Seq<Seq<char>>, i: int, need: int, relative: bool) -> int
    decreases pieces.len() - i,
{
    if need <= 0 || i < 0 || i >= pieces.len() {
        i
    } else if is_comp_piece(pieces[i], i, relative) {
        after_comps(pieces, i + 1, need - 1, relative)
    } else {
        after_comps(pieces, i + 1, need, relative)
    }
}

/// The first index from `a` on whose piece is not ignorable (or the end).
pub open spec fn front_end(pieces: Seq<Seq<char>>, a: int) -> int
    decreases pieces.len() - a,
{
    if 0 <= a < pieces.len() && ignorable_piece(pieces[a]) {
        front_end(pieces, a + 1)
    } else {
        a
    }
}

/// The end `b` lowered past ignorable pieces, not below `lo`.
pub open spec fn back_end(pieces: Seq<Seq<char>>, lo: int, b: int) -> int
    decreases b,
{
    if b > lo && b > 0 && ignorable_piece(pieces[b - 1]) {
        back_end(pieces, lo, b - 1)
    } else {
        b
    }
}

/// What `Path::strip_prefix(root)` followed by `display` gives of `path`:
/// the text of `path` after the pieces that hold the root's components,
/// without the empty and `.` pieces at its start and end.  When the root
/// has no components, the path is kept as it is but for empty and `.`
/// pieces at its end, down to its root (`/`) or leading `.`.  When the root
/// is not a component-wise prefix, `path` as it is.
pub open spec fn spec_display_path(path: Seq<char>, project_root: Seq<char>) -> Seq<char> {
    match strip_prefix_comps(path, project_root) {
        None => path,
        Some(_) => {
            let pieces = split_seq(path, '/');
            let relative = !(path.len() > 0 && path[0] == '/');
            let k = components(project_root).len();
            if k == 0 {
                if !relative {
                    seq!['/'] + join_seq(pieces.subrange(1, back_end(pieces, 1, pieces.len() as int)), '/')
                } else if pieces[0] == seq!['.'] {
                    let b = back_end(pieces, 1, pieces.len() as int);
                    if b == 1 {
                        seq!['.']
                    } else {
                        seq!['.', '/'] + join_seq(pieces.subrange(1, b), '/')
                    }
                } else {
                    join_seq(pieces.subrange(0, back_end(pieces, 0, pieces.len() as int)), '/')
                }
            } else {
                let need = if relative {
                    k as int
                } else {
                    k - 1
                };
                let a = front_end(pieces, after_comps(pieces, 0, need, relative));
                join_seq(pieces.subrange(a, back_end(pieces, a, pieces.len() as int)), '/')
            }
        },
    }
}

/// Whether a piece is empty or `.`.
fn ignorable_exec(p: &Vec<char>) -> (r: bool)
    ensures
        r == ignorable_piece(p@),
{
    let r = p.len() == 0 || (p.len() == 1 && p[0] == '.');
    assert(r == ignorable_piece(p@)) by {
        if p@ == seq!['.'] {
            assert(p@.len() == 1 && p@[0] == '.');
        }
        if p.len() == 1 && p[0] == '.' {
            assert(p@ =~= seq!['.']);
        }
    }
    r
}

/// Lower `b` past ignorable pieces, not below `lo`.
fn back_end_exec(pieces: &Vec<Vec<char>>, lo: usize, b: usize) -> (r: usize)
    requires
        lo <= b <= pieces.len(),
    ensures
        r as int == back_end(seq_views(pieces@), lo as int, b as int),
        lo <= r <= b,
{
    let ghost pv = seq_views(pieces@);
    let mut e = b;
    while e > lo && ignorable_exec(&pieces[e - 1])
        invariant
            lo <= e <= b <= pieces.len(),
            pv == seq_views(pieces@),
            back_end(pv, lo as int, b as int) == back_end(pv, lo as int, e as int),
        decreases e,
    {
        assert(pv[e - 1] == pieces@[e - 1]@);
        e = e - 1;
    }
    if e > lo {
        assert(pv[e - 1] == pieces@[e - 1]@);
    }
    e
}

/// Relativize a file path for display.
pub fn display_path(path: &str, project_root: &str) -> (r: String)
    ensures
        r@ == spec_display_path(path@, project_root@),
{
    let p = chars_of(path);
    let root = chars_of(project_root);
    if strip_prefix_components(p.as_slice(), root.as_slice()).is_none() {
        return string_of(p.as_slice());
    }
    let pieces = split_chars(p.as_slice(), '/');
    proof {
        crate::text::lemma_split_nonempty(p@, '/');
    }
    let ghost pv = seq_views(pieces@);
    let n = pieces.len();
    let relative = !(p.len() > 0 && p[0] == '/');
    let k = crate::discover::components_of(root.as_slice()).len();
    if k == 0 {
        if !relative {
            let b = back_end_exec(&pieces, 1, n);
            let body = crate::text::join_range(&pieces, 1, b, '/');
            let mut out: Vec<char> = vec!['/'];
            extend_chars(&mut out, body.as_slice());
            assert(out@ =~= seq!['/'] + body@);
            return string_of(out.as_slice());
        }
        assert(pv[0] == pieces@[0]@);
        let first_dot = pieces[0].len() == 1 && pieces[0][0] == '.';
        assert(first_dot == (pv[0] == seq!['.'])) by {
            if pv[0] == seq!['.'] {
                assert(pv[0].len() == 1 && pv[0][0] == '.');
            }
            if first_dot {
                assert(pv[0] =~= seq!['.']);
            }
        }
        if first_dot {
            let b = back_end_exec(&pieces, 1, n);
            if b == 1 {
                let dot = vec!['.'];
                assert(dot@ =~= seq!['.']);
                return string_of(dot.as_slice());
            }
            let body = crate::text::join_range(&pieces, 1, b, '/');
            let mut out: Vec<char> = vec!['.', '/'];
            extend_chars(&mut out, body.as_slice());
            assert(out@ =~= seq!['.', '/'] + body@);
            return string_of(out.as_slice());
        }
        let b = back_end_exec(&pieces, 0, n);
        let body = crate::text::join_range(&pieces, 0, b, '/');
        return string_of(body.as_slice());
    }
    let mut need: usize = if relative {
        k
    } else {
        k - 1
    };
    let mut i: usize = 0;
    while need > 0 && i < n
        invariant
            i <= n == pieces.len(),
            pv == seq_views(pieces@),
            after_comps(pv, 0, (if relative {
                k as int
            } else {
                k - 1
            }), relative) == after_comps(pv, i as int, need as int, relative),
        decreases n - i,
    {
        assert(pv[i as int] == pieces@[i as int]@);
        let pc = &pieces[i];
        let is_dot = pc.len() == 1 && pc[0] == '.';
        assert(is_dot == (pc@ == seq!['.'])) by {
            if pc@ == seq!['.'] {
                assert(pc@.len() == 1 && pc@[0] == '.');
            }
            if is_dot {
                assert(pc@ =~= seq!['.']);
            }
        }
        if pc.len() > 0 && !(is_dot && !(relative && i == 0)) {
            need = need - 1;
        }
        i = i + 1;
    }
    let mut a = i;
    while a < n && ignorable_exec(&pieces[a])
        invariant
            i <= a <= n == pieces.len(),
            pv == seq_views(pieces@),
            front_end(pv, i as int) == front_end(pv, a as int),
        decreases n - a,
    {
        assert(pv[a as int] == pieces@[a as int]@);
        a = a + 1;
    }
    if a < n {
        assert(pv[a as int] == pieces@[a as int]@);
    }
    let b = back_end_exec(&pieces, a, n);
    let body = crate::text::join_range(&pieces, a, b, '/');
    string_of(body.as_slice())
}

// ---------------------------------------------------------------------------
// Laws: the reported diagnostics are sorted
// ---------------------------------------------------------------------------

proof fn lemma_text_lt_irrefl(a: Seq<char>)
    ensures
        !text_lt(a, a),
    decreases a.len(),
{
    if a.len() > 0 {
        lemma_text_lt_irrefl(a.drop_first());
    }
}

proof fn lemma_text_lt_trans(a: Seq<char>, b: Seq<char>, c: Seq<char>)
    requires
        text_lt(a, b),
        text_lt(b, c),
    ensures
        text_lt(a, c),
    decreases a.len(),
{
    if a.len() > 0 && b.len() > 0 && c.len() > 0 && a[0] == b[0] && b[0] == c[0] {
        lemma_text_lt_trans(a.drop_first(), b.drop_first(), c.drop_first());
    }
}

proof fn lemma_text_lt_total(a: Seq<char>, b: Seq<char>)
    requires
        a != b,
    ensures
        text_lt(a, b) || text_lt(b, a),
    decreases a.len(),
{
    if a.len() > 0 && b.len() > 0 && a[0] == b[0] {
        if a.drop_first() == b.drop_first() {
            assert(a =~= seq![a[0]] + a.drop_first());
            assert(b =~= seq![b[0]] + b.drop_first());
        }
        lemma_text_lt_total(a.drop_first(), b.drop_first());
    } else if a.len() > 0 && b.len() > 0 {
        let x = a[0];
        let y = b[0];
        if (x as u32) == (y as u32) {
            vstd::utf8::char_u32_cast(x, x as u32);
            vstd::utf8::char_u32_cast(y, y as u32);
        }
    } else if a.len() == 0 && b.len() == 0 {
        assert(a =~= b);
    }
}

/// Two diagnostics have the same position.
pub open spec fn same_position(a: DiagV, b: DiagV) -> bool {
    a.file == b.file && a.line == b.line && a.col == b.col
}

proof fn lemma_diag_lt_order(a: DiagV, b: DiagV, c: DiagV)
    ensures
        !diag_lt(a, a),
        diag_lt(a, b) && diag_lt(b, c) ==> diag_lt(a, c),
        !diag_lt(a, b) && !diag_lt(b, a) ==> same_position(a, b),
        !diag_lt(a, b) && !diag_lt(b, c) ==> !diag_lt(a, c),
        diag_lt(a, b) ==> !diag_lt(b, a),
{
    lemma_text_lt_irrefl(a.file);
    lemma_text_lt_irrefl(b.file);
    if text_lt(a.file, b.file) && text_lt(b.file, c.file) {
        lemma_text_lt_trans(a.file, b.file, c.file);
    }
    if text_lt(a.file, b.file) && text_lt(b.file, a.file) {
        lemma_text_lt_trans(a.file, b.file, a.file);
    }
    if text_lt(b.file, c.file) && text_lt(c.file, b.file) {
        lemma_text_lt_trans(b.file, c.file, b.file);
    }
    if text_lt(c.file, b.file) && text_lt(b.file, a.file) {
        lemma_text_lt_trans(c.file, b.file, a.file);
    }
    if a.file != b.file {
        lemma_text_lt_total(a.file, b.file);
    }
    if b.file != c.file {
        lemma_text_lt_total(b.file, c.file);
    }
    if a.file != c.file {
        lemma_text_lt_total(a.file, c.file);
    }
    if text_lt(a.file, c.file) && text_lt(c.file, a.file) {
        lemma_text_lt_trans(a.file, c.file, a.file);
    }
    lemma_text_lt_irrefl(c.file);
}

/// Whether no element is placed after a greater-positioned one.
pub open spec fn diags_sorted(s: Seq<DiagV>) -> bool {
    forall|i: int, j: int| 0 <= i < j < s.len() ==> !diag_lt(#[trigger] s[j], #[trigger] s[i])
}

proof fn lemma_insert_sorted_elems(s: Seq<DiagV>, d: DiagV)
    ensures
        insert_sorted(s, d).len() == s.len() + 1,
        forall|k: int| 0 <= k < insert_sorted(s, d).len() ==> (insert_sorted(s, d)[k] == d
            || s.contains(#[trigger] insert_sorted(s, d)[k])),
    decreases s.len(),
{
    if s.len() > 0 && diag_lt(d, s.last()) {
        lemma_insert_sorted_elems(s.drop_last(), d);
        let r0 = insert_sorted(s.drop_last(), d);
        assert forall|k: int| 0 <= k < insert_sorted(s, d).len() implies (insert_sorted(s, d)[k] == d
            || s.contains(#[trigger] insert_sorted(s, d)[k])) by {
            if k < r0.len() {
                if r0[k] != d {
                    assert(s.drop_last().contains(r0[k]));
                    let w = choose|w: int| 0 <= w < s.drop_last().len() && s.drop_last()[w] == r0[k];
                    assert(s[w] == r0[k]);
                }
            } else {
                assert(s[s.len() - 1] == s.last());
            }
        }
    } else if s.len() > 0 {
        assert forall|k: int| 0 <= k < insert_sorted(s, d).len() implies (insert_sorted(s, d)[k] == d
            || s.contains(#[trigger] insert_sorted(s, d)[k])) by {
            if k < s.len() {
                assert(s[k] == insert_sorted(s, d)[k]);
            }
        }
    }
}

proof fn lemma_insert_sorted_sorted(s: Seq<DiagV>, d: DiagV)
    requires
        diags_sorted(s),
    ensures
        diags_sorted(insert_sorted(s, d)),
    decreases s.len(),
{
    if s.len() == 0 {
        return;
    }
    let l = s.last();
    if diag_lt(d, l) {
        let s0 = s.drop_last();
        assert(diags_sorted(s0)) by {
            assert forall|i: int, j: int| 0 <= i < j < s0.len() implies !diag_lt(#[trigger] s0[j], #[trigger] s0[i]) by {
                assert(s0[i] == s[i] && s0[j] == s[j]);
            }
        }
        lemma_insert_sorted_sorted(s0, d);
        lemma_insert_sorted_elems(s0, d);
        let r0 = insert_sorted(s0, d);
        let r = r0.push(l);
        assert forall|i: int, j: int| 0 <= i < j < r.len() implies !diag_lt(#[trigger] r[j], #[trigger] r[i]) by {
            if j < r0.len() {
                assert(r[i] == r0[i] && r[j] == r0[j]);
            } else {
                assert(r[j] == l);
                assert(r[i] == r0[i]);
                if r0[i] == d {
                    lemma_diag_lt_order(d, l, d);
                } else {
                    assert(s0.contains(r0[i]));
                    let w = choose|w: int| 0 <= w < s0.len() && s0[w] == r0[i];
                    assert(s[w] == r0[i]);
                    assert(s[s.len() - 1] == l);
                }
            }
        }
    } else {
        let r = s.push(d);
        assert forall|i: int, j: int| 0 <= i < j < r.len() implies !diag_lt(#[trigger] r[j], #[trigger] r[i]) by {
            if j < s.len() {
                assert(r[i] == s[i] && r[j] == s[j]);
            } else {
                assert(r[j] == d);
                assert(r[i] == s[i]);
                if i < s.len() - 1 {
                    assert(s[s.len() - 1] == l);
                    assert(!diag_lt(l, s[i]));
                    lemma_diag_lt_order(d, l, s[i]);
                    lemma_diag_lt_order(s[i], l, d);
                    if diag_lt(d, s[i]) {
                        lemma_diag_lt_order(d, s[i], l);
                    }
                } else {
                    assert(s[i] == l);
                }
            }
        }
    }
}

/// Sorting gives the diagnostics in order of file, line and column.
pub proof fn law_sort_diags_sorted(s: Seq<DiagV>)
    ensures
        diags_sorted(sort_diags(s)),
        sort_diags(s).len() == s.len(),
    decreases s.len(),
{
    if s.len() > 0 {
        law_sort_diags_sorted(s.drop_last());
        lemma_insert_sorted_sorted(sort_diags(s.drop_last()), s.last());
        lemma_insert_sorted_elems(sort_diags(s.drop_last()), s.last());
    }
}

/// The diagnostics `check` reports are in order of file, line and column.
pub proof fn law_check_sorted(g: SymbolGraph, cfg: DoxrConfig, inv: Inventory, fm: Seq<(String, String)>)
    ensures
        diags_sorted(spec_check(g, cfg, inv, fm)),
{
    law_sort_diags_sorted(unsorted_diags(g, cfg, inv, fm));
}
// ---------------------------------------------------------------------------
// Laws: which references are reported
// ---------------------------------------------------------------------------

/// A fully-qualified reference into this project that resolves in the graph
/// is not reported.
pub proof fn law_resolved_reference_not_reported(g: SymbolGraph, inv: Inventory, known: Seq<Seq<char>>, m: Module, r: RefV)
    requires
        r.kind == ReferenceKind::FullyQualified,
        g.roots().contains(root_of(r.target)),
        spec_resolve(g.modules@, r.target, 0),
    ensures
        ref_message(g, inv, known, m, r) is None,
{
}

/// A fully-qualified reference into this project that does not resolve is
/// reported, unless its root is a known module.
pub proof fn law_unresolved_reference_reported(g: SymbolGraph, inv: Inventory, known: Seq<Seq<char>>, m: Module, r: RefV)
    requires
        !explicitly_skipped(r.target, known),
        r.kind == ReferenceKind::FullyQualified,
        g.roots().contains(root_of(r.target)),
        !spec_resolve(g.modules@, r.target, 0),
    ensures
        ref_message(g, inv, known, m, r) is Some,
{
}

/// A short name that no import or definition of the module binds is
/// reported, unless its root is a known module.
pub proof fn law_unbound_short_name_reported(g: SymbolGraph, inv: Inventory, known: Seq<Seq<char>>, m: Module, r: RefV)
    requires
        !explicitly_skipped(r.target, known),
        r.kind == ReferenceKind::ShortName,
        expand_short(r.target, m) is None,
    ensures
        ref_message(g, inv, known, m, r) is Some,
{
}

/// A short name that the module binds is checked as the fully-qualified
/// path it stands for: it is reported exactly when a fully-qualified
/// reference to that path would be, with no known modules configured.
pub proof fn law_bound_short_name_checked_as_path(
    g: SymbolGraph,
    inv: Inventory,
    known: Seq<Seq<char>>,
    m: Module,
    r: RefV,
    fqn: Seq<char>,
)
    requires
        !explicitly_skipped(r.target, known),
        r.kind == ReferenceKind::ShortName,
        expand_short(r.target, m) == Some(fqn),
    ensures
        ref_message(g, inv, known, m, r) is Some <==> ref_message(
            g,
            inv,
            Seq::empty(),
            m,
            RefV { target: fqn, offset: r.offset, kind: ReferenceKind::FullyQualified },
        ) is Some,
{
    let f = RefV { target: fqn, offset: r.offset, kind: ReferenceKind::FullyQualified };
    assert(!explicitly_skipped(fqn, Seq::<Seq<char>>::empty()));
}

/// A short name bound by an import or a definition, whose path lies in this
/// project and does not resolve, is reported; one whose path resolves is not.
pub proof fn law_bound_short_name_unresolved_reported(
    g: SymbolGraph,
    inv: Inventory,
    known: Seq<Seq<char>>,
    m: Module,
    r: RefV,
    fqn: Seq<char>,
)
    requires
        !explicitly_skipped(r.target, known),
        r.kind == ReferenceKind::ShortName,
        expand_short(r.target, m) == Some(fqn),
        g.roots().contains(root_of(fqn)),
    ensures
        ref_message(g, inv, known, m, r) is Some <==> !spec_resolve(g.modules@, fqn, 0),
{
}

/// A short name is checked as the path it stands for: through the first
/// import that binds it, even when the module also defines the name.
pub proof fn law_short_name_prefers_imports(name: Seq<char>, m: Module)
    requires
        import_pos(m.imports@, name) >= 0,
    ensures
        expand_short(name, m) == Some(import_target(m.imports@[import_pos(m.imports@, name)])),
{
}

/// A short name that no import binds but the module defines stands for
/// `<module>.<name>`.
pub proof fn law_short_name_local_definition(name: Seq<char>, m: Module)
    requires
        import_pos(m.imports@, name) < 0,
        sym_pos(m.definitions@, name) >= 0,
    ensures
        expand_short(name, m) == Some(m.path@.push('.') + name),
{
}

/// References whose root is a configured known module are never reported.
pub proof fn law_known_modules_skipped(g: SymbolGraph, inv: Inventory, known: Seq<Seq<char>>, m: Module, r: RefV, k: int)
    requires
        0 <= k < known.len(),
        root_of(known[k]) == root_of(r.target),
    ensures
        ref_message(g, inv, known, m, r) is None,
{
    assert(explicitly_skipped(r.target, known));
}

/// A fully-qualified reference outside this project is reported only when
/// an inventory covers its root and does not list it.
pub proof fn law_external_reference(g: SymbolGraph, inv: Inventory, known: Seq<Seq<char>>, m: Module, r: RefV)
    requires
        !explicitly_skipped(r.target, known),
        r.kind == ReferenceKind::FullyQualified,
        !g.roots().contains(root_of(r.target)),
    ensures
        ref_message(g, inv, known, m, r) is Some <==> (string_views(inv.covered_roots@).contains(
            root_of(r.target),
        ) && !string_views(inv.symbols@).contains(r.target)),
{
}

} // verus!
