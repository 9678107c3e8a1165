//! Symbol graph: a lightweight representation of a Python project's namespace.
//!
//! The graph holds every parsed module with its definitions (classes,
//! functions, attributes) and imports.  References found in docstrings are
//! validated against it.
//!
//! Keyed collections are vectors: a module is found by its dotted path, a
//! symbol by its name, an import by its local name, each by the first entry
//! that carries the key.  Inserting a module or a symbol replaces the first
//! entry with the same key, so keys stay unique as in a map.
use vstd::prelude::*;
use crate::text::{
    chars_of, join_range, join_seq, seq_views, split_chars, split_seq, str_is, string_of, string_views,
    lemma_split_nonempty, lemma_join_split, lemma_split_append, lemma_split_single,
};

verus! {

/// A dotted Python path like `my_pkg.foo.Bar`.
pub type DottedPath = String;

/// The kind of symbol defined in Python source.
#[derive(Debug, Clone, Copy, PartialEq, Eq, Structural)]
pub enum SymbolKind {
    Function,
    Class,
    Attribute,
}

/// Source location of a symbol definition (1-indexed line and column).
#[derive(Debug)]
pub struct SourceLocation {
    pub file: String,
    pub line: usize,
    pub col: usize,
}

/// A single Python symbol (class, function, variable, ...).
#[derive(Debug)]
pub struct Symbol {
    pub name: String,
    pub kind: SymbolKind,
    /// Nested members, e.g. methods inside a class (unique by name).
    pub members: Vec<Symbol>,
    /// Base class names (for classes only), as written in the source.
    pub bases: Vec<String>,
    /// Where this symbol is defined.
    pub location: Option<SourceLocation>,
}

impl Symbol {
    /// Create a new symbol with the given name and kind, with no members,
    /// no bases and no location.
    pub fn new(name: String, kind: SymbolKind) -> (r: Self)
        ensures
            r.name == name,
            r.kind == kind,
            r.members@.len() == 0,
            r.bases@.len() == 0,
            r.location is None,
    {
        Symbol { name, kind, members: Vec::new(), bases: Vec::new(), location: None }
    }
}

/// A recorded `import` / `from ... import ...` statement.
#[derive(Debug)]
pub struct Import {
    /// The module being imported from (e.g. `my_pkg.utils`).
    pub source: DottedPath,
    /// The name being imported (e.g. `MyClass`).
    pub name: String,
    /// Optional alias (`as ...`).
    pub alias: Option<String>,
}

/// A docstring occurrence to check.
#[derive(Debug)]
pub struct Docstring {
    pub line: usize,
    pub col: usize,
    pub content: String,
}

/// A parsed Python module.
#[derive(Debug)]
pub struct Module {
    /// Dotted module path (e.g. `my_pkg.foo.bar`).
    pub path: DottedPath,
    /// File path on disk.
    pub file_path: String,
    /// Whether this module is a package (`__init__.py`).
    pub is_package: bool,
    /// Top-level definitions in this module (unique by name).
    pub definitions: Vec<Symbol>,
    /// Import statements.
    pub imports: Vec<Import>,
    /// Source modules of `from X import *` statements.
    pub wildcard_imports: Vec<DottedPath>,
    /// `__all__` if defined (explicit public API).
    pub all: Option<Vec<String>>,
    /// Docstrings found in this module (module-level and nested).
    pub docstrings: Vec<Docstring>,
}

/// Project-wide symbol graph.
#[derive(Debug)]
pub struct SymbolGraph {
    pub modules: Vec<Module>,
    /// The distinct root package names (first segments of module paths),
    /// built by [`SymbolGraph::compute_roots`].
    pub root_packages: Vec<String>,
}

// ---------------------------------------------------------------------------
// Views and keyed lookups
// ---------------------------------------------------------------------------

/// The name an import binds in the importing module.
pub open spec fn local_name(imp: Import) -> Seq<char> {
    match imp.alias {
        Some(a) => a@,
        None => imp.name@,
    }
}

/// The plain contents of an import.
pub struct ImportV {
    pub source: Seq<char>,
    pub name: Seq<char>,
    pub alias: Option<Seq<char>>,
}

pub open spec fn import_view(imp: Import) -> ImportV {
    ImportV {
        source: imp.source@,
        name: imp.name@,
        alias: match imp.alias {
            Some(a) => Some(a@),
            None => None,
        },
    }
}

pub open spec fn imports_view(imps: Seq<Import>) -> Seq<ImportV> {
    imps.map_values(|i: Import| import_view(i))
}

/// The fully-qualified path an import refers to: `source.name`.
pub open spec fn import_target(imp: Import) -> Seq<char> {
    imp.source@.push('.') + imp.name@
}

/// Index of the first symbol named `name`, or -1.
pub open spec fn sym_pos(defs: Seq<Symbol>, name: Seq<char>) -> int
    decreases defs.len(),
{
    if defs.len() == 0 {
        -1
    } else if defs[0].name@ == name {
        0
    } else {
        let p = sym_pos(defs.drop_first(), name);
        if p < 0 {
            -1
        } else {
            p + 1
        }
    }
}

/// Index of the first module whose path is `path`, or -1.
pub open spec fn module_pos(mods: Seq<Module>, path: Seq<char>) -> int
    decreases mods.len(),
{
    if mods.len() == 0 {
        -1
    } else if mods[0].path@ == path {
        0
    } else {
        let p = module_pos(mods.drop_first(), path);
        if p < 0 {
            -1
        } else {
            p + 1
        }
    }
}

/// Index of the first import binding the local name `name`, or -1.
pub open spec fn import_pos(imps: Seq<Import>, name: Seq<char>) -> int
    decreases imps.len(),
{
    if imps.len() == 0 {
        -1
    } else if local_name(imps[0]) == name {
        0
    } else {
        let p = import_pos(imps.drop_first(), name);
        if p < 0 {
            -1
        } else {
            p + 1
        }
    }
}

pub proof fn lemma_sym_pos(defs: Seq<Symbol>, name: Seq<char>)
    ensures
        -1 <= sym_pos(defs, name) < defs.len(),
        sym_pos(defs, name) >= 0 ==> defs[sym_pos(defs, name)].name@ == name,
        forall|j: int|
            0 <= j < defs.len() && (sym_pos(defs, name) < 0 || j < sym_pos(defs, name))
                ==> #[trigger] defs[j].name@ != name,
    decreases defs.len(),
{
    if defs.len() > 0 {
        lemma_sym_pos(defs.drop_first(), name);
        assert forall|j: int|
            0 <= j < defs.len() && (sym_pos(defs, name) < 0 || j < sym_pos(defs, name))
                implies #[trigger] defs[j].name@ != name by {
            if j > 0 {
                assert(defs[j] == defs.drop_first()[j - 1]);
            }
        }
    }
}

pub proof fn lemma_module_pos(mods: Seq<Module>, path: Seq<char>)
    ensures
        -1 <= module_pos(mods, path) < mods.len(),
        module_pos(mods, path) >= 0 ==> mods[module_pos(mods, path)].path@ == path,
        forall|j: int|
            0 <= j < mods.len() && (module_pos(mods, path) < 0 || j < module_pos(mods, path))
                ==> #[trigger] mods[j].path@ != path,
    decreases mods.len(),
{
    if mods.len() > 0 {
        lemma_module_pos(mods.drop_first(), path);
        assert forall|j: int|
            0 <= j < mods.len() && (module_pos(mods, path) < 0 || j < module_pos(mods, path))
                implies #[trigger] mods[j].path@ != path by {
            if j > 0 {
                assert(mods[j] == mods.drop_first()[j - 1]);
            }
        }
    }
}

pub proof fn lemma_import_pos(imps: Seq<Import>, name: Seq<char>)
    ensures
        -1 <= import_pos(imps, name) < imps.len(),
        import_pos(imps, name) >= 0 ==> local_name(imps[import_pos(imps, name)]) == name,
        forall|j: int|
            0 <= j < imps.len() && (import_pos(imps, name) < 0 || j < import_pos(imps, name))
                ==> local_name(#[trigger] imps[j]) != name,
    decreases imps.len(),
{
    if imps.len() > 0 {
        lemma_import_pos(imps.drop_first(), name);
        assert forall|j: int|
            0 <= j < imps.len() && (import_pos(imps, name) < 0 || j < import_pos(imps, name))
                implies local_name(#[trigger] imps[j]) != name by {
            if j > 0 {
                assert(imps[j] == imps.drop_first()[j - 1]);
            }
        }
    }
}

/// The first position is the unique index that carries the key with no
/// earlier index carrying it.
proof fn lemma_sym_pos_unique(defs: Seq<Symbol>, name: Seq<char>, i: int)
    requires
        -1 <= i < defs.len(),
        i >= 0 ==> defs[i].name@ == name,
        forall|j: int| 0 <= j < defs.len() && (i < 0 || j < i) ==> #[trigger] defs[j].name@ != name,
    ensures
        sym_pos(defs, name) == i,
{
    lemma_sym_pos(defs, name);
}

proof fn lemma_module_pos_unique(mods: Seq<Module>, path: Seq<char>, i: int)
    requires
        -1 <= i < mods.len(),
        i >= 0 ==> mods[i].path@ == path,
        forall|j: int| 0 <= j < mods.len() && (i < 0 || j < i) ==> #[trigger] mods[j].path@ != path,
    ensures
        module_pos(mods, path) == i,
{
    lemma_module_pos(mods, path);
}

proof fn lemma_import_pos_unique(imps: Seq<Import>, name: Seq<char>, i: int)
    requires
        -1 <= i < imps.len(),
        i >= 0 ==> local_name(imps[i]) == name,
        forall|j: int| 0 <= j < imps.len() && (i < 0 || j < i) ==> local_name(#[trigger] imps[j]) != name,
    ensures
        import_pos(imps, name) == i,
{
    lemma_import_pos(imps, name);
}

/// Find the first symbol named `name`.
pub fn find_symbol(defs: &Vec<Symbol>, name: &[char]) -> (r: Option<usize>)
    ensures
        match r {
            Some(i) => i as int == sym_pos(defs@, name@),
            None => sym_pos(defs@, name@) < 0,
        },
{
    let mut i: usize = 0;
    while i < defs.len()
        invariant
            i <= defs.len(),
            forall|j: int| 0 <= j < i ==> #[trigger] defs@[j].name@ != name@,
        decreases defs.len() - i,
    {
        if str_is(defs[i].name.as_str(), name) {
            proof {
                lemma_sym_pos_unique(defs@, name@, i as int);
            }
            return Some(i);
        }
        i = i + 1;
    }
    proof {
        lemma_sym_pos_unique(defs@, name@, -1);
    }
    None
}

/// Find the first module whose path is `path`.
pub fn find_module(mods: &Vec<Module>, path: &[char]) -> (r: Option<usize>)
    ensures
        match r {
            Some(i) => i as int == module_pos(mods@, path@),
            None => module_pos(mods@, path@) < 0,
        },
{
    let mut i: usize = 0;
    while i < mods.len()
        invariant
            i <= mods.len(),
            forall|j: int| 0 <= j < i ==> #[trigger] mods@[j].path@ != path@,
        decreases mods.len() - i,
    {
        if str_is(mods[i].path.as_str(), path) {
            proof {
                lemma_module_pos_unique(mods@, path@, i as int);
            }
            return Some(i);
        }
        i = i + 1;
    }
    proof {
        lemma_module_pos_unique(mods@, path@, -1);
    }
    None
}

/// The local name an import binds.
pub fn import_local_name(imp: &Import) -> (r: Vec<char>)
    ensures
        r@ == local_name(*imp),
{
    match &imp.alias {
        Some(a) => chars_of(a.as_str()),
        None => chars_of(imp.name.as_str()),
    }
}

/// Find the first import whose local name is `name`.
pub fn find_import(imps: &Vec<Import>, name: &[char]) -> (r: Option<usize>)
    ensures
        match r {
            Some(i) => i as int == import_pos(imps@, name@),
            None => import_pos(imps@, name@) < 0,
        },
{
    let mut i: usize = 0;
    while i < imps.len()
        invariant
            i <= imps.len(),
            forall|j: int| 0 <= j < i ==> local_name(#[trigger] imps@[j]) != name@,
        decreases imps.len() - i,
    {
        let ln = import_local_name(&imps[i]);
        if crate::text::chars_eq(ln.as_slice(), name) {
            proof {
                lemma_import_pos_unique(imps@, name@, i as int);
            }
            return Some(i);
        }
        i = i + 1;
    }
    proof {
        lemma_import_pos_unique(imps@, name@, -1);
    }
    None
}

/// `source.name` for an import, as characters.
pub fn import_target_chars(imp: &Import) -> (r: Vec<char>)
    ensures
        r@ == import_target(*imp),
{
    let mut out = chars_of(imp.source.as_str());
    out.push('.');
    let name = chars_of(imp.name.as_str());
    let ghost start = out@;
    let mut k: usize = 0;
    while k < name.len()
        invariant
            k <= name.len(),
            out@ == start + name@.take(k as int),
        decreases name.len() - k,
    {
        out.push(name[k]);
        assert(name@.take(k + 1) =~= name@.take(k as int).push(name@[k as int]));
        k = k + 1;
    }
    assert(name@.take(name.len() as int) =~= name@);
    out
}

/// Append `src` to `out`.
pub fn extend_chars(out: &mut Vec<char>, src: &[char])
    ensures
        final(out)@ == old(out)@ + src@,
{
    let mut k: usize = 0;
    while k < src.len()
        invariant
            k <= src.len(),
            out@ == old(out)@ + src@.take(k as int),
        decreases src.len() - k,
    {
        out.push(src[k]);
        assert(src@.take(k + 1) =~= src@.take(k as int).push(src@[k as int]));
        k = k + 1;
    }
    assert(src@.take(src.len() as int) =~= src@);
}

/// The first dotted segment of a path (everything before the first `.`).
pub open spec fn root_of(s: Seq<char>) -> Seq<char> {
    split_seq(s, '.')[0]
}

pub fn root_chars(s: &str) -> (r: Vec<char>)
    ensures
        r@ == root_of(s@),
{
    let c = chars_of(s);
    let parts = split_chars(c.as_slice(), '.');
    proof {
        lemma_split_nonempty(c@, '.');
    }
    assert(seq_views(parts@)[0] == parts@[0]@);
    crate::text::slice_chars(parts[0].as_slice(), 0, parts[0].len())
}

// ---------------------------------------------------------------------------
// Construction
// ---------------------------------------------------------------------------

/// `mods` with `m` put in place of the first module with the same path, or
/// appended when there is none.
pub open spec fn insert_module(mods: Seq<Module>, m: Module) -> Seq<Module> {
    let p = module_pos(mods, m.path@);
    if p >= 0 {
        mods.update(p, m)
    } else {
        mods.push(m)
    }
}

/// `defs` with `s` put in place of the first symbol with the same name, or
/// appended when there is none.
pub open spec fn insert_symbol(defs: Seq<Symbol>, s: Symbol) -> Seq<Symbol> {
    let p = sym_pos(defs, s.name@);
    if p >= 0 {
        defs.update(p, s)
    } else {
        defs.push(s)
    }
}

/// Insert a symbol into a definitions table, replacing one of the same name.
pub fn put_symbol(defs: &mut Vec<Symbol>, s: Symbol)
    ensures
        final(defs)@ == insert_symbol(old(defs)@, s),
{
    let key = chars_of(s.name.as_str());
    proof {
        lemma_sym_pos(defs@, key@);
    }
    match find_symbol(defs, key.as_slice()) {
        Some(i) => {
            defs.set(i, s);
        },
        None => {
            defs.push(s);
        },
    }
}

/// Whether `r` is the first dotted segment of some module path in `mods`.
pub open spec fn is_root_of_some(mods: Seq<Module>, r: Seq<char>) -> bool {
    exists|i: int| 0 <= i < mods.len() && root_of(#[trigger] mods[i].path@) == r
}

impl SymbolGraph {
    /// The root package names that [`SymbolGraph::compute_roots`] recorded.
    pub open spec fn roots(&self) -> Seq<Seq<char>> {
        string_views(self.root_packages@)
    }

    /// An empty graph.
    pub fn new() -> (g: Self)
        ensures
            g.modules@.len() == 0,
            g.roots().len() == 0,
            paths_unique(g.modules@),
    {
        SymbolGraph { modules: Vec::new(), root_packages: Vec::new() }
    }

    /// Insert a parsed module into the graph, replacing any module with the
    /// same dotted path.
    pub fn add_module(&mut self, module: Module)
        ensures
            final(self).modules@ == insert_module(old(self).modules@, module),
            final(self).roots() == old(self).roots(),
            paths_unique(old(self).modules@) ==> paths_unique(final(self).modules@),
    {
        let key = chars_of(module.path.as_str());
        proof {
            lemma_module_pos(self.modules@, key@);
        }
        match find_module(&self.modules, key.as_slice()) {
            Some(i) => {
                self.modules.set(i, module);
            },
            None => {
                self.modules.push(module);
            },
        }
        proof {
            if paths_unique(old(self).modules@) {
                law_insert_module_unique(old(self).modules@, module);
            }
        }
    }

    /// Record the set of root package names of all modules.  Call after all
    /// modules are added and wildcards are expanded.
    pub fn compute_roots(&mut self)
        ensures
            final(self).modules == old(self).modules,
            forall|r: Seq<char>| #[trigger]
                final(self).roots().contains(r) <==> is_root_of_some(final(self).modules@, r),
            final(self).roots().no_duplicates(),
    {
        let mut roots: Vec<String> = Vec::new();
        let mut i: usize = 0;
        while i < self.modules.len()
            invariant
                i <= self.modules.len(),
                forall|r: Seq<char>| #[trigger]
                    string_views(roots@).contains(r) <==> is_root_of_some(
                        self.modules@.take(i as int),
                        r,
                    ),
                string_views(roots@).no_duplicates(),
            decreases self.modules.len() - i,
        {
            let r = root_chars(self.modules[i].path.as_str());
            let ghost before = string_views(roots@);
            let mut found = false;
            let mut k: usize = 0;
            while k < roots.len()
                invariant
                    k <= roots.len(),
                    i < self.modules.len(),
                    r@ == root_of(self.modules@[i as int].path@),
                    before == string_views(roots@),
                    !found ==> forall|j: int| 0 <= j < k ==> #[trigger] before[j] != r@,
                    found ==> before.contains(r@),
                decreases roots.len() - k,
            {
                if !found && str_is(roots[k].as_str(), r.as_slice()) {
                    found = true;
                    assert(before[k as int] == r@);
                }
                k = k + 1;
            }
            let ghost mods_i = self.modules@.take(i as int);
            let ghost mods_n = self.modules@.take(i + 1);
            assert(mods_n[i as int] == self.modules@[i as int]);
            assert forall|x: Seq<char>| is_root_of_some(mods_i, x) implies is_root_of_some(
                mods_n,
                x,
            ) by {
                let w = choose|w: int| 0 <= w < mods_i.len() && root_of(#[trigger] mods_i[w].path@) == x;
                assert(mods_n[w] == mods_i[w]);
            }
            assert forall|x: Seq<char>| is_root_of_some(mods_n, x) implies (is_root_of_some(
                mods_i,
                x,
            ) || x == r@) by {
                let w = choose|w: int| 0 <= w < mods_n.len() && root_of(#[trigger] mods_n[w].path@) == x;
                if w < i {
                    assert(mods_i[w] == mods_n[w]);
                }
            }
            assert(is_root_of_some(mods_n, r@));
            if found {
                assert(string_views(roots@) == before);
            } else {
                roots.push(string_of(r.as_slice()));
                assert(string_views(roots@) =~= before.push(r@));
                assert(!before.contains(r@));
                assert forall|x: Seq<char>| string_views(roots@).contains(x) <==> (before.contains(x)
                    || x == r@) by {
                    if string_views(roots@).contains(x) {
                        let w = choose|w: int| 0 <= w < string_views(roots@).len() && string_views(roots@)[w] == x;
                        if w < before.len() {
                            assert(before[w] == x);
                        }
                    }
                    if before.contains(x) {
                        let w = choose|w: int| 0 <= w < before.len() && before[w] == x;
                        assert(string_views(roots@)[w] == x);
                    }
                    if x == r@ {
                        assert(string_views(roots@)[before.len() as int] == x);
                    }
                }
            }
            assert forall|x: Seq<char>| #[trigger] string_views(roots@).contains(x) <==> is_root_of_some(
                mods_n,
                x,
            ) by {
                if x != r@ {
                    assert(string_views(roots@).contains(x) <==> before.contains(x));
                }
            }
            i = i + 1;
        }
        assert(self.modules@.take(self.modules.len() as int) =~= self.modules@);
        self.root_packages = roots;
    }

    /// Whether a dotted reference's root module is part of this project.
    pub fn is_internal(&self, target: &str) -> (r: bool)
        ensures
            r == self.roots().contains(root_of(target@)),
    {
        let root = root_chars(target);
        let mut k: usize = 0;
        while k < self.root_packages.len()
            invariant
                k <= self.root_packages.len(),
                root@ == root_of(target@),
                forall|j: int| 0 <= j < k ==> #[trigger] self.roots()[j] != root@,
            decreases self.root_packages.len() - k,
        {
            if str_is(self.root_packages[k].as_str(), root.as_slice()) {
                assert(self.roots()[k as int] == self.root_packages@[k as int]@);
                assert(self.roots()[k as int] == root@);
                assert(self.roots().contains(root@));
                return true;
            }
            k = k + 1;
        }
        false
    }
}


// ---------------------------------------------------------------------------
// Resolution: specification
// ---------------------------------------------------------------------------

/// Recursion limit for following imports and base classes.
pub const MAX_DEPTH: usize = 20;

/// `head` followed by `.seg` for every segment of `rest`.
pub open spec fn dotted(head: Seq<char>, rest: Seq<Seq<char>>) -> Seq<char> {
    join_seq(seq![head] + rest, '.')
}

/// Whether `segs` names a chain of nested definitions starting in `defs`.
pub open spec fn resolve_in_defs(defs: Seq<Symbol>, segs: Seq<Seq<char>>) -> bool
    decreases segs.len(),
{
    if segs.len() == 0 {
        true
    } else {
        let q = sym_pos(defs, segs[0]);
        if q < 0 {
            false
        } else if segs.len() == 1 {
            true
        } else {
            resolve_in_defs(defs[q].members@, segs.drop_first())
        }
    }
}

/// The dotted path of the module made of the first `k` segments.
pub open spec fn prefix_path(segs: Seq<Seq<char>>, k: int) -> Seq<char> {
    join_seq(segs.take(k), '.')
}

/// Whether `reference` resolves in the modules, at import depth `depth`.
///
/// Module prefixes are tried from the longest down; a prefix that is a
/// module resolves the reference when it is the whole reference, when the
/// rest walks through nested definitions, when the rest is `Class.member` and
/// a base class provides the member, or when the first remaining name is an
/// import through which the rest resolves one level deeper.
pub open spec fn spec_resolve(mods: Seq<Module>, reference: Seq<char>, depth: int) -> bool
    decreases 21 - depth, 3int, 0int,
{
    if depth > MAX_DEPTH {
        false
    } else {
        let segs = split_seq(reference, '.');
        resolve_splits(mods, segs, segs.len() as int, depth)
    }
}

pub open spec fn resolve_splits(mods: Seq<Module>, segs: Seq<Seq<char>>, k: int, depth: int) -> bool
    decreases 21 - depth, 2int, k,
{
    if depth > MAX_DEPTH || k < 1 {
        false
    } else {
        resolve_at(mods, segs, k, depth) || resolve_splits(mods, segs, k - 1, depth)
    }
}

pub open spec fn resolve_at(mods: Seq<Module>, segs: Seq<Seq<char>>, k: int, depth: int) -> bool
    decreases 21 - depth, 1int, 0int,
{
    if depth > MAX_DEPTH || k < 1 || k > segs.len() {
        false
    } else {
        let mp = prefix_path(segs, k);
        let p = module_pos(mods, mp);
        if p < 0 {
            false
        } else if k == segs.len() {
            true
        } else {
            let m = mods[p];
            let remaining = segs.skip(k);
            resolve_in_defs(m.definitions@, remaining) || (remaining.len() == 2 && ({
                let q = sym_pos(m.definitions@, remaining[0]);
                q >= 0 && m.definitions@[q].kind == SymbolKind::Class && spec_resolve_via_bases(
                    mods,
                    mp.push('.') + remaining[0],
                    remaining[1],
                    depth + 1,
                )
            })) || resolve_via_import(mods, m, remaining, depth)
        }
    }
}

/// Resolve `remaining` by following the first import of `m` that binds
/// `remaining[0]`.
pub open spec fn resolve_via_import(mods: Seq<Module>, m: Module, remaining: Seq<Seq<char>>, depth: int) -> bool
    decreases 21 - depth, 0int, 0int,
{
    if depth > MAX_DEPTH || remaining.len() == 0 {
        false
    } else {
        let i = import_pos(m.imports@, remaining[0]);
        if i < 0 {
            false
        } else {
            spec_resolve(
                mods,
                dotted(import_target(m.imports@[i]), remaining.drop_first()),
                depth + 1,
            )
        }
    }
}

/// Largest `k` in `1..=hi` such that the first `k` segments form a module path, or -1.
pub open spec fn longest_module_split(mods: Seq<Module>, segs: Seq<Seq<char>>, hi: int) -> int
    decreases hi,
{
    if hi < 1 {
        -1
    } else if module_pos(mods, prefix_path(segs, hi)) >= 0 {
        hi
    } else {
        longest_module_split(mods, segs, hi - 1)
    }
}

/// The base class names of the class `class_name` of `m`, when it is a class
/// with at least one base.
pub open spec fn class_bases(m: Module, class_name: Seq<char>) -> Option<Seq<String>> {
    let q = sym_pos(m.definitions@, class_name);
    if q >= 0 && m.definitions@[q].kind == SymbolKind::Class && m.definitions@[q].bases@.len() > 0 {
        Some(m.definitions@[q].bases@)
    } else {
        None
    }
}

/// Whether some prefix of `segs` of `1..=k` segments is a module path.
pub open spec fn some_module_prefix(mods: Seq<Module>, segs: Seq<Seq<char>>, k: int) -> bool
    decreases k,
{
    if k < 1 {
        false
    } else {
        module_pos(mods, prefix_path(segs, k)) >= 0 || some_module_prefix(mods, segs, k - 1)
    }
}

/// The fully-qualified path a class name written in `m` stands for.
pub open spec fn spec_resolve_class_name(mods: Seq<Module>, name: Seq<char>, m: Module) -> Option<Seq<char>> {
    let segs = split_seq(name, '.');
    if name.contains('.') && some_module_prefix(mods, segs, segs.len() as int) {
        Some(name)
    } else {
        let i = import_pos(m.imports@, name);
        if i >= 0 {
            Some(import_target(m.imports@[i]))
        } else if sym_pos(m.definitions@, name) >= 0 {
            Some(m.path@.push('.') + name)
        } else {
            None
        }
    }
}

/// Total number of imports over all modules.
pub open spec fn total_imports(mods: Seq<Module>) -> nat
    decreases mods.len(),
{
    if mods.len() == 0 {
        0
    } else {
        total_imports(mods.drop_last()) + mods.last().imports@.len()
    }
}

/// How many import hops a class lookup may follow: one more than the number
/// of imports, so that every chain that reaches a class is followed to its end.
pub open spec fn class_fuel(mods: Seq<Module>) -> nat {
    if total_imports(mods) + 1 <= usize::MAX {
        total_imports(mods) + 1
    } else {
        usize::MAX as nat
    }
}

/// The class a fully-qualified path names, following re-exports.
pub open spec fn spec_find_class(mods: Seq<Module>, fqn: Seq<char>, fuel: nat) -> Option<Symbol>
    decreases fuel, 1int, 0int,
{
    if fuel == 0 {
        None
    } else {
        let segs = split_seq(fqn, '.');
        find_class_splits(mods, segs, segs.len() - 1, fuel)
    }
}

pub open spec fn find_class_splits(mods: Seq<Module>, segs: Seq<Seq<char>>, k: int, fuel: nat) -> Option<Symbol>
    decreases fuel, 0int, k,
{
    if k < 1 || k >= segs.len() || fuel == 0 {
        None
    } else {
        let p = module_pos(mods, prefix_path(segs, k));
        if p < 0 {
            find_class_splits(mods, segs, k - 1, fuel)
        } else {
            let m = mods[p];
            let q = sym_pos(m.definitions@, segs[k]);
            if q >= 0 && m.definitions@[q].kind == SymbolKind::Class {
                Some(m.definitions@[q])
            } else {
                let i = import_pos(m.imports@, segs[k]);
                if i >= 0 {
                    spec_find_class(mods, import_target(m.imports@[i]), (fuel - 1) as nat)
                } else {
                    find_class_splits(mods, segs, k - 1, fuel)
                }
            }
        }
    }
}

/// Whether `member` is provided by a base class (transitively) of the class
/// `class_fqn`.
pub open spec fn spec_resolve_via_bases(mods: Seq<Module>, class_fqn: Seq<char>, member: Seq<char>, depth: int) -> bool
    decreases 21 - depth, 1int, 0int,
{
    if depth > MAX_DEPTH {
        false
    } else {
        let segs = split_seq(class_fqn, '.');
        let k = longest_module_split(mods, segs, segs.len() - 1);
        if k < 1 {
            false
        } else {
            let m = mods[module_pos(mods, prefix_path(segs, k))];
            match class_bases(m, join_seq(segs.skip(k), '.')) {
                None => false,
                Some(bases) => bases_provide(mods, m, bases, 0, member, depth),
            }
        }
    }
}

pub open spec fn bases_provide(mods: Seq<Module>, m: Module, bases: Seq<String>, i: int, member: Seq<char>, depth: int) -> bool
    decreases 21 - depth, 0int, bases.len() - i,
{
    if depth > MAX_DEPTH || i < 0 || i >= bases.len() {
        false
    } else {
        (match spec_resolve_class_name(mods, bases[i]@, m) {
            None => false,
            Some(fqn) => (match spec_find_class(mods, fqn, class_fuel(mods)) {
                Some(c) => sym_pos(c.members@, member) >= 0,
                None => false,
            }) || spec_resolve_via_bases(mods, fqn, member, depth + 1),
        }) || bases_provide(mods, m, bases, i + 1, member, depth)
    }
}

// ---------------------------------------------------------------------------
// Resolution: implementation
// ---------------------------------------------------------------------------

/// `head` followed by `.seg` for every segment `segs[from..]`.
pub fn dotted_from(head: Vec<char>, segs: &Vec<Vec<char>>, from: usize) -> (r: Vec<char>)
    requires
        from <= segs.len(),
    ensures
        r@ == dotted(head@, seq_views(segs@).skip(from as int)),
{
    let mut out = head;
    let ghost h = out@;
    let mut j: usize = from;
    assert(seq![h] + seq_views(segs@).subrange(from as int, from as int) =~= seq![h]);
    while j < segs.len()
        invariant
            from <= j <= segs.len(),
            out@ == join_seq(seq![h] + seq_views(segs@).subrange(from as int, j as int), '.'),
        decreases segs.len() - j,
    {
        let ghost before = seq![h] + seq_views(segs@).subrange(from as int, j as int);
        let ghost after = seq![h] + seq_views(segs@).subrange(from as int, j + 1);
        assert(after.drop_last() =~= before);
        assert(after.last() == segs@[j as int]@);
        out.push('.');
        extend_chars(&mut out, segs[j].as_slice());
        j = j + 1;
    }
    assert(seq_views(segs@).subrange(from as int, segs.len() as int) =~= seq_views(segs@).skip(
        from as int,
    ));
    out
}

/// Walk `segs[from..]` through nested definitions.
pub fn resolve_in_definitions(defs: &Vec<Symbol>, segs: &Vec<Vec<char>>, from: usize) -> (r: bool)
    requires
        from <= segs.len(),
    ensures
        r == resolve_in_defs(defs@, seq_views(segs@).skip(from as int)),
    decreases segs.len() - from,
{
    let ghost rest = seq_views(segs@).skip(from as int);
    if from == segs.len() {
        return true;
    }
    assert(rest[0] == segs@[from as int]@);
    proof {
        lemma_sym_pos(defs@, rest[0]);
    }
    match find_symbol(defs, segs[from].as_slice()) {
        Some(i) => {
            if from + 1 == segs.len() {
                true
            } else {
                assert(rest.drop_first() =~= seq_views(segs@).skip(from + 1));
                resolve_in_definitions(&defs[i].members, segs, from + 1)
            }
        },
        None => false,
    }
}

/// The characters of `s[..k]` joined, i.e. the path of a module prefix.
fn prefix_chars(segs: &Vec<Vec<char>>, k: usize) -> (r: Vec<char>)
    requires
        k <= segs.len(),
    ensures
        r@ == prefix_path(seq_views(segs@), k as int),
{
    let r = join_range(segs, 0, k, '.');
    assert(seq_views(segs@).subrange(0, k as int) =~= seq_views(segs@).take(k as int));
    r
}

impl SymbolGraph {
    /// Resolve a dotted reference like `my_pkg.foo.Bar`.
    ///
    /// Returns `true` if the reference resolves to a known module or symbol.
    pub fn resolve(&self, reference: &str) -> (r: bool)
        ensures
            r == spec_resolve(self.modules@, reference@, 0),
    {
        let c = chars_of(reference);
        self.resolve_inner(c.as_slice(), 0)
    }

    fn resolve_inner(&self, reference: &[char], depth: usize) -> (r: bool)
        ensures
            r == spec_resolve(self.modules@, reference@, depth as int),
        decreases 21 - depth, 3int, 0int,
    {
        if depth > MAX_DEPTH {
            return false;
        }
        let segs = split_chars(reference, '.');
        self.resolve_splits(&segs, segs.len(), depth)
    }

    fn resolve_splits(&self, segs: &Vec<Vec<char>>, k: usize, depth: usize) -> (r: bool)
        requires
            k <= segs.len(),
            depth <= MAX_DEPTH,
        ensures
            r == resolve_splits(self.modules@, seq_views(segs@), k as int, depth as int),
        decreases 21 - depth, 2int, k,
    {
        if k < 1 {
            return false;
        }
        if self.resolve_at(segs, k, depth) {
            return true;
        }
        self.resolve_splits(segs, k - 1, depth)
    }

    fn resolve_at(&self, segs: &Vec<Vec<char>>, k: usize, depth: usize) -> (r: bool)
        requires
            1 <= k <= segs.len(),
            depth <= MAX_DEPTH,
        ensures
            r == resolve_at(self.modules@, seq_views(segs@), k as int, depth as int),
        decreases 21 - depth, 1int, 0int,
    {
        let ghost sv = seq_views(segs@);
        let mp = prefix_chars(segs, k);
        proof {
            lemma_module_pos(self.modules@, mp@);
        }
        let p = match find_module(&self.modules, mp.as_slice()) {
            None => {
                return false;
            },
            Some(p) => p,
        };
        if k == segs.len() {
            return true;
        }
        let m = &self.modules[p];
        let ghost remaining = sv.skip(k as int);
        if resolve_in_definitions(&m.definitions, segs, k) {
            return true;
        }
        assert(remaining[0] == segs@[k as int]@);
        let mut via_bases = false;
        if segs.len() - k == 2 {
            assert(remaining[1] == segs@[k + 1]@);
            proof {
                lemma_sym_pos(m.definitions@, remaining[0]);
            }
            match find_symbol(&m.definitions, segs[k].as_slice()) {
                Some(q) => {
                    if m.definitions[q].kind == SymbolKind::Class {
                        let mut class_fqn = prefix_chars(segs, k);
                        class_fqn.push('.');
                        extend_chars(&mut class_fqn, segs[k].as_slice());
                        via_bases = self.resolve_via_bases(
                            class_fqn.as_slice(),
                            segs[k + 1].as_slice(),
                            depth + 1,
                        );
                    }
                },
                None => {},
            }
        }
        if via_bases {
            return true;
        }
        self.resolve_via_imports(m, segs, k, depth)
    }

    /// Attempt to resolve `segs[k..]` by following an import in `module`.
    fn resolve_via_imports(&self, module: &Module, segs: &Vec<Vec<char>>, k: usize, depth: usize) -> (r: bool)
        requires
            k < segs.len(),
            depth <= MAX_DEPTH,
        ensures
            r == resolve_via_import(self.modules@, *module, seq_views(segs@).skip(k as int), depth as int),
        decreases 21 - depth, 0int, 0int,
    {
        let ghost remaining = seq_views(segs@).skip(k as int);
        assert(remaining[0] == segs@[k as int]@);
        proof {
            lemma_import_pos(module.imports@, remaining[0]);
        }
        match find_import(&module.imports, segs[k].as_slice()) {
            None => false,
            Some(i) => {
                let head = import_target_chars(&module.imports[i]);
                let target = dotted_from(head, segs, k + 1);
                assert(remaining.drop_first() =~= seq_views(segs@).skip(k + 1));
                self.resolve_inner(target.as_slice(), depth + 1)
            },
        }
    }

    /// The number of import hops a class lookup may follow.
    pub fn class_search_fuel(&self) -> (r: usize)
        ensures
            r == class_fuel(self.modules@),
    {
        let mut total: usize = 0;
        let mut i: usize = 0;
        while i < self.modules.len()
            invariant
                i <= self.modules.len(),
                total == if total_imports(self.modules@.take(i as int)) <= usize::MAX {
                    total_imports(self.modules@.take(i as int))
                } else {
                    usize::MAX as nat
                },
            decreases self.modules.len() - i,
        {
            assert(self.modules@.take(i + 1).drop_last() =~= self.modules@.take(i as int));
            let n = self.modules[i].imports.len();
            if total > usize::MAX - n {
                total = usize::MAX;
            } else {
                total = total + n;
            }
            i = i + 1;
        }
        assert(self.modules@.take(self.modules.len() as int) =~= self.modules@);
        if total == usize::MAX {
            usize::MAX
        } else {
            total + 1
        }
    }

    /// Find a class by its fully-qualified path (e.g. `pkg.mod.ClassName`),
    /// following re-exports; gives the module and definition index.
    fn find_class(&self, fqn: &[char], fuel: usize) -> (r: Option<(usize, usize)>)
        ensures
            match r {
                Some((mi, di)) => mi < self.modules@.len() && di < self.modules@[mi as int].definitions@.len()
                    && spec_find_class(self.modules@, fqn@, fuel as nat) == Some(
                    self.modules@[mi as int].definitions@[di as int],
                ),
                None => spec_find_class(self.modules@, fqn@, fuel as nat) is None,
            },
        decreases fuel, 1int, 0int,
    {
        if fuel == 0 {
            return None;
        }
        let segs = split_chars(fqn, '.');
        proof {
            lemma_split_nonempty(fqn@, '.');
        }
        self.find_class_splits(&segs, segs.len() - 1, fuel)
    }

    fn find_class_splits(&self, segs: &Vec<Vec<char>>, k: usize, fuel: usize) -> (r: Option<(usize, usize)>)
        requires
            fuel > 0,
            k < segs.len(),
        ensures
            match r {
                Some((mi, di)) => mi < self.modules@.len() && di < self.modules@[mi as int].definitions@.len()
                    && find_class_splits(self.modules@, seq_views(segs@), k as int, fuel as nat) == Some(
                    self.modules@[mi as int].definitions@[di as int],
                ),
                None => find_class_splits(self.modules@, seq_views(segs@), k as int, fuel as nat) is None,
            },
        decreases fuel, 0int, k,
    {
        if k < 1 {
            return None;
        }
        let mp = prefix_chars(segs, k);
        proof {
            lemma_module_pos(self.modules@, mp@);
        }
        match find_module(&self.modules, mp.as_slice()) {
            None => self.find_class_splits(segs, k - 1, fuel),
            Some(p) => {
                let m = &self.modules[p];
                proof {
                    lemma_sym_pos(m.definitions@, segs@[k as int]@);
                    lemma_import_pos(m.imports@, segs@[k as int]@);
                }
                match find_symbol(&m.definitions, segs[k].as_slice()) {
                    Some(q) => {
                        if m.definitions[q].kind == SymbolKind::Class {
                            return Some((p, q));
                        }
                    },
                    None => {},
                }
                match find_import(&m.imports, segs[k].as_slice()) {
                    Some(i) => {
                        let target = import_target_chars(&m.imports[i]);
                        self.find_class(target.as_slice(), fuel - 1)
                    },
                    None => self.find_class_splits(segs, k - 1, fuel),
                }
            },
        }
    }

    /// Get the module and definition index of the class `class_name` in the
    /// module `mod_path`, when that class has base classes.
    fn get_class_bases(&self, mod_path: &[char], class_name: &[char]) -> (r: Option<(usize, usize)>)
        requires
            module_pos(self.modules@, mod_path@) >= 0,
        ensures
            match r {
                Some((mi, di)) => mi as int == module_pos(self.modules@, mod_path@)
                    && di < self.modules@[mi as int].definitions@.len()
                    && class_bases(self.modules@[mi as int], class_name@) == Some(
                    self.modules@[mi as int].definitions@[di as int].bases@,
                ),
                None => class_bases(
                    self.modules@[module_pos(self.modules@, mod_path@)],
                    class_name@,
                ) is None,
            },
    {
        proof {
            lemma_module_pos(self.modules@, mod_path@);
        }
        let p = find_module(&self.modules, mod_path).unwrap();
        let m = &self.modules[p];
        proof {
            lemma_sym_pos(m.definitions@, class_name@);
        }
        match find_symbol(&m.definitions, class_name) {
            Some(q) => {
                if m.definitions[q].kind == SymbolKind::Class && m.definitions[q].bases.len() > 0 {
                    Some((p, q))
                } else {
                    None
                }
            },
            None => None,
        }
    }

    /// Whether some prefix of `segs[..k]` is a module path.
    fn some_module_prefix(&self, segs: &Vec<Vec<char>>, k: usize) -> (r: bool)
        requires
            k <= segs.len(),
        ensures
            r == some_module_prefix(self.modules@, seq_views(segs@), k as int),
        decreases k,
    {
        if k < 1 {
            return false;
        }
        let mp = prefix_chars(segs, k);
        if find_module(&self.modules, mp.as_slice()).is_some() {
            return true;
        }
        self.some_module_prefix(segs, k - 1)
    }

    /// Resolve a class name to its fully-qualified path using the module's imports.
    fn resolve_class_name(&self, name: &[char], module: &Module) -> (r: Option<Vec<char>>)
        ensures
            match r {
                Some(v) => spec_resolve_class_name(self.modules@, name@, *module) == Some(v@),
                None => spec_resolve_class_name(self.modules@, name@, *module) is None,
            },
    {
        if crate::text::contains_char(name, '.') {
            let segs = split_chars(name, '.');
            if self.some_module_prefix(&segs, segs.len()) {
                return Some(crate::text::slice_chars(name, 0, name.len()));
            }
        }
        proof {
            lemma_import_pos(module.imports@, name@);
        }
        match find_import(&module.imports, name) {
            Some(i) => {
                return Some(import_target_chars(&module.imports[i]));
            },
            None => {},
        }
        match find_symbol(&module.definitions, name) {
            Some(_) => {
                let mut out = chars_of(module.path.as_str());
                out.push('.');
                extend_chars(&mut out, name);
                Some(out)
            },
            None => None,
        }
    }

    /// Largest `k` in `1..=hi` whose prefix is a module path.
    fn longest_module_split(&self, segs: &Vec<Vec<char>>, hi: usize) -> (r: Option<usize>)
        requires
            hi <= segs.len(),
        ensures
            match r {
                Some(k) => k as int == longest_module_split(self.modules@, seq_views(segs@), hi as int) && k >= 1 && k <= hi
                    && module_pos(self.modules@, prefix_path(seq_views(segs@), k as int)) >= 0,
                None => longest_module_split(self.modules@, seq_views(segs@), hi as int) < 1,
            },
        decreases hi,
    {
        if hi < 1 {
            return None;
        }
        let mp = prefix_chars(segs, hi);
        if find_module(&self.modules, mp.as_slice()).is_some() {
            return Some(hi);
        }
        self.longest_module_split(segs, hi - 1)
    }

    /// Resolve a member by walking base classes (simple MRO).
    /// `class_fqn` is the fully-qualified class name, `member` is the attribute name.
    fn resolve_via_bases(&self, class_fqn: &[char], member: &[char], depth: usize) -> (r: bool)
        ensures
            r == spec_resolve_via_bases(self.modules@, class_fqn@, member@, depth as int),
        decreases 21 - depth, 1int, 0int,
    {
        if depth > MAX_DEPTH {
            return false;
        }
        let segs = split_chars(class_fqn, '.');
        proof {
            lemma_split_nonempty(class_fqn@, '.');
        }
        let k = match self.longest_module_split(&segs, segs.len() - 1) {
            None => {
                return false;
            },
            Some(k) => k,
        };
        let mp = prefix_chars(&segs, k);
        let class_name = join_range(&segs, k, segs.len(), '.');
        assert(seq_views(segs@).subrange(k as int, segs.len() as int) =~= seq_views(segs@).skip(
            k as int,
        ));
        proof {
            lemma_module_pos(self.modules@, mp@);
        }
        match self.get_class_bases(mp.as_slice(), class_name.as_slice()) {
            None => false,
            Some((mi, di)) => {
                let m = &self.modules[mi];
                let bases = &m.definitions[di].bases;
                self.bases_provide(m, bases, 0, member, depth)
            },
        }
    }

    fn bases_provide(&self, module: &Module, bases: &Vec<String>, i: usize, member: &[char], depth: usize) -> (r: bool)
        requires
            depth <= MAX_DEPTH,
            i <= bases.len(),
        ensures
            r == bases_provide(self.modules@, *module, bases@, i as int, member@, depth as int),
        decreases 21 - depth, 0int, bases.len() - i,
    {
        if i >= bases.len() {
            return false;
        }
        let base = chars_of(bases[i].as_str());
        match self.resolve_class_name(base.as_slice(), module) {
            Some(fqn) => {
                let fuel = self.class_search_fuel();
                match self.find_class(fqn.as_slice(), fuel) {
                    Some((mi, di)) => {
                        if find_symbol(&self.modules[mi].definitions[di].members, member).is_some() {
                            return true;
                        }
                    },
                    None => {},
                }
                if self.resolve_via_bases(fqn.as_slice(), member, depth + 1) {
                    return true;
                }
            },
            None => {},
        }
        self.bases_provide(module, bases, i + 1, member, depth)
    }
}

// ---------------------------------------------------------------------------
// Suggestions: specification
// ---------------------------------------------------------------------------

/// Whether a candidate at distance `d` replaces the best one so far: it must
/// differ (`d > 0`), be close enough, and be strictly closer than the best.
pub open spec fn improves(d: nat, max: nat, best: Option<(nat, Seq<char>)>) -> bool {
    d > 0 && d <= max && match best {
        None => true,
        Some((bd, _)) => d < bd,
    }
}

/// The closest definition name to `first` (with `rest` appended), scanning
/// `defs` in order and keeping the first of equally close names.
pub open spec fn fuzzy_defs(defs: Seq<Symbol>, first: Seq<char>, rest: Seq<Seq<char>>, max: nat) -> Option<(nat, Seq<char>)>
    decreases defs.len(),
{
    if defs.len() == 0 {
        None
    } else {
        let acc = fuzzy_defs(defs.drop_last(), first, rest, max);
        let d = crate::util::text_distance(first, defs.last().name@);
        if improves(d, max, acc) {
            Some((d, dotted(defs.last().name@, rest)))
        } else {
            acc
        }
    }
}

/// The closest existing path to `segs` inside `defs`: walk exact names as far
/// as a closer match exists below, otherwise fix the first segment.
pub open spec fn closest_segs(defs: Seq<Symbol>, segs: Seq<Seq<char>>, max: nat) -> Option<Seq<char>>
    decreases segs.len(),
{
    if segs.len() == 0 {
        None
    } else {
        let first = segs[0];
        let q = sym_pos(defs, first);
        let inner = if segs.len() > 1 && q >= 0 {
            closest_segs(defs[q].members@, segs.drop_first(), max)
        } else {
            None
        };
        match inner {
            Some(i) => Some(first.push('.') + i),
            None => match fuzzy_defs(defs, first, segs.drop_first(), max) {
                Some((_, c)) => Some(c),
                None => None,
            },
        }
    }
}

/// The closest matching path in `defs` for a (possibly dotted) `target`.
pub open spec fn spec_closest(defs: Seq<Symbol>, target: Seq<char>, max: nat) -> Option<Seq<char>> {
    closest_segs(defs, split_seq(target, '.'), max)
}

/// Strategy 1 of suggestions: a module prefix exists, fix the rest.
pub open spec fn suggest_in_modules(mods: Seq<Module>, segs: Seq<Seq<char>>, k: int, max: nat) -> Option<Seq<char>>
    decreases k,
{
    if k < 1 {
        None
    } else {
        let mp = prefix_path(segs, k);
        let p = module_pos(mods, mp);
        if p >= 0 {
            match spec_closest(mods[p].definitions@, join_seq(segs.skip(k), '.'), max) {
                Some(c) => Some(mp.push('.') + c),
                None => suggest_in_modules(mods, segs, k - 1, max),
            }
        } else {
            suggest_in_modules(mods, segs, k - 1, max)
        }
    }
}

/// The module whose path, after `prefix`, starts with the segment closest to
/// `typo`, with `rest` appended; modules scanned in order.
pub open spec fn module_fix(mods: Seq<Module>, prefix: Seq<char>, typo: Seq<char>, rest: Seq<Seq<char>>, max: nat) -> Option<(nat, Seq<char>)>
    decreases mods.len(),
{
    if mods.len() == 0 {
        None
    } else {
        let acc = module_fix(mods.drop_last(), prefix, typo, rest, max);
        let mp = mods.last().path@;
        if crate::text::has_prefix(mp, prefix) {
            let first = root_of(mp.skip(prefix.len() as int));
            let d = crate::util::text_distance(typo, first);
            if improves(d, max, acc) {
                Some((d, dotted(prefix + first, rest)))
            } else {
                acc
            }
        } else {
            acc
        }
    }
}

/// The `.`-terminated prefix made of the first `k - 1` segments (empty when
/// those segments join to nothing).
pub open spec fn parent_prefix(segs: Seq<Seq<char>>, k: int) -> Seq<char> {
    let parent = prefix_path(segs, k - 1);
    if parent.len() == 0 {
        parent
    } else {
        parent.push('.')
    }
}

/// Strategy 2 of suggestions: a typo in a module segment.
pub open spec fn suggest_module_typo(mods: Seq<Module>, segs: Seq<Seq<char>>, k: int, max: nat) -> Option<Seq<char>>
    decreases k,
{
    if k < 1 || k > segs.len() {
        None
    } else {
        match module_fix(mods, parent_prefix(segs, k), segs[k - 1], segs.skip(k), max) {
            Some((_, s)) => if spec_resolve(mods, s, 0) {
                Some(s)
            } else {
                suggest_module_typo(mods, segs, k - 1, max)
            },
            None => suggest_module_typo(mods, segs, k - 1, max),
        }
    }
}

/// The "did you mean?" suggestion for an unresolved reference.
pub open spec fn spec_suggest(mods: Seq<Module>, reference: Seq<char>, max: nat) -> Option<Seq<char>> {
    let segs = split_seq(reference, '.');
    match suggest_in_modules(mods, segs, segs.len() - 1, max) {
        Some(s) => Some(s),
        None => suggest_module_typo(mods, segs, segs.len() - 1, max),
    }
}

/// Closest local import name, imports scanned in order.
pub open spec fn short_from_imports(imps: Seq<Import>, name: Seq<char>, max: nat) -> Option<(nat, Seq<char>)>
    decreases imps.len(),
{
    if imps.len() == 0 {
        None
    } else {
        let acc = short_from_imports(imps.drop_last(), name, max);
        let ln = local_name(imps.last());
        let d = crate::util::text_distance(name, ln);
        if improves(d, max, acc) {
            Some((d, ln))
        } else {
            acc
        }
    }
}

/// Continue the search over definition names, starting from `init`.
pub open spec fn short_from_defs(defs: Seq<Symbol>, name: Seq<char>, max: nat, init: Option<(nat, Seq<char>)>) -> Option<(nat, Seq<char>)>
    decreases defs.len(),
{
    if defs.len() == 0 {
        init
    } else {
        let acc = short_from_defs(defs.drop_last(), name, max, init);
        let dn = defs.last().name@;
        let d = crate::util::text_distance(name, dn);
        if improves(d, max, acc) {
            Some((d, dn))
        } else {
            acc
        }
    }
}

/// The closest name in scope of `m` for a short reference.
pub open spec fn spec_suggest_short(m: Module, name: Seq<char>, max: nat) -> Option<Seq<char>> {
    match short_from_defs(m.definitions@, name, max, short_from_imports(m.imports@, name, max)) {
        Some((_, s)) => Some(s),
        None => None,
    }
}

// ---------------------------------------------------------------------------
// Suggestions: implementation
// ---------------------------------------------------------------------------

fn improves_exec(d: usize, max: usize, best: &Option<(usize, Vec<char>)>) -> (r: bool)
    ensures
        r == improves(d as nat, max as nat, opt_view(*best)),
{
    d > 0 && d <= max && match best {
        None => true,
        Some((bd, _)) => d < *bd,
    }
}

/// The plain contents of a best-candidate slot.
pub open spec fn opt_view(b: Option<(usize, Vec<char>)>) -> Option<(nat, Seq<char>)> {
    match b {
        None => None,
        Some((d, v)) => Some((d as nat, v@)),
    }
}

fn fuzzy_in_definitions(defs: &Vec<Symbol>, first: &[char], segs: &Vec<Vec<char>>, from: usize, max: usize) -> (r: Option<(usize, Vec<char>)>)
    requires
        from <= segs.len(),
    ensures
        opt_view(r) == fuzzy_defs(defs@, first@, seq_views(segs@).skip(from as int), max as nat),
{
    let ghost rest = seq_views(segs@).skip(from as int);
    let mut best: Option<(usize, Vec<char>)> = None;
    let mut i: usize = 0;
    assert(defs@.take(0) =~= Seq::<Symbol>::empty());
    while i < defs.len()
        invariant
            i <= defs.len(),
            from <= segs.len(),
            rest == seq_views(segs@).skip(from as int),
            opt_view(best) == fuzzy_defs(defs@.take(i as int), first@, rest, max as nat),
        decreases defs.len() - i,
    {
        assert(defs@.take(i + 1).drop_last() =~= defs@.take(i as int));
        assert(defs@.take(i + 1).last() == defs@[i as int]);
        let nm = chars_of(defs[i].name.as_str());
        let d = crate::util::distance_chars(first, nm.as_slice());
        if improves_exec(d, max, &best) {
            let cand = dotted_from(nm, segs, from);
            best = Some((d, cand));
        }
        i = i + 1;
    }
    assert(defs@.take(defs.len() as int) =~= defs@);
    best
}

fn closest_in_segments(defs: &Vec<Symbol>, segs: &Vec<Vec<char>>, from: usize, max: usize) -> (r: Option<Vec<char>>)
    requires
        from <= segs.len(),
    ensures
        match r {
            Some(v) => closest_segs(defs@, seq_views(segs@).skip(from as int), max as nat) == Some(v@),
            None => closest_segs(defs@, seq_views(segs@).skip(from as int), max as nat) is None,
        },
    decreases segs.len() - from,
{
    let ghost sv = seq_views(segs@).skip(from as int);
    if from == segs.len() {
        return None;
    }
    assert(sv[0] == segs@[from as int]@);
    assert(sv.drop_first() =~= seq_views(segs@).skip(from + 1));
    let first = &segs[from];
    proof {
        lemma_sym_pos(defs@, sv[0]);
    }
    let mut inner: Option<Vec<char>> = None;
    if segs.len() - from > 1 {
        match find_symbol(defs, first.as_slice()) {
            Some(q) => {
                inner = closest_in_segments(&defs[q].members, segs, from + 1, max);
            },
            None => {},
        }
    }
    match inner {
        Some(i) => {
            let mut out = crate::text::slice_chars(first.as_slice(), 0, first.len());
            assert(first@.subrange(0, first@.len() as int) =~= first@);
            out.push('.');
            extend_chars(&mut out, i.as_slice());
            Some(out)
        },
        None => match fuzzy_in_definitions(defs, first.as_slice(), segs, from + 1, max) {
            Some((_, c)) => Some(c),
            None => None,
        },
    }
}

/// Find the closest matching name in definitions for a (possibly dotted) path.
pub fn closest_in_definitions(defs: &Vec<Symbol>, target: &str, max_distance: usize) -> (r: Option<String>)
    ensures
        match r {
            Some(s) => spec_closest(defs@, target@, max_distance as nat) == Some(s@),
            None => spec_closest(defs@, target@, max_distance as nat) is None,
        },
{
    let t = chars_of(target);
    let segs = split_chars(t.as_slice(), '.');
    assert(seq_views(segs@).skip(0) =~= seq_views(segs@));
    match closest_in_segments(defs, &segs, 0, max_distance) {
        Some(v) => Some(string_of(v.as_slice())),
        None => None,
    }
}

impl SymbolGraph {
    fn suggest_in_modules(&self, segs: &Vec<Vec<char>>, k: usize, max: usize) -> (r: Option<Vec<char>>)
        requires
            k <= segs.len(),
        ensures
            match r {
                Some(v) => suggest_in_modules(self.modules@, seq_views(segs@), k as int, max as nat) == Some(v@),
                None => suggest_in_modules(self.modules@, seq_views(segs@), k as int, max as nat) is None,
            },
        decreases k,
    {
        if k < 1 {
            return None;
        }
        let mp = prefix_chars(segs, k);
        proof {
            lemma_module_pos(self.modules@, mp@);
        }
        match find_module(&self.modules, mp.as_slice()) {
            Some(p) => {
                let rest = join_range(segs, k, segs.len(), '.');
                assert(seq_views(segs@).subrange(k as int, segs.len() as int) =~= seq_views(segs@).skip(k as int));
                let rs = string_of(rest.as_slice());
                match closest_in_definitions(&self.modules[p].definitions, rs.as_str(), max) {
                    Some(c) => {
                        let mut out = mp;
                        out.push('.');
                        let cc = chars_of(c.as_str());
                        extend_chars(&mut out, cc.as_slice());
                        Some(out)
                    },
                    None => self.suggest_in_modules(segs, k - 1, max),
                }
            },
            None => self.suggest_in_modules(segs, k - 1, max),
        }
    }

    fn module_fix(&self, prefix: &[char], typo: &[char], segs: &Vec<Vec<char>>, from: usize, max: usize) -> (r: Option<(usize, Vec<char>)>)
        requires
            from <= segs.len(),
        ensures
            opt_view(r) == module_fix(self.modules@, prefix@, typo@, seq_views(segs@).skip(from as int), max as nat),
    {
        let ghost rest = seq_views(segs@).skip(from as int);
        let mut best: Option<(usize, Vec<char>)> = None;
        let mut i: usize = 0;
        assert(self.modules@.take(0) =~= Seq::<Module>::empty());
        while i < self.modules.len()
            invariant
                i <= self.modules.len(),
                from <= segs.len(),
                rest == seq_views(segs@).skip(from as int),
                opt_view(best) == module_fix(self.modules@.take(i as int), prefix@, typo@, rest, max as nat),
            decreases self.modules.len() - i,
        {
            assert(self.modules@.take(i + 1).drop_last() =~= self.modules@.take(i as int));
            assert(self.modules@.take(i + 1).last() == self.modules@[i as int]);
            let mp = chars_of(self.modules[i].path.as_str());
            if crate::text::starts_with(mp.as_slice(), prefix) {
                let suffix = crate::text::slice_chars(mp.as_slice(), prefix.len(), mp.len());
                assert(suffix@ =~= mp@.skip(prefix@.len() as int));
                let parts = split_chars(suffix.as_slice(), '.');
                proof {
                    lemma_split_nonempty(suffix@, '.');
                }
                assert(seq_views(parts@)[0] == parts@[0]@);
                let first = &parts[0];
                let d = crate::util::distance_chars(typo, first.as_slice());
                if improves_exec(d, max, &best) {
                    let mut head = crate::text::slice_chars(prefix, 0, prefix.len());
                    assert(prefix@.subrange(0, prefix@.len() as int) =~= prefix@);
                    extend_chars(&mut head, first.as_slice());
                    let cand = dotted_from(head, segs, from);
                    best = Some((d, cand));
                }
            }
            i = i + 1;
        }
        assert(self.modules@.take(self.modules.len() as int) =~= self.modules@);
        best
    }

    fn suggest_module_typo(&self, segs: &Vec<Vec<char>>, k: usize, max: usize) -> (r: Option<Vec<char>>)
        requires
            k <= segs.len(),
        ensures
            match r {
                Some(v) => suggest_module_typo(self.modules@, seq_views(segs@), k as int, max as nat) == Some(v@),
                None => suggest_module_typo(self.modules@, seq_views(segs@), k as int, max as nat) is None,
            },
        decreases k,
    {
        if k < 1 {
            return None;
        }
        let parent = prefix_chars(segs, k - 1);
        let mut prefix = parent;
        if prefix.len() != 0 {
            prefix.push('.');
        }
        assert(seq_views(segs@)[k - 1] == segs@[k - 1]@);
        match self.module_fix(prefix.as_slice(), segs[k - 1].as_slice(), segs, k, max) {
            Some((_, s)) => {
                if self.resolve_inner(s.as_slice(), 0) {
                    Some(s)
                } else {
                    self.suggest_module_typo(segs, k - 1, max)
                }
            },
            None => self.suggest_module_typo(segs, k - 1, max),
        }
    }

    /// Find the closest matching symbol for a "did you mean?" suggestion.
    ///
    /// Returns `None` if no match is close enough (edit distance > max_distance).
    pub fn suggest(&self, reference: &str, max_distance: usize) -> (r: Option<String>)
        ensures
            match r {
                Some(s) => spec_suggest(self.modules@, reference@, max_distance as nat) == Some(s@),
                None => spec_suggest(self.modules@, reference@, max_distance as nat) is None,
            },
    {
        let c = chars_of(reference);
        let segs = split_chars(c.as_slice(), '.');
        proof {
            lemma_split_nonempty(c@, '.');
        }
        match self.suggest_in_modules(&segs, segs.len() - 1, max_distance) {
            Some(v) => Some(string_of(v.as_slice())),
            None => match self.suggest_module_typo(&segs, segs.len() - 1, max_distance) {
                Some(v) => Some(string_of(v.as_slice())),
                None => None,
            },
        }
    }

    /// Find similar short names from a module's imports and definitions.
    pub fn suggest_short_name(&self, name: &str, module: &Module, max_distance: usize) -> (r: Option<String>)
        ensures
            match r {
                Some(s) => spec_suggest_short(*module, name@, max_distance as nat) == Some(s@),
                None => spec_suggest_short(*module, name@, max_distance as nat) is None,
            },
    {
        let nm = chars_of(name);
        let mut best: Option<(usize, Vec<char>)> = None;
        let mut i: usize = 0;
        assert(module.imports@.take(0) =~= Seq::<Import>::empty());
        while i < module.imports.len()
            invariant
                i <= module.imports.len(),
                nm@ == name@,
                opt_view(best) == short_from_imports(module.imports@.take(i as int), name@, max_distance as nat),
            decreases module.imports.len() - i,
        {
            assert(module.imports@.take(i + 1).drop_last() =~= module.imports@.take(i as int));
            assert(module.imports@.take(i + 1).last() == module.imports@[i as int]);
            let ln = import_local_name(&module.imports[i]);
            let d = crate::util::distance_chars(nm.as_slice(), ln.as_slice());
            if improves_exec(d, max_distance, &best) {
                best = Some((d, ln));
            }
            i = i + 1;
        }
        assert(module.imports@.take(module.imports.len() as int) =~= module.imports@);
        let ghost init = opt_view(best);
        let mut j: usize = 0;
        assert(module.definitions@.take(0) =~= Seq::<Symbol>::empty());
        while j < module.definitions.len()
            invariant
                j <= module.definitions.len(),
                nm@ == name@,
                opt_view(best) == short_from_defs(module.definitions@.take(j as int), name@, max_distance as nat, init),
            decreases module.definitions.len() - j,
        {
            assert(module.definitions@.take(j + 1).drop_last() =~= module.definitions@.take(j as int));
            assert(module.definitions@.take(j + 1).last() == module.definitions@[j as int]);
            let dn = chars_of(module.definitions[j].name.as_str());
            let d = crate::util::distance_chars(nm.as_slice(), dn.as_slice());
            if improves_exec(d, max_distance, &best) {
                best = Some((d, dn));
            }
            j = j + 1;
        }
        assert(module.definitions@.take(module.definitions.len() as int) =~= module.definitions@);
        match best {
            Some((_, s)) => Some(string_of(s.as_slice())),
            None => None,
        }
    }
}

// ---------------------------------------------------------------------------
// Wildcard imports
// ---------------------------------------------------------------------------

/// Whether a name is private by convention (leading `_`).
pub open spec fn is_private_name(name: Seq<char>) -> bool {
    name.len() > 0 && name[0] == '_'
}

/// The public definition names, in order.
pub open spec fn public_names(defs: Seq<Symbol>) -> Seq<Seq<char>>
    decreases defs.len(),
{
    if defs.len() == 0 {
        Seq::empty()
    } else if is_private_name(defs.last().name@) {
        public_names(defs.drop_last())
    } else {
        public_names(defs.drop_last()).push(defs.last().name@)
    }
}

/// The names `from source import *` brings in: `__all__` when the module
/// defines it, otherwise its public definitions; `None` when `source` is
/// not a module of the graph.
pub open spec fn exported_names(mods: Seq<Module>, source: Seq<char>) -> Option<Seq<Seq<char>>> {
    let p = module_pos(mods, source);
    if p < 0 {
        None
    } else {
        match mods[p].all {
            Some(all) => Some(string_views(all@)),
            None => Some(public_names(mods[p].definitions@)),
        }
    }
}

/// Whether `imps` already holds an import of `name` from `source`.
pub open spec fn already_imported(imps: Seq<ImportV>, source: Seq<char>, name: Seq<char>) -> bool {
    exists|k: int| 0 <= k < imps.len() && (#[trigger] imps[k]).source == source && imps[k].name == name
}

/// Append an import of each of `names[..n]` from `source`, skipping those
/// already imported.
pub open spec fn add_names(imps: Seq<ImportV>, source: Seq<char>, names: Seq<Seq<char>>, n: int) -> Seq<ImportV>
    decreases n,
{
    if n <= 0 {
        imps
    } else {
        let acc = add_names(imps, source, names, n - 1);
        if already_imported(acc, source, names[n - 1]) {
            acc
        } else {
            acc.push(ImportV { source, name: names[n - 1], alias: None })
        }
    }
}

/// The imports of every module before any wildcard is expanded.
pub open spec fn initial_imports(mods: Seq<Module>) -> Seq<Seq<ImportV>> {
    Seq::new(mods.len(), |k: int| imports_view(mods[k].imports@))
}

/// Expand one `from source import *` of the module `importer`.
pub open spec fn apply_wildcard(mods: Seq<Module>, st: Seq<Seq<ImportV>>, importer: Seq<char>, source: Seq<char>) -> Seq<Seq<ImportV>> {
    match exported_names(mods, source) {
        None => st,
        Some(names) => {
            let p = module_pos(mods, importer);
            if p < 0 {
                st
            } else {
                st.update(p, add_names(st[p], source, names, names.len() as int))
            }
        },
    }
}

/// Expand the first `j` wildcard imports of module `i`.
pub open spec fn expand_module(mods: Seq<Module>, st: Seq<Seq<ImportV>>, i: int, j: int) -> Seq<Seq<ImportV>>
    decreases j,
{
    if j <= 0 || i < 0 || i >= mods.len() {
        st
    } else {
        apply_wildcard(
            mods,
            expand_module(mods, st, i, j - 1),
            mods[i].path@,
            mods[i].wildcard_imports@[j - 1]@,
        )
    }
}

/// Expand all wildcard imports of the first `i` modules, in order.
pub open spec fn expand_upto(mods: Seq<Module>, i: int) -> Seq<Seq<ImportV>>
    decreases i,
{
    if i <= 0 || i > mods.len() {
        initial_imports(mods)
    } else {
        expand_module(mods, expand_upto(mods, i - 1), i - 1, mods[i - 1].wildcard_imports@.len() as int)
    }
}

/// The imports of every module after all wildcard imports are expanded.
pub open spec fn expanded_imports(mods: Seq<Module>) -> Seq<Seq<ImportV>> {
    expand_upto(mods, mods.len() as int)
}

/// Two modules agree on everything but their imports.
pub open spec fn same_but_imports(a: Module, b: Module) -> bool {
    &&& a.path == b.path
    &&& a.file_path == b.file_path
    &&& a.is_package == b.is_package
    &&& a.definitions == b.definitions
    &&& a.wildcard_imports == b.wildcard_imports
    &&& a.all == b.all
    &&& a.docstrings == b.docstrings
}

proof fn lemma_module_pos_paths(a: Seq<Module>, b: Seq<Module>, path: Seq<char>)
    requires
        a.len() == b.len(),
        forall|k: int| 0 <= k < a.len() ==> (#[trigger] a[k]).path@ == b[k].path@,
    ensures
        module_pos(a, path) == module_pos(b, path),
{
    lemma_module_pos(a, path);
    lemma_module_pos(b, path);
    let pa = module_pos(a, path);
    if pa >= 0 {
        assert(a[pa].path@ == b[pa].path@);
    }
    assert forall|j: int| 0 <= j < b.len() && (pa < 0 || j < pa) implies #[trigger] b[j].path@ != path by {
        assert(a[j].path@ == b[j].path@);
    }
    lemma_module_pos_unique(b, path, pa);
}

proof fn lemma_add_names_len(imps: Seq<ImportV>, source: Seq<char>, names: Seq<Seq<char>>, n: int)
    ensures
        add_names(imps, source, names, n).len() >= imps.len(),
    decreases n,
{
    if n > 0 {
        lemma_add_names_len(imps, source, names, n - 1);
    }
}

impl SymbolGraph {
    /// The names `from source import *` brings in.
    fn exported_names(&self, source: &[char]) -> (r: Option<Vec<Vec<char>>>)
        ensures
            match r {
                Some(v) => exported_names(self.modules@, source@) == Some(seq_views(v@)),
                None => exported_names(self.modules@, source@) is None,
            },
    {
        proof {
            lemma_module_pos(self.modules@, source@);
        }
        let p = match find_module(&self.modules, source) {
            None => {
                return None;
            },
            Some(p) => p,
        };
        let m = &self.modules[p];
        let mut out: Vec<Vec<char>> = Vec::new();
        match &m.all {
            Some(all) => {
                let mut k: usize = 0;
                while k < all.len()
                    invariant
                        k <= all.len(),
                        seq_views(out@) == string_views(all@).take(k as int),
                    decreases all.len() - k,
                {
                    let ghost before = seq_views(out@);
                    out.push(chars_of(all[k].as_str()));
                    assert(seq_views(out@) =~= before.push(all@[k as int]@));
                    assert(string_views(all@).take(k + 1) =~= string_views(all@).take(k as int).push(
                        all@[k as int]@,
                    ));
                    k = k + 1;
                }
                assert(string_views(all@).take(all.len() as int) =~= string_views(all@));
            },
            None => {
                let defs = &m.definitions;
                let mut k: usize = 0;
                assert(defs@.take(0) =~= Seq::<Symbol>::empty());
                assert(seq_views(out@) =~= Seq::<Seq<char>>::empty());
                while k < defs.len()
                    invariant
                        k <= defs.len(),
                        seq_views(out@) == public_names(defs@.take(k as int)),
                    decreases defs.len() - k,
                {
                    assert(defs@.take(k + 1).drop_last() =~= defs@.take(k as int));
                    assert(defs@.take(k + 1).last() == defs@[k as int]);
                    let nm = chars_of(defs[k].name.as_str());
                    if !(nm.len() > 0 && nm[0] == '_') {
                        let ghost before = seq_views(out@);
                        out.push(nm);
                        assert(seq_views(out@) =~= before.push(defs@[k as int].name@));
                    }
                    k = k + 1;
                }
                assert(defs@.take(defs.len() as int) =~= defs@);
            },
        }
        Some(out)
    }

    /// Whether module `p` already imports `name` from `source`.
    fn has_import(&self, p: usize, source: &[char], name: &[char]) -> (r: bool)
        requires
            p < self.modules@.len(),
        ensures
            r == already_imported(imports_view(self.modules@[p as int].imports@), source@, name@),
    {
        let imps = &self.modules[p].imports;
        let ghost iv = imports_view(imps@);
        let mut k: usize = 0;
        while k < imps.len()
            invariant
                k <= imps.len(),
                imps == self.modules@[p as int].imports,
                iv == imports_view(imps@),
                forall|t: int| 0 <= t < k ==> !((#[trigger] iv[t]).source == source@ && iv[t].name == name@),
            decreases imps.len() - k,
        {
            let s = chars_of(imps[k].source.as_str());
            let n = chars_of(imps[k].name.as_str());
            if crate::text::chars_eq(s.as_slice(), source) && crate::text::chars_eq(n.as_slice(), name) {
                assert(iv[k as int].source == source@ && iv[k as int].name == name@);
                return true;
            }
            k = k + 1;
        }
        false
    }

    /// Expand `from X import *` statements by adding the names the source
    /// module exports to the importing module's imports.
    ///
    /// If the source module defines `__all__`, only those names are exported.
    /// Otherwise, all definitions whose name does not start with `_` are.
    /// A name already imported from the same source is not added again.
    pub fn expand_wildcards(&mut self)
        ensures
            final(self).modules@.len() == old(self).modules@.len(),
            final(self).root_packages == old(self).root_packages,
            forall|k: int| 0 <= k < old(self).modules@.len() ==> same_but_imports(
                #[trigger] final(self).modules@[k],
                old(self).modules@[k],
            ),
            forall|k: int| 0 <= k < old(self).modules@.len() ==> imports_view(
                #[trigger] final(self).modules@[k].imports@,
            ) == expanded_imports(old(self).modules@)[k],
            paths_unique(old(self).modules@) ==> paths_unique(final(self).modules@),
    {
        let ghost orig = self.modules@;
        let n = self.modules.len();
        let mut i: usize = 0;
        while i < n
            invariant
                i <= n,
                n == orig.len(),
                self.modules@.len() == n,
                self.root_packages == old(self).root_packages,
                orig == old(self).modules@,
                forall|k: int| 0 <= k < n ==> same_but_imports(#[trigger] self.modules@[k], orig[k]),
                forall|k: int| 0 <= k < n ==> imports_view(#[trigger] self.modules@[k].imports@)
                    == expand_upto(orig, i as int)[k],
                expand_upto(orig, i as int).len() == n,
            decreases n - i,
        {
            let wn = self.modules[i].wildcard_imports.len();
            let mut j: usize = 0;
            let ghost base = expand_upto(orig, i as int);
            while j < wn
                invariant
                    i < n,
                    j <= wn,
                    n == orig.len(),
                    wn == orig[i as int].wildcard_imports@.len(),
                    self.modules@.len() == n,
                    self.root_packages == old(self).root_packages,
                    base.len() == n,
                    forall|k: int| 0 <= k < n ==> same_but_imports(#[trigger] self.modules@[k], orig[k]),
                    forall|k: int| 0 <= k < n ==> imports_view(#[trigger] self.modules@[k].imports@)
                        == expand_module(orig, base, i as int, j as int)[k],
                    expand_module(orig, base, i as int, j as int).len() == n,
                decreases wn - j,
            {
                let ghost st = expand_module(orig, base, i as int, j as int);
                let importer = chars_of(self.modules[i].path.as_str());
                let source = chars_of(self.modules[i].wildcard_imports[j].as_str());
                assert(importer@ == orig[i as int].path@);
                assert(source@ == orig[i as int].wildcard_imports@[j as int]@);
                proof {
                    assert forall|k: int| 0 <= k < n implies (#[trigger] self.modules@[k]).path@ == orig[k].path@ by {
                        assert(same_but_imports(self.modules@[k], orig[k]));
                    }
                    lemma_module_pos_paths(self.modules@, orig, source@);
                    lemma_module_pos_paths(self.modules@, orig, importer@);
                    lemma_module_pos(orig, source@);
                    lemma_module_pos(orig, importer@);
                    let sp = module_pos(orig, source@);
                    if sp >= 0 {
                        assert(same_but_imports(self.modules@[sp], orig[sp]));
                    }
                }
                match self.exported_names(source.as_slice()) {
                    None => {},
                    Some(names) => {
                        match find_module(&self.modules, importer.as_slice()) {
                            None => {},
                            Some(p) => {
                                let ghost start = st[p as int];
                                let mut t: usize = 0;
                                while t < names.len()
                                    invariant
                                        t <= names.len(),
                                        p < n,
                                        p as int == module_pos(orig, importer@),
                                        self.modules@.len() == n,
                                        self.root_packages == old(self).root_packages,
                                        forall|k: int| 0 <= k < n ==> same_but_imports(#[trigger] self.modules@[k], orig[k]),
                                        forall|k: int| 0 <= k < n && k != p ==> imports_view(#[trigger] self.modules@[k].imports@)
                                            == st[k],
                                        imports_view(self.modules@[p as int].imports@) == add_names(
                                            start,
                                            source@,
                                            seq_views(names@),
                                            t as int,
                                        ),
                                    decreases names.len() - t,
                                {
                                    let ghost acc = imports_view(self.modules@[p as int].imports@);
                                    assert(seq_views(names@)[t as int] == names@[t as int]@);
                                    if !self.has_import(p, source.as_slice(), names[t].as_slice()) {
                                        let imp = Import {
                                            source: string_of(source.as_slice()),
                                            name: string_of(names[t].as_slice()),
                                            alias: None,
                                        };
                                        let ghost old_m = self.modules@[p as int];
                                        self.modules[p].imports.push(imp);
                                        assert(imports_view(self.modules@[p as int].imports@) =~= acc.push(
                                            import_view(imp),
                                        ));
                                        assert(same_but_imports(self.modules@[p as int], old_m));
                                    }
                                    t = t + 1;
                                }
                            },
                        }
                    },
                }
                proof {
                    lemma_module_pos(orig, importer@);
                }
                assert forall|k: int| 0 <= k < n implies imports_view(#[trigger] self.modules@[k].imports@)
                    == expand_module(orig, base, i as int, j + 1)[k] by {
                    assert(expand_module(orig, base, i as int, j + 1) == apply_wildcard(
                        orig,
                        st,
                        orig[i as int].path@,
                        orig[i as int].wildcard_imports@[j as int]@,
                    ));
                }
                proof {
                    let pp = module_pos(orig, importer@);
                    match exported_names(orig, source@) {
                        None => {},
                        Some(nm) => {
                            if pp >= 0 {
                                lemma_add_names_len(st[pp], source@, nm, nm.len() as int);
                            }
                        },
                    }
                }
                assert(expand_module(orig, base, i as int, j + 1).len() == n);
                j = j + 1;
            }
            assert(expand_upto(orig, i + 1) == expand_module(orig, base, i as int, wn as int));
            i = i + 1;
        }
        proof {
            if paths_unique(orig) {
                assert forall|a: int, b: int| 0 <= a < b < n implies (#[trigger] self.modules@[a]).path@
                    != (#[trigger] self.modules@[b]).path@ by {
                    assert(same_but_imports(self.modules@[a], orig[a]));
                    assert(same_but_imports(self.modules@[b], orig[b]));
                }
            }
        }
    }
}

// ---------------------------------------------------------------------------
// Laws of the graph
// ---------------------------------------------------------------------------

/// After a module is added, looking up its path finds exactly that module,
/// and lookups of every other path are unchanged.
pub proof fn law_add_module_then_find(mods: Seq<Module>, m: Module, other: Seq<char>)
    requires
        other != m.path@,
    ensures
        module_pos(insert_module(mods, m), m.path@) >= 0,
        insert_module(mods, m)[module_pos(insert_module(mods, m), m.path@)] == m,
        module_pos(insert_module(mods, m), other) >= 0 <==> module_pos(mods, other) >= 0,
        module_pos(mods, other) >= 0 ==> insert_module(mods, m)[module_pos(
            insert_module(mods, m),
            other,
        )] == mods[module_pos(mods, other)],
{
    let path = m.path@;
    let new = insert_module(mods, m);
    lemma_module_pos(mods, path);
    lemma_module_pos(mods, other);
    let p = module_pos(mods, path);
    let q = module_pos(mods, other);
    if p >= 0 {
        assert forall|j: int| 0 <= j < new.len() && j < p implies #[trigger] new[j].path@ != path by {
            assert(new[j] == mods[j]);
        }
        lemma_module_pos_unique(new, path, p);
        assert forall|j: int| 0 <= j < new.len() && (q < 0 || j < q) implies #[trigger] new[j].path@ != other by {
            if j != p {
                assert(new[j] == mods[j]);
            }
        }
        if q >= 0 {
            assert(q != p);
            assert(new[q] == mods[q]);
        }
        lemma_module_pos_unique(new, other, q);
    } else {
        assert forall|j: int| 0 <= j < new.len() && j < mods.len() implies #[trigger] new[j].path@ != path by {
            assert(new[j] == mods[j]);
        }
        lemma_module_pos_unique(new, path, mods.len() as int);
        assert forall|j: int| 0 <= j < new.len() && (q < 0 || j < q) implies #[trigger] new[j].path@ != other by {
            if j < mods.len() {
                assert(new[j] == mods[j]);
            }
        }
        if q >= 0 {
            assert(new[q] == mods[q]);
        }
        lemma_module_pos_unique(new, other, q);
    }
}

/// The path made of all pieces of `a` is `a` itself.
proof fn lemma_prefix_whole(a: Seq<char>)
    ensures
        prefix_path(split_seq(a, '.'), split_seq(a, '.').len() as int) == a,
{
    let segs = split_seq(a, '.');
    assert(segs.take(segs.len() as int) =~= segs);
    lemma_join_split(a, '.');
}

/// Splitting `a.b` (with `b` free of dots) gives the pieces of `a`, then `b`;
/// the first pieces form `a` again.
proof fn lemma_dotted_pieces(a: Seq<char>, b: Seq<char>)
    requires
        !b.contains('.'),
    ensures
        split_seq(a.push('.') + b, '.') == split_seq(a, '.').push(b),
        prefix_path(split_seq(a.push('.') + b, '.'), split_seq(a, '.').len() as int) == a,
        split_seq(a.push('.') + b, '.').skip(split_seq(a, '.').len() as int) == seq![b],
{
    lemma_split_append(a, b, '.');
    let segs = split_seq(a, '.').push(b);
    assert(segs.take(split_seq(a, '.').len() as int) =~= split_seq(a, '.'));
    assert(segs.skip(split_seq(a, '.').len() as int) =~= seq![b]);
    lemma_join_split(a, '.');
}

/// Every module of the graph resolves under its own path.
pub proof fn law_module_path_resolves(mods: Seq<Module>, path: Seq<char>, depth: int)
    requires
        module_pos(mods, path) >= 0,
        0 <= depth <= MAX_DEPTH,
    ensures
        spec_resolve(mods, path, depth),
{
    let segs = split_seq(path, '.');
    lemma_split_nonempty(path, '.');
    lemma_prefix_whole(path);
    assert(resolve_at(mods, segs, segs.len() as int, depth));
}

/// A top-level definition `name` of module `mpath` resolves as `mpath.name`.
pub proof fn law_definition_resolves(mods: Seq<Module>, mpath: Seq<char>, name: Seq<char>, depth: int)
    requires
        module_pos(mods, mpath) >= 0,
        !name.contains('.'),
        sym_pos(mods[module_pos(mods, mpath)].definitions@, name) >= 0,
        0 <= depth <= MAX_DEPTH,
    ensures
        spec_resolve(mods, mpath.push('.') + name, depth),
{
    let r = mpath.push('.') + name;
    let segs = split_seq(r, '.');
    let l = split_seq(mpath, '.').len() as int;
    lemma_split_nonempty(mpath, '.');
    lemma_dotted_pieces(mpath, name);
    assert(segs.len() == l + 1);
    let m = mods[module_pos(mods, mpath)];
    assert(segs.skip(l) == seq![name]);
    assert(resolve_in_defs(m.definitions@, seq![name]));
    assert(resolve_at(mods, segs, l, depth));
    assert(resolve_splits(mods, segs, l, depth));
    assert(resolve_splits(mods, segs, l + 1, depth));
}

/// A name bound by an import resolves through it: when the first import of
/// module `mpath` that binds `local` is `from S import X`, and module `S`
/// defines `X`, then `mpath.local` resolves.
pub proof fn law_reexport_resolves(mods: Seq<Module>, mpath: Seq<char>, local: Seq<char>, depth: int)
    requires
        module_pos(mods, mpath) >= 0,
        !local.contains('.'),
        import_pos(mods[module_pos(mods, mpath)].imports@, local) >= 0,
        ({
            let imp = mods[module_pos(mods, mpath)].imports@[import_pos(
                mods[module_pos(mods, mpath)].imports@,
                local,
            )];
            &&& module_pos(mods, imp.source@) >= 0
            &&& !imp.name@.contains('.')
            &&& sym_pos(mods[module_pos(mods, imp.source@)].definitions@, imp.name@) >= 0
        }),
        0 <= depth < MAX_DEPTH,
    ensures
        spec_resolve(mods, mpath.push('.') + local, depth),
{
    let r = mpath.push('.') + local;
    let segs = split_seq(r, '.');
    let l = split_seq(mpath, '.').len() as int;
    lemma_split_nonempty(mpath, '.');
    lemma_dotted_pieces(mpath, local);
    let m = mods[module_pos(mods, mpath)];
    let imp = m.imports@[import_pos(m.imports@, local)];
    lemma_import_pos(m.imports@, local);
    assert(segs.skip(l) == seq![local]);
    let rest = seq![local].drop_first();
    assert(rest =~= Seq::<Seq<char>>::empty());
    assert(seq![import_target(imp)] + rest =~= seq![import_target(imp)]);
    assert(dotted(import_target(imp), rest) == import_target(imp));
    law_definition_resolves(mods, imp.source@, imp.name@, depth + 1);
    assert(resolve_via_import(mods, m, seq![local], depth));
    assert(resolve_at(mods, segs, l, depth));
    assert(resolve_splits(mods, segs, l, depth));
    assert(resolve_splits(mods, segs, l + 1, depth));
}

proof fn lemma_bases_provide_from(mods: Seq<Module>, m: Module, bases: Seq<String>, i: int, j: int, member: Seq<char>, depth: int)
    requires
        0 <= i <= j < bases.len(),
        depth <= MAX_DEPTH,
        bases_provide(mods, m, bases, j, member, depth),
    ensures
        bases_provide(mods, m, bases, i, member, depth),
    decreases j - i,
{
    if i < j {
        lemma_bases_provide_from(mods, m, bases, i + 1, j, member, depth);
    }
}

/// Inherited members resolve: when class `cls` of module `mpath` lists a
/// base `base` that the module itself defines as a class (and no import of
/// the module binds that name), every member of the base class resolves as
/// `mpath.cls.member`.
pub proof fn law_inherited_member_resolves(
    mods: Seq<Module>,
    mpath: Seq<char>,
    cls: Seq<char>,
    j: int,
    member: Seq<char>,
    depth: int,
)
    requires
        module_pos(mods, mpath) >= 0,
        !cls.contains('.'),
        !member.contains('.'),
        ({
            let m = mods[module_pos(mods, mpath)];
            let c = sym_pos(m.definitions@, cls);
            &&& c >= 0
            &&& m.definitions@[c].kind == SymbolKind::Class
            &&& 0 <= j < m.definitions@[c].bases@.len()
            &&& ({
                let base = m.definitions@[c].bases@[j]@;
                let b = sym_pos(m.definitions@, base);
                &&& !base.contains('.')
                &&& import_pos(m.imports@, base) < 0
                &&& b >= 0
                &&& m.definitions@[b].kind == SymbolKind::Class
                &&& sym_pos(m.definitions@[b].members@, member) >= 0
            })
        }),
        0 <= depth < MAX_DEPTH,
    ensures
        spec_resolve(mods, (mpath.push('.') + cls).push('.') + member, depth),
{
    let p = module_pos(mods, mpath);
    let m = mods[p];
    let c = sym_pos(m.definitions@, cls);
    let bases = m.definitions@[c].bases@;
    let base = bases[j]@;
    let cfqn = mpath.push('.') + cls;
    let r = cfqn.push('.') + member;
    let l = split_seq(mpath, '.').len() as int;
    lemma_split_nonempty(mpath, '.');
    lemma_dotted_pieces(mpath, cls);
    lemma_dotted_pieces(cfqn, member);
    lemma_sym_pos(m.definitions@, cls);
    let segs = split_seq(r, '.');
    assert(segs == split_seq(mpath, '.').push(cls).push(member));
    assert(segs.len() == l + 2);
    assert(segs.take(l) =~= split_seq(mpath, '.'));
    lemma_join_split(mpath, '.');
    assert(join_seq(segs.take(l), '.') == mpath);
    assert(prefix_path(segs, l) == mpath);
    lemma_module_pos(mods, mpath);
    assert(m.path@ == mpath);
    let remaining = segs.skip(l);
    assert(remaining =~= seq![cls, member]);
    // The base class lookup.
    let csegs = split_seq(cfqn, '.');
    assert(csegs.len() == l + 1);
    assert(prefix_path(csegs, l) == mpath);
    assert(longest_module_split(mods, csegs, l) == l);
    assert(csegs.skip(l) == seq![cls]);
    assert(join_seq(seq![cls], '.') == cls);
    assert(class_bases(m, cls) == Some(bases));
    let bfqn = mpath.push('.') + base;
    lemma_dotted_pieces(mpath, base);
    assert(!base.contains('.'));
    assert(spec_resolve_class_name(mods, base, m) == Some(bfqn));
    let bsegs = split_seq(bfqn, '.');
    assert(bsegs.len() == l + 1);
    assert(prefix_path(bsegs, l) == mpath);
    assert(bsegs[l] == base);
    let b = sym_pos(m.definitions@, base);
    let fuel = class_fuel(mods);
    assert(fuel >= 1);
    assert(find_class_splits(mods, bsegs, l, fuel) == Some(m.definitions@[b]));
    assert(spec_find_class(mods, bfqn, fuel) == Some(m.definitions@[b]));
    assert(bases_provide(mods, m, bases, j, member, depth + 1));
    lemma_bases_provide_from(mods, m, bases, 0, j, member, depth + 1);
    assert(spec_resolve_via_bases(mods, cfqn, member, depth + 1));
    assert(resolve_at(mods, segs, l, depth));
    assert(resolve_splits(mods, segs, l, depth));
    assert(resolve_splits(mods, segs, l + 1, depth));
    assert(resolve_splits(mods, segs, l + 2, depth));
}

/// Members inherited from an imported base resolve: when class `cls` of
/// module `mpath` lists a base name `base` that the first import of the
/// module binding it (`from S import X`, index `i`) brings in, and module `S`
/// defines `X` as a class with member `member`, then `mpath.cls.member`
/// resolves.
pub proof fn law_imported_base_member_resolves(
    mods: Seq<Module>,
    mpath: Seq<char>,
    cls: Seq<char>,
    j: int,
    i: int,
    member: Seq<char>,
    depth: int,
)
    requires
        module_pos(mods, mpath) >= 0,
        !cls.contains('.'),
        !member.contains('.'),
        ({
            let m = mods[module_pos(mods, mpath)];
            let c = sym_pos(m.definitions@, cls);
            &&& c >= 0
            &&& m.definitions@[c].kind == SymbolKind::Class
            &&& 0 <= j < m.definitions@[c].bases@.len()
            &&& ({
                let base = m.definitions@[c].bases@[j]@;
                &&& !base.contains('.')
                &&& 0 <= i < m.imports@.len()
                &&& local_name(m.imports@[i]) == base
                &&& forall|k: int| 0 <= k < i ==> local_name(#[trigger] m.imports@[k]) != base
                &&& ({
                    let imp = m.imports@[i];
                    let s = module_pos(mods, imp.source@);
                    &&& s >= 0
                    &&& !imp.name@.contains('.')
                    &&& sym_pos(mods[s].definitions@, imp.name@) >= 0
                    &&& mods[s].definitions@[sym_pos(mods[s].definitions@, imp.name@)].kind == SymbolKind::Class
                    &&& sym_pos(
                        mods[s].definitions@[sym_pos(mods[s].definitions@, imp.name@)].members@,
                        member,
                    ) >= 0
                })
            })
        }),
        0 <= depth < MAX_DEPTH,
    ensures
        spec_resolve(mods, (mpath.push('.') + cls).push('.') + member, depth),
{
    let p = module_pos(mods, mpath);
    let m = mods[p];
    let c = sym_pos(m.definitions@, cls);
    let bases = m.definitions@[c].bases@;
    let base = bases[j]@;
    let cfqn = mpath.push('.') + cls;
    let r = cfqn.push('.') + member;
    let l = split_seq(mpath, '.').len() as int;
    lemma_split_nonempty(mpath, '.');
    lemma_dotted_pieces(mpath, cls);
    lemma_dotted_pieces(cfqn, member);
    lemma_sym_pos(m.definitions@, cls);
    let segs = split_seq(r, '.');
    assert(segs == split_seq(mpath, '.').push(cls).push(member));
    assert(segs.take(l) =~= split_seq(mpath, '.'));
    lemma_join_split(mpath, '.');
    assert(prefix_path(segs, l) == mpath);
    lemma_module_pos(mods, mpath);
    let remaining = segs.skip(l);
    assert(remaining =~= seq![cls, member]);
    let csegs = split_seq(cfqn, '.');
    assert(prefix_path(csegs, l) == mpath);
    assert(longest_module_split(mods, csegs, l) == l);
    assert(csegs.skip(l) == seq![cls]);
    assert(join_seq(seq![cls], '.') == cls);
    assert(class_bases(m, cls) == Some(bases));
    // The base name is bound by import `i`.
    lemma_import_pos(m.imports@, base);
    lemma_import_pos_unique(m.imports@, base, i);
    let imp = m.imports@[i];
    let src = imp.source@;
    let bfqn = import_target(imp);
    assert(spec_resolve_class_name(mods, base, m) == Some(bfqn));
    // The imported class is found in module `S`.
    let ls = split_seq(src, '.').len() as int;
    lemma_split_nonempty(src, '.');
    lemma_dotted_pieces(src, imp.name@);
    let bsegs = split_seq(bfqn, '.');
    assert(bsegs.len() == ls + 1);
    assert(prefix_path(bsegs, ls) == src);
    assert(bsegs[ls] == imp.name@);
    let fuel = class_fuel(mods);
    assert(fuel >= 1);
    let sm = mods[module_pos(mods, src)];
    let b = sym_pos(sm.definitions@, imp.name@);
    assert(find_class_splits(mods, bsegs, ls, fuel) == Some(sm.definitions@[b]));
    assert(spec_find_class(mods, bfqn, fuel) == Some(sm.definitions@[b]));
    assert(bases_provide(mods, m, bases, j, member, depth + 1));
    lemma_bases_provide_from(mods, m, bases, 0, j, member, depth + 1);
    assert(spec_resolve_via_bases(mods, cfqn, member, depth + 1));
    assert(resolve_at(mods, segs, l, depth));
    assert(resolve_splits(mods, segs, l, depth));
    assert(resolve_splits(mods, segs, l + 1, depth));
    assert(resolve_splits(mods, segs, l + 2, depth));
}

// ---------------------------------------------------------------------------
// Laws of wildcard expansion
// ---------------------------------------------------------------------------

/// `a` is a prefix of `b`.
pub open spec fn imports_prefix(a: Seq<ImportV>, b: Seq<ImportV>) -> bool {
    a.len() <= b.len() && b.take(a.len() as int) == a
}

/// Every import list of `a` is a prefix of the one of `b`.
pub open spec fn imports_grow(a: Seq<Seq<ImportV>>, b: Seq<Seq<ImportV>>) -> bool {
    a.len() == b.len() && forall|k: int| 0 <= k < a.len() ==> imports_prefix(#[trigger] a[k], b[k])
}

proof fn lemma_prefix_trans(a: Seq<ImportV>, b: Seq<ImportV>, c: Seq<ImportV>)
    requires
        imports_prefix(a, b),
        imports_prefix(b, c),
    ensures
        imports_prefix(a, c),
{
    assert(c.take(a.len() as int) =~= c.take(b.len() as int).take(a.len() as int));
}

proof fn lemma_grow_trans(a: Seq<Seq<ImportV>>, b: Seq<Seq<ImportV>>, c: Seq<Seq<ImportV>>)
    requires
        imports_grow(a, b),
        imports_grow(b, c),
    ensures
        imports_grow(a, c),
{
    assert forall|k: int| 0 <= k < a.len() implies imports_prefix(#[trigger] a[k], c[k]) by {
        lemma_prefix_trans(a[k], b[k], c[k]);
    }
}

proof fn lemma_imported_kept(a: Seq<ImportV>, b: Seq<ImportV>, source: Seq<char>, name: Seq<char>)
    requires
        imports_prefix(a, b),
        already_imported(a, source, name),
    ensures
        already_imported(b, source, name),
{
    let k = choose|k: int| 0 <= k < a.len() && (#[trigger] a[k]).source == source && a[k].name == name;
    assert(b.take(a.len() as int)[k] == b[k]);
}

proof fn lemma_add_names(imps: Seq<ImportV>, source: Seq<char>, names: Seq<Seq<char>>, n: int)
    requires
        0 <= n <= names.len(),
    ensures
        imports_prefix(imps, add_names(imps, source, names, n)),
        forall|x: int| 0 <= x < n ==> already_imported(add_names(imps, source, names, n), source, #[trigger] names[x]),
    decreases n,
{
    if n > 0 {
        lemma_add_names(imps, source, names, n - 1);
        let acc = add_names(imps, source, names, n - 1);
        let res = add_names(imps, source, names, n);
        assert(imports_prefix(acc, res)) by {
            assert(res.take(acc.len() as int) =~= acc);
        }
        lemma_prefix_trans(imps, acc, res);
        assert forall|x: int| 0 <= x < n implies already_imported(res, source, #[trigger] names[x]) by {
            if x < n - 1 {
                lemma_imported_kept(acc, res, source, names[x]);
            } else if !already_imported(acc, source, names[x]) {
                assert(res[acc.len() as int].source == source);
            }
        }
    } else {
        assert(imps.take(imps.len() as int) =~= imps);
    }
}

proof fn lemma_apply_grows(mods: Seq<Module>, st: Seq<Seq<ImportV>>, importer: Seq<char>, source: Seq<char>)
    requires
        st.len() == mods.len(),
    ensures
        imports_grow(st, apply_wildcard(mods, st, importer, source)),
{
    let res = apply_wildcard(mods, st, importer, source);
    match exported_names(mods, source) {
        None => {
            assert forall|k: int| 0 <= k < st.len() implies imports_prefix(#[trigger] st[k], res[k]) by {
                assert(st[k].take(st[k].len() as int) =~= st[k]);
            }
        },
        Some(names) => {
            lemma_module_pos(mods, importer);
            let p = module_pos(mods, importer);
            assert forall|k: int| 0 <= k < st.len() implies imports_prefix(#[trigger] st[k], res[k]) by {
                if p >= 0 && k == p {
                    lemma_add_names(st[p], source, names, names.len() as int);
                } else {
                    assert(st[k].take(st[k].len() as int) =~= st[k]);
                }
            }
        },
    }
}

proof fn lemma_expand_module_grows(mods: Seq<Module>, st: Seq<Seq<ImportV>>, i: int, j: int)
    requires
        st.len() == mods.len(),
    ensures
        imports_grow(st, expand_module(mods, st, i, j)),
    decreases j,
{
    if j <= 0 || i < 0 || i >= mods.len() {
        assert forall|k: int| 0 <= k < st.len() implies imports_prefix(#[trigger] st[k], st[k]) by {
            assert(st[k].take(st[k].len() as int) =~= st[k]);
        }
    } else {
        lemma_expand_module_grows(mods, st, i, j - 1);
        let mid = expand_module(mods, st, i, j - 1);
        lemma_apply_grows(mods, mid, mods[i].path@, mods[i].wildcard_imports@[j - 1]@);
        lemma_grow_trans(st, mid, expand_module(mods, st, i, j));
    }
}

proof fn lemma_expand_upto_len(mods: Seq<Module>, i: int)
    ensures
        expand_upto(mods, i).len() == mods.len(),
    decreases i,
{
    if 0 < i <= mods.len() {
        lemma_expand_upto_len(mods, i - 1);
        lemma_expand_module_grows(
            mods,
            expand_upto(mods, i - 1),
            i - 1,
            mods[i - 1].wildcard_imports@.len() as int,
        );
    }
}

proof fn lemma_expand_upto_grows(mods: Seq<Module>, a: int, b: int)
    requires
        0 <= a <= b <= mods.len(),
    ensures
        imports_grow(expand_upto(mods, a), expand_upto(mods, b)),
    decreases b - a,
{
    lemma_expand_upto_len(mods, a);
    if a == b {
        let s = expand_upto(mods, a);
        assert forall|k: int| 0 <= k < s.len() implies imports_prefix(#[trigger] s[k], s[k]) by {
            assert(s[k].take(s[k].len() as int) =~= s[k]);
        }
    } else {
        lemma_expand_upto_grows(mods, a, b - 1);
        lemma_expand_upto_len(mods, b - 1);
        lemma_expand_module_grows(
            mods,
            expand_upto(mods, b - 1),
            b - 1,
            mods[b - 1].wildcard_imports@.len() as int,
        );
        lemma_grow_trans(expand_upto(mods, a), expand_upto(mods, b - 1), expand_upto(mods, b));
    }
}

proof fn lemma_expand_module_imports(mods: Seq<Module>, st: Seq<Seq<ImportV>>, i: int, j: int, w: int)
    requires
        st.len() == mods.len(),
        0 <= i < mods.len(),
        0 <= w < j <= mods[i].wildcard_imports@.len(),
        exported_names(mods, mods[i].wildcard_imports@[w]@) is Some,
    ensures
        forall|x: int|
            0 <= x < exported_names(mods, mods[i].wildcard_imports@[w]@)->0.len() ==> already_imported(
                expand_module(mods, st, i, j)[module_pos(mods, mods[i].path@)],
                mods[i].wildcard_imports@[w]@,
                #[trigger] exported_names(mods, mods[i].wildcard_imports@[w]@)->0[x],
            ),
    decreases j,
{
    let source = mods[i].wildcard_imports@[w]@;
    let names = exported_names(mods, source)->0;
    let mid = expand_module(mods, st, i, j - 1);
    let res = expand_module(mods, st, i, j);
    let p = module_pos(mods, mods[i].path@);
    lemma_module_pos(mods, mods[i].path@);
    assert(0 <= p < mods.len());
    lemma_expand_module_grows(mods, st, i, j - 1);
    if w < j - 1 {
        lemma_expand_module_imports(mods, st, i, j - 1, w);
        lemma_apply_grows(mods, mid, mods[i].path@, mods[i].wildcard_imports@[j - 1]@);
        assert forall|x: int| 0 <= x < names.len() implies already_imported(res[p], source, #[trigger] names[x]) by {
            lemma_imported_kept(mid[p], res[p], source, names[x]);
        }
    } else {
        lemma_add_names(mid[p], source, names, names.len() as int);
    }
}

/// Wildcard expansion brings every name that a wildcard-imported module
/// exports (its `__all__`, or else its public definitions) into the
/// importing module as an import from that module.
pub proof fn law_wildcard_brings_names(mods: Seq<Module>, i: int, w: int, x: int)
    requires
        0 <= i < mods.len(),
        module_pos(mods, mods[i].path@) == i,
        0 <= w < mods[i].wildcard_imports@.len(),
        exported_names(mods, mods[i].wildcard_imports@[w]@) is Some,
        0 <= x < exported_names(mods, mods[i].wildcard_imports@[w]@)->0.len(),
    ensures
        already_imported(
            expanded_imports(mods)[i],
            mods[i].wildcard_imports@[w]@,
            exported_names(mods, mods[i].wildcard_imports@[w]@)->0[x],
        ),
{
    let source = mods[i].wildcard_imports@[w]@;
    let names = exported_names(mods, source)->0;
    lemma_expand_upto_len(mods, i);
    lemma_expand_module_imports(
        mods,
        expand_upto(mods, i),
        i,
        mods[i].wildcard_imports@.len() as int,
        w,
    );
    assert(already_imported(expand_upto(mods, i + 1)[i], source, names[x]));
    lemma_expand_upto_grows(mods, i + 1, mods.len() as int);
    lemma_expand_upto_len(mods, i + 1);
    assert(imports_prefix(expand_upto(mods, i + 1)[i], expand_upto(mods, mods.len() as int)[i]));
    lemma_imported_kept(expand_upto(mods, i + 1)[i], expanded_imports(mods)[i], source, names[x]);
}

/// Wildcard expansion only adds imports: each module's own imports come
/// first, unchanged.
pub proof fn law_wildcard_keeps_imports(mods: Seq<Module>, i: int)
    requires
        0 <= i < mods.len(),
    ensures
        imports_prefix(imports_view(mods[i].imports@), expanded_imports(mods)[i]),
{
    lemma_expand_upto_grows(mods, 0, mods.len() as int);
    assert(expand_upto(mods, 0)[i] == imports_view(mods[i].imports@));
    assert(imports_prefix(expand_upto(mods, 0)[i], expand_upto(mods, mods.len() as int)[i]));
}

/// Every name that some wildcard import of `mods` would bring in is already
/// imported, from that source, in the import list `st` of the importing
/// module.
pub open spec fn wildcards_saturated(mods: Seq<Module>, st: Seq<Seq<ImportV>>) -> bool {
    forall|i: int, w: int, x: int|
        #![trigger mods[i].wildcard_imports@[w], exported_names(mods, mods[i].wildcard_imports@[w]@)->0[x]]
        0 <= i < mods.len() && 0 <= w < mods[i].wildcard_imports@.len() && exported_names(
            mods,
            mods[i].wildcard_imports@[w]@,
        ) is Some && 0 <= x < exported_names(mods, mods[i].wildcard_imports@[w]@)->0.len()
            ==> already_imported(
            st[module_pos(mods, mods[i].path@)],
            mods[i].wildcard_imports@[w]@,
            exported_names(mods, mods[i].wildcard_imports@[w]@)->0[x],
        )
}

proof fn lemma_add_names_nothing_new(imps: Seq<ImportV>, source: Seq<char>, names: Seq<Seq<char>>, n: int)
    requires
        n <= names.len(),
        forall|x: int| 0 <= x < n ==> already_imported(imps, source, #[trigger] names[x]),
    ensures
        add_names(imps, source, names, n) == imps,
    decreases n,
{
    if n > 0 {
        lemma_add_names_nothing_new(imps, source, names, n - 1);
        assert(already_imported(imps, source, names[n - 1]));
    }
}

proof fn lemma_expand_module_saturated(mods: Seq<Module>, st: Seq<Seq<ImportV>>, i: int, j: int)
    requires
        st.len() == mods.len(),
        0 <= i < mods.len(),
        j <= mods[i].wildcard_imports@.len(),
        wildcards_saturated(mods, st),
    ensures
        expand_module(mods, st, i, j) == st,
    decreases j,
{
    if j > 0 {
        lemma_expand_module_saturated(mods, st, i, j - 1);
        let source = mods[i].wildcard_imports@[j - 1]@;
        match exported_names(mods, source) {
            None => {},
            Some(names) => {
                lemma_module_pos(mods, mods[i].path@);
                let p = module_pos(mods, mods[i].path@);
                assert forall|x: int| 0 <= x < names.len() implies already_imported(
                    st[p],
                    source,
                    #[trigger] names[x],
                ) by {
                    assert(mods[i].wildcard_imports@[j - 1] == mods[i].wildcard_imports@[j - 1]);
                    assert(exported_names(mods, mods[i].wildcard_imports@[j - 1]@)->0[x] == names[x]);
                }
                lemma_add_names_nothing_new(st[p], source, names, names.len() as int);
                assert(st.update(p, st[p]) =~= st);
            },
        }
    }
}

proof fn lemma_expanded_saturated(mods: Seq<Module>)
    ensures
        wildcards_saturated(mods, expanded_imports(mods)),
{
    let fin = expanded_imports(mods);
    assert forall|i: int, w: int, x: int|
        0 <= i < mods.len() && 0 <= w < mods[i].wildcard_imports@.len() && exported_names(
            mods,
            mods[i].wildcard_imports@[w]@,
        ) is Some && 0 <= x < exported_names(mods, mods[i].wildcard_imports@[w]@)->0.len()
        implies #[trigger] already_imported(
            fin[module_pos(mods, mods[i].path@)],
            mods[i].wildcard_imports@[w]@,
            exported_names(mods, mods[i].wildcard_imports@[w]@)->0[x],
        ) by {
        let source = mods[i].wildcard_imports@[w]@;
        let names = exported_names(mods, source)->0;
        let p = module_pos(mods, mods[i].path@);
        lemma_module_pos(mods, mods[i].path@);
        lemma_expand_upto_len(mods, i);
        lemma_expand_module_imports(
            mods,
            expand_upto(mods, i),
            i,
            mods[i].wildcard_imports@.len() as int,
            w,
        );
        assert(already_imported(expand_upto(mods, i + 1)[p], source, names[x]));
        lemma_expand_upto_grows(mods, i + 1, mods.len() as int);
        lemma_expand_upto_len(mods, i + 1);
        assert(imports_prefix(expand_upto(mods, i + 1)[p], fin[p]));
        lemma_imported_kept(expand_upto(mods, i + 1)[p], fin[p], source, names[x]);
    }
}

proof fn lemma_expand_upto_saturated(mods: Seq<Module>, i: int)
    requires
        0 <= i <= mods.len(),
        wildcards_saturated(mods, initial_imports(mods)),
    ensures
        expand_upto(mods, i) == initial_imports(mods),
    decreases i,
{
    if i > 0 {
        lemma_expand_upto_saturated(mods, i - 1);
        lemma_expand_module_saturated(
            mods,
            initial_imports(mods),
            i - 1,
            mods[i - 1].wildcard_imports@.len() as int,
        );
    }
}

/// Wildcard expansion is idempotent: when `m1` is what one expansion made
/// of `m0` (the same modules, each with the expanded imports of `m0`), a
/// second expansion of `m1` gives every module exactly the imports it
/// already has, so no import is added twice.
pub proof fn law_wildcard_idempotent(m0: Seq<Module>, m1: Seq<Module>)
    requires
        m1.len() == m0.len(),
        forall|k: int| 0 <= k < m0.len() ==> same_but_imports(#[trigger] m1[k], m0[k]),
        forall|k: int| 0 <= k < m0.len() ==> imports_view(#[trigger] m1[k].imports@) == expanded_imports(m0)[k],
    ensures
        forall|k: int| 0 <= k < m1.len() ==> #[trigger] expanded_imports(m1)[k] == imports_view(m1[k].imports@),
{
    let fin = expanded_imports(m0);
    lemma_expand_upto_len(m0, m0.len() as int);
    assert(initial_imports(m1) =~= fin);
    assert forall|k: int| 0 <= k < m0.len() implies (#[trigger] m0[k]).path@ == m1[k].path@ by {
        assert(same_but_imports(m1[k], m0[k]));
    }
    assert forall|src: Seq<char>| #[trigger] exported_names(m1, src) == exported_names(m0, src) by {
        lemma_module_pos_paths(m0, m1, src);
        lemma_module_pos(m0, src);
        let p = module_pos(m0, src);
        if p >= 0 {
            assert(same_but_imports(m1[p], m0[p]));
        }
    }
    lemma_expanded_saturated(m0);
    assert(wildcards_saturated(m1, initial_imports(m1))) by {
        assert forall|i: int, w: int, x: int|
            0 <= i < m1.len() && 0 <= w < m1[i].wildcard_imports@.len() && exported_names(
                m1,
                m1[i].wildcard_imports@[w]@,
            ) is Some && 0 <= x < exported_names(m1, m1[i].wildcard_imports@[w]@)->0.len()
            implies #[trigger] already_imported(
                initial_imports(m1)[module_pos(m1, m1[i].path@)],
                m1[i].wildcard_imports@[w]@,
                exported_names(m1, m1[i].wildcard_imports@[w]@)->0[x],
            ) by {
            assert(same_but_imports(m1[i], m0[i]));
            lemma_module_pos_paths(m0, m1, m1[i].path@);
            assert(m0[i].wildcard_imports@[w] == m0[i].wildcard_imports@[w]);
            assert(exported_names(m0, m0[i].wildcard_imports@[w]@)->0[x] == exported_names(
                m1,
                m1[i].wildcard_imports@[w]@,
            )->0[x]);
        }
    }
    lemma_expand_upto_saturated(m1, m1.len() as int);
}

// ---------------------------------------------------------------------------
// Laws: names and paths stay unique
// ---------------------------------------------------------------------------

/// No two definitions share a name (the keys of a name-keyed table).
pub open spec fn names_unique(defs: Seq<Symbol>) -> bool {
    forall|i: int, j: int| 0 <= i < j < defs.len() ==> (#[trigger] defs[i]).name@ != (#[trigger] defs[j]).name@
}

/// No two modules share a dotted path.
pub open spec fn paths_unique(mods: Seq<Module>) -> bool {
    forall|i: int, j: int| 0 <= i < j < mods.len() ==> (#[trigger] mods[i]).path@ != (#[trigger] mods[j]).path@
}

/// Inserting a symbol keeps the names of a table unique.
pub proof fn law_insert_symbol_unique(defs: Seq<Symbol>, s: Symbol)
    requires
        names_unique(defs),
    ensures
        names_unique(insert_symbol(defs, s)),
{
    lemma_sym_pos(defs, s.name@);
    let p = sym_pos(defs, s.name@);
    let r = insert_symbol(defs, s);
    assert forall|i: int, j: int| 0 <= i < j < r.len() implies (#[trigger] r[i]).name@ != (#[trigger] r[j]).name@ by {
        if p >= 0 {
            if i != p && j != p {
                assert(r[i] == defs[i] && r[j] == defs[j]);
            } else if i == p {
                assert(r[j] == defs[j]);
                assert(defs[p].name@ == s.name@);
            } else {
                assert(r[i] == defs[i]);
                assert(defs[p].name@ == s.name@);
            }
        } else {
            if j < defs.len() {
                assert(r[i] == defs[i] && r[j] == defs[j]);
            } else {
                assert(r[i] == defs[i]);
            }
        }
    }
}

/// Adding a module keeps the paths of a graph unique.
pub proof fn law_insert_module_unique(mods: Seq<Module>, m: Module)
    requires
        paths_unique(mods),
    ensures
        paths_unique(insert_module(mods, m)),
{
    lemma_module_pos(mods, m.path@);
    let p = module_pos(mods, m.path@);
    let r = insert_module(mods, m);
    assert forall|i: int, j: int| 0 <= i < j < r.len() implies (#[trigger] r[i]).path@ != (#[trigger] r[j]).path@ by {
        if p >= 0 {
            if i != p && j != p {
                assert(r[i] == mods[i] && r[j] == mods[j]);
            } else if i == p {
                assert(r[j] == mods[j]);
                assert(mods[p].path@ == m.path@);
            } else {
                assert(r[i] == mods[i]);
                assert(mods[p].path@ == m.path@);
            }
        } else {
            if j < mods.len() {
                assert(r[i] == mods[i] && r[j] == mods[j]);
            } else {
                assert(r[i] == mods[i]);
            }
        }
    }
}

} // verus!
