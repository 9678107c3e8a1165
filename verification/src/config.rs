//! Configuration: source directories, documentation style, modules to skip
//! and inventories to load.  Reading `pyproject.toml` and looking at the
//! file system is the caller's part; what is decided from them is here.
use vstd::prelude::*;
use crate::text::{chars_of, string_of, string_views};

verus! {

/// The cross-reference syntax a project's docstrings use.
#[derive(Debug, Clone, Copy, PartialEq, Eq, Structural)]
pub enum DocStyle {
    Mkdocs,
    Sphinx,
    Auto,
}

impl Default for DocStyle {
    fn default() -> (r: Self)
        ensures
            r == DocStyle::Auto,
    {
        DocStyle::Auto
    }
}

/// The `[tool.doxr]` settings.
#[derive(Debug)]
pub struct DoxrConfig {
    /// Source directories to scan (e.g. `["src/my_package"]`).
    pub src: Vec<String>,
    /// Documentation style for cross-reference syntax.
    pub style: DocStyle,
    /// Glob patterns to exclude.
    pub exclude: Vec<String>,
    /// External module roots to skip validation for.
    pub known_modules: Vec<String>,
    /// Inventory files (objects.inv) to load for external reference
    /// validation; URLs or local file paths.
    pub inventories: Vec<String>,
}

impl Default for DoxrConfig {
    fn default() -> (r: Self)
        ensures
            r.src@.len() == 0,
            r.style == DocStyle::Auto,
            r.exclude@.len() == 0,
            r.known_modules@.len() == 0,
            r.inventories@.len() == 0,
    {
        DoxrConfig {
            src: Vec::new(),
            style: DocStyle::Auto,
            exclude: Vec::new(),
            known_modules: Vec::new(),
            inventories: Vec::new(),
        }
    }
}

/// `rel` joined onto `base` as a POSIX path: an absolute `rel` replaces
/// `base`; otherwise a `/` separates them unless `base` is empty or already
/// ends in one.
pub open spec fn path_join(base: Seq<char>, rel: Seq<char>) -> Seq<char> {
    if rel.len() > 0 && rel[0] == '/' {
        rel
    } else if base.len() == 0 || base.last() == '/' {
        base + rel
    } else {
        base.push('/') + rel
    }
}

/// Join a relative path onto a base directory.
pub fn join_path(base: &str, rel: &str) -> (r: String)
    ensures
        r@ == path_join(base@, rel@),
{
    let b = chars_of(base);
    let p = chars_of(rel);
    if p.len() > 0 && p[0] == '/' {
        return string_of(p.as_slice());
    }
    let mut out = b;
    if out.len() > 0 && out[out.len() - 1] != '/' {
        out.push('/');
    }
    crate::graph::extend_chars(&mut out, p.as_slice());
    string_of(out.as_slice())
}

/// The source directories to scan.
pub open spec fn spec_effective_src(src: Seq<Seq<char>>, root: Seq<char>, src_layout: bool) -> Seq<Seq<char>> {
    if src.len() > 0 {
        src.map_values(|s: Seq<char>| path_join(root, s))
    } else if src_layout {
        seq![path_join(root, seq!['s', 'r', 'c'])]
    } else {
        seq![root]
    }
}

/// The documentation style to check for.
pub open spec fn spec_effective_style(style: DocStyle, mkdocs_config: bool, sphinx_config: bool) -> DocStyle {
    if style != DocStyle::Auto {
        style
    } else if mkdocs_config {
        DocStyle::Mkdocs
    } else if sphinx_config {
        DocStyle::Sphinx
    } else {
        DocStyle::Auto
    }
}

impl DoxrConfig {
    /// Return effective source directories, auto-detecting if not configured.
    ///
    /// Detection order:
    /// 1. Explicit `src` config: each entry joined onto the project root.
    /// 2. `src_layout` (a `src/` directory with Python packages inside): `root/src`.
    /// 3. Fallback: the project root itself.
    pub fn effective_src(&self, project_root: &str, src_layout: bool) -> (r: Vec<String>)
        ensures
            string_views(r@) == spec_effective_src(string_views(self.src@), project_root@, src_layout),
    {
        let mut out: Vec<String> = Vec::new();
        if self.src.len() > 0 {
            let mut i: usize = 0;
            while i < self.src.len()
                invariant
                    i <= self.src.len(),
                    string_views(out@) == string_views(self.src@).take(i as int).map_values(
                        |s: Seq<char>| path_join(project_root@, s),
                    ),
                decreases self.src.len() - i,
            {
                let ghost before = string_views(out@);
                out.push(join_path(project_root, self.src[i].as_str()));
                assert(string_views(out@) =~= before.push(path_join(project_root@, self.src@[i as int]@)));
                assert(string_views(self.src@).take(i + 1).map_values(|s: Seq<char>| path_join(project_root@, s))
                    =~= before.push(path_join(project_root@, self.src@[i as int]@)));
                i = i + 1;
            }
            assert(string_views(self.src@).take(self.src.len() as int) =~= string_views(self.src@));
            return out;
        }
        if src_layout {
            let src = string_of(['s', 'r', 'c'].as_slice());
            assert(src@ == seq!['s', 'r', 'c']);
            out.push(join_path(project_root, src.as_str()));
        } else {
            out.push(string_of(chars_of(project_root).as_slice()));
        }
        assert(string_views(out@) =~= spec_effective_src(string_views(self.src@), project_root@, src_layout));
        out
    }

    /// Auto-detect the documentation style if set to `Auto`: MkDocs when an
    /// `mkdocs.yml`/`mkdocs.yaml` exists, Sphinx when a `conf.py` exists (at
    /// the root or under `docs/` or `doc/`), otherwise both.
    pub fn effective_style(&self, mkdocs_config: bool, sphinx_config: bool) -> (r: DocStyle)
        ensures
            r == spec_effective_style(self.style, mkdocs_config, sphinx_config),
    {
        if self.style != DocStyle::Auto {
            return self.style;
        }
        if mkdocs_config {
            return DocStyle::Mkdocs;
        }
        if sphinx_config {
            return DocStyle::Sphinx;
        }
        DocStyle::Auto
    }
}

} // verus!
