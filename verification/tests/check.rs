use drefs::config::{DocStyle, DoxrConfig};
use drefs::diagnostic::{check, display_path, expand_short_name, summary, Diagnostic};
use drefs::graph::SymbolGraph;
use drefs::inventory::Inventory;
use drefs::parse::parse_bytes;

const INIT: &str = "from .models import User, Admin\nfrom .sub.deep import DeepClass\n";
const MODELS: &str = "class User:\n    \"\"\"A user.\"\"\"\n\n    def __init__(self):\n        self.name = 'x'\n\n    def greet(self):\n        pass\n\n\nclass Admin(User):\n    role = 'admin'\n";
const DEEP: &str = "class DeepClass:\n    def process(self):\n        pass\n";
const SERVICES: &str = "from pkg.models import User\n\n\ndef serve():\n    \"\"\"Serve [pkg.models.User], [pkg.mdoels.User] and [User].\n\n    Also [Nonexistent], [pkg.models.Admin.greet], :class:`pkg.User`,\n    [pkg.DeepClass] and [pkg.models.User.nope].\n    \"\"\"\n";

fn graph() -> (SymbolGraph, Vec<(String, String)>) {
    let files = [
        ("pkg", "/p/src/pkg/__init__.py", INIT),
        ("pkg.models", "/p/src/pkg/models.py", MODELS),
        ("pkg.sub.deep", "/p/src/pkg/sub/deep.py", DEEP),
        ("pkg.services", "/p/src/pkg/services.py", SERVICES),
    ];
    let mut g = SymbolGraph::new();
    let mut file_map = Vec::new();
    for (dotted, file, src) in files {
        let m = parse_bytes(src.as_bytes(), file, dotted).unwrap();
        file_map.push((dotted.to_string(), file.to_string()));
        g.add_module(m);
    }
    g.expand_wildcards();
    g.compute_roots();
    (g, file_map)
}

fn messages(ds: &[Diagnostic]) -> Vec<String> {
    ds.iter().map(|d| d.message.clone()).collect()
}

#[test]
fn check_reports_broken_references_only() {
    let (g, fm) = graph();
    let cfg = DoxrConfig::default();
    let inv = Inventory::new();
    let ds = check(&g, &cfg, &inv, &fm);
    let msgs = messages(&ds);
    assert_eq!(msgs.len(), 3, "{msgs:?}");
    assert_eq!(
        msgs[0],
        "Unresolved docstring reference `pkg.mdoels.User`. Did you mean `pkg.models.User`?"
    );
    assert_eq!(
        msgs[1],
        "Unresolved docstring reference `Nonexistent`. No import or definition found in this file"
    );
    assert!(msgs[2].starts_with("Unresolved docstring reference `pkg.models.User.nope`"));
    for d in &ds {
        assert_eq!(d.file, "/p/src/pkg/services.py");
        assert_eq!((d.line, d.col), (5, 5));
        assert_eq!(d.code, "DREF001");
    }
}

#[test]
fn known_modules_are_not_checked() {
    let (g, fm) = graph();
    let mut cfg = DoxrConfig::default();
    cfg.known_modules = vec!["pkg".to_string()];
    let ds = check(&g, &cfg, &Inventory::new(), &fm);
    assert_eq!(messages(&ds), vec![
        "Unresolved docstring reference `Nonexistent`. No import or definition found in this file".to_string()
    ]);
}

#[test]
fn short_name_suggestion() {
    let mut g = SymbolGraph::new();
    let src = "from pkg.models import User\n\ndef f():\n    \"\"\"See [Usr].\"\"\"\n";
    g.add_module(parse_bytes(src.as_bytes(), "/p/pkg/a.py", "pkg.a").unwrap());
    g.add_module(parse_bytes(MODELS.as_bytes(), "/p/pkg/models.py", "pkg.models").unwrap());
    g.compute_roots();
    let fm = vec![("pkg.a".to_string(), "/p/pkg/a.py".to_string())];
    let ds = check(&g, &DoxrConfig::default(), &Inventory::new(), &fm);
    assert_eq!(messages(&ds), vec!["Unresolved docstring reference `Usr`. Did you mean `User`?".to_string()]);
}

#[test]
fn diagnostics_are_sorted_by_file_line_column() {
    let mut g = SymbolGraph::new();
    let b = "def f():\n    \"\"\"[pkg.b.Missing]\"\"\"\n\ndef g():\n    \"\"\"[pkg.b.Gone]\"\"\"\n";
    let a = "def f():\n    \"\"\"[pkg.a.Missing]\"\"\"\n";
    g.add_module(parse_bytes(b.as_bytes(), "/p/pkg/b.py", "pkg.b").unwrap());
    g.add_module(parse_bytes(a.as_bytes(), "/p/pkg/a.py", "pkg.a").unwrap());
    g.compute_roots();
    let fm = vec![
        ("pkg.b".to_string(), "/p/pkg/b.py".to_string()),
        ("pkg.a".to_string(), "/p/pkg/a.py".to_string()),
    ];
    let ds = check(&g, &DoxrConfig::default(), &Inventory::new(), &fm);
    let pos: Vec<(String, usize)> = ds.iter().map(|d| (d.file.clone(), d.line)).collect();
    assert_eq!(
        pos,
        vec![
            ("/p/pkg/a.py".to_string(), 2),
            ("/p/pkg/b.py".to_string(), 2),
            ("/p/pkg/b.py".to_string(), 5),
        ]
    );
}

#[test]
fn external_references_use_inventories() {
    let mut g = SymbolGraph::new();
    let src = "def f():\n    \"\"\"[os.path.join] and [lib.Missing] and [lib.Thing].\"\"\"\n";
    g.add_module(parse_bytes(src.as_bytes(), "/p/pkg/a.py", "pkg.a").unwrap());
    g.compute_roots();
    let mut inv = Inventory::new();
    inv.symbols = vec!["lib.Thing".to_string()];
    inv.covered_roots = vec!["lib".to_string()];
    let fm = vec![("pkg.a".to_string(), "/p/pkg/a.py".to_string())];
    let ds = check(&g, &DoxrConfig::default(), &inv, &fm);
    assert_eq!(messages(&ds), vec!["Unresolved docstring reference `lib.Missing`".to_string()]);
}

#[test]
fn summary_lines() {
    assert_eq!(summary(&[]), "All references OK.");
    let d = Diagnostic {
        file: "a.py".to_string(),
        line: 1,
        col: 2,
        code: "DREF001".to_string(),
        message: "m".to_string(),
    };
    let d2 = Diagnostic { file: "a.py".to_string(), line: 1, col: 2, code: "DREF001".to_string(), message: "m".to_string() };
    let d3 = Diagnostic { file: "a.py".to_string(), line: 1, col: 2, code: "DREF001".to_string(), message: "m".to_string() };
    assert_eq!(d.render(), "a.py:1:2: DREF001 m");
    let one = [d];
    assert_eq!(summary(&one), "Found 1 error.");
    let [d] = one;
    assert_eq!(summary(&[d, d2, d3]), "Found 3 errors.");
}

#[test]
fn display_paths_are_relative_to_the_root() {
    assert_eq!(display_path("/proj/src/a.py", "/proj"), "src/a.py");
    assert_eq!(display_path("/proj/src/a.py", "/proj/"), "src/a.py");
    assert_eq!(display_path("/other/a.py", "/proj"), "/other/a.py");
    assert_eq!(display_path("/projx/a.py", "/proj"), "/projx/a.py");
    // The rest of the path is kept as written, but for empty and `.`
    // pieces at its ends.
    assert_eq!(display_path("/proj/src//a.py", "/proj"), "src//a.py");
    assert_eq!(display_path("/proj/./src/./a.py", "/proj"), "src/./a.py");
    assert_eq!(display_path("/proj//src/", "/proj"), "src");
    assert_eq!(display_path("/proj", "/proj"), "");
    assert_eq!(display_path("/proj/a.py", "/"), "proj/a.py");
    assert_eq!(display_path("rel/./a.py", "rel"), "a.py");
    assert_eq!(display_path("./a/b.py", "./a"), "b.py");
    // A root with no components keeps the path but for its end.
    assert_eq!(display_path("/a//", ""), "/a");
    assert_eq!(display_path("./a/.", ""), "./a");
    assert_eq!(display_path("./", ""), ".");
}

#[test]
fn style_selection() {
    let mut cfg = DoxrConfig::default();
    assert_eq!(cfg.effective_style(true, true), DocStyle::Mkdocs);
    assert_eq!(cfg.effective_style(false, true), DocStyle::Sphinx);
    assert_eq!(cfg.effective_style(false, false), DocStyle::Auto);
    cfg.style = DocStyle::Sphinx;
    assert_eq!(cfg.effective_style(true, false), DocStyle::Sphinx);
}

#[test]
fn source_directories() {
    let mut cfg = DoxrConfig::default();
    assert_eq!(cfg.effective_src("/proj", true), vec!["/proj/src"]);
    assert_eq!(cfg.effective_src("/proj", false), vec!["/proj"]);
    cfg.src = vec!["lib".to_string(), "/abs/dir".to_string()];
    assert_eq!(cfg.effective_src("/proj", true), vec!["/proj/lib", "/abs/dir"]);
}

#[test]
fn short_names_prefer_imports_over_definitions() {
    let src = "from pkg.models import User\n\nclass User:\n    pass\n\nclass Local:\n    pass\n";
    let m = parse_bytes(src.as_bytes(), "/p/pkg/a.py", "pkg.a").unwrap();
    assert_eq!(expand_short_name("User", &m), Some("pkg.models.User".to_string()));
    assert_eq!(expand_short_name("Local", &m), Some("pkg.a.Local".to_string()));
    assert_eq!(expand_short_name("Missing", &m), None);
}
