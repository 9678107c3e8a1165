use drefs::config::DocStyle;
use drefs::extract::extract_references;
use drefs::graph::SymbolGraph;
use drefs::inventory::Inventory;
use drefs::lsp::{
    docstring_problems, find_ref_at_cursor, goto_definition, is_internal_ref, path_to_uri,
    resolve_to_location, uri_to_path,
};
use drefs::parse::parse_bytes;

fn graph() -> SymbolGraph {
    let mut g = SymbolGraph::new();
    let models = "class User:\n    def greet(self):\n        pass\n";
    let services = "from pkg.models import User as U\n\ndef f():\n    \"\"\"See [pkg.models.User]\n    and [pkg.services.U.greet] and [pkg.models.Fake].\n    \"\"\"\n";
    g.add_module(parse_bytes(models.as_bytes(), "/p/pkg/models.py", "pkg.models").unwrap());
    g.add_module(parse_bytes(services.as_bytes(), "/p/pkg/services.py", "pkg.services").unwrap());
    g.compute_roots();
    g
}

#[test]
fn uris_and_paths() {
    assert_eq!(path_to_uri("/a/b.py"), "file:///a/b.py");
    assert_eq!(path_to_uri("a/b.py"), "file:///a/b.py");
    assert_eq!(uri_to_path("file:///a/b.py"), Some("/a/b.py".to_string()));
    assert_eq!(uri_to_path("http://x/y"), None);
}

#[test]
fn locations_follow_definitions_and_imports() {
    let g = graph();
    let l = resolve_to_location(&g, "pkg.models.User").unwrap();
    assert_eq!((l.file.as_str(), l.line, l.col), ("/p/pkg/models.py", 1, 7));
    let l = resolve_to_location(&g, "pkg.models.User.greet").unwrap();
    assert_eq!((l.line, l.col), (2, 9));
    let l = resolve_to_location(&g, "pkg.services.U").unwrap();
    assert_eq!((l.line, l.col), (1, 7));
    let l = resolve_to_location(&g, "pkg.models").unwrap();
    assert_eq!((l.file.as_str(), l.line, l.col), ("/p/pkg/models.py", 1, 1));
    assert!(resolve_to_location(&g, "pkg.models.Fake").is_none());
}

#[test]
fn reference_under_the_cursor() {
    let g = graph();
    let m = g.modules.iter().find(|m| m.path == "pkg.services").unwrap();
    let ds = &m.docstrings[0];
    assert_eq!(ds.line, 4);
    let refs = extract_references(&ds.content, &DocStyle::Auto);
    // Line 3 (zero-based) is the docstring's first line; `[` is at byte 7.
    let r = find_ref_at_cursor(ds, &refs, 3, 12).unwrap();
    assert_eq!(r.target, "pkg.models.User");
    assert!(find_ref_at_cursor(ds, &refs, 3, 2).is_none());
    assert!(find_ref_at_cursor(ds, &refs, 1, 12).is_none());
    let r = find_ref_at_cursor(ds, &refs, 4, 15).unwrap();
    assert_eq!(r.target, "pkg.services.U.greet");
}

#[test]
fn go_to_definition() {
    let g = graph();
    let m = g.modules.iter().find(|m| m.path == "pkg.services").unwrap();
    let l = goto_definition(&g, &DocStyle::Auto, m, 3, 12).unwrap();
    assert_eq!((l.file.as_str(), l.line, l.col), ("/p/pkg/models.py", 1, 7));
    let l = goto_definition(&g, &DocStyle::Auto, m, 4, 15).unwrap();
    assert_eq!((l.line, l.col), (2, 9));
    assert!(goto_definition(&g, &DocStyle::Auto, m, 0, 0).is_none());
}

#[test]
fn editor_problems() {
    let g = graph();
    let m = g.modules.iter().find(|m| m.path == "pkg.services").unwrap();
    let ps = docstring_problems(&g, &DocStyle::Auto, &Inventory::new(), m);
    let got: Vec<(usize, usize, String)> =
        ps.iter().map(|p| (p.line, p.character, p.message.clone())).collect();
    assert_eq!(got, vec![(3, 4, "Unresolved reference `pkg.models.Fake`".to_string())]);
    let refs = extract_references(&m.docstrings[0].content, &DocStyle::Auto);
    assert!(is_internal_ref(&g, &refs[0]));
}
