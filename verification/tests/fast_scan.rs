use drefs::fast_scan::{fast_scan, has_docstrings, has_multiline_imports};
use drefs::graph::SymbolKind;

#[test]
fn detects_docstrings() {
    assert!(has_docstrings(b"def f():\n    \"\"\"Doc.\"\"\"\n"));
    assert!(has_docstrings(b"x = '''a'''"));
    assert!(!has_docstrings(b"x = \"\" + ''"));
    assert!(!has_docstrings(b""));
}

#[test]
fn detects_multiline_imports() {
    assert!(has_multiline_imports(b"from a import (\n    b,\n)\n"));
    assert!(has_multiline_imports(b"from a import b, \\\n    c\n"));
    assert!(!has_multiline_imports(b"from a import b, c\n"));
}

#[test]
fn scans_top_level_definitions() {
    let src = b"class Foo(Base):\n    def method(self):\n        pass\ndef bar(x):\n    pass\nasync def baz():\n    pass\n# class Hidden:\nclass Trailing\n";
    let m = fast_scan(src, "/src/pkg/mod.py", "pkg.mod");
    let defs: Vec<(&str, SymbolKind)> = m
        .definitions
        .iter()
        .map(|s| (s.name.as_str(), s.kind))
        .collect();
    assert_eq!(
        defs,
        vec![
            ("Foo", SymbolKind::Class),
            ("bar", SymbolKind::Function),
            ("baz", SymbolKind::Function),
        ]
    );
    assert!(m.definitions.iter().all(|s| s.members.is_empty() && s.location.is_none()));
    assert!(m.docstrings.is_empty());
    assert_eq!(m.all, None);
}

#[test]
fn scans_imports() {
    let src = b"from .models import User as U, Admin\nimport os.path as osp, json\nfrom pkg.helpers import *\n    import indented\nfrom x import (a\nfrom y import b)\nfrom z import c  # trailing\n";
    let m = fast_scan(src, "/src/pkg/mod.py", "pkg.mod");
    let imps: Vec<(String, String, Option<String>)> = m
        .imports
        .iter()
        .map(|i| (i.source.clone(), i.name.clone(), i.alias.clone()))
        .collect();
    assert_eq!(
        imps,
        vec![
            ("pkg.models".to_string(), "User".to_string(), Some("U".to_string())),
            ("pkg.models".to_string(), "Admin".to_string(), None),
            ("os".to_string(), "path".to_string(), Some("osp".to_string())),
            ("".to_string(), "json".to_string(), None),
            ("y".to_string(), "b".to_string(), None),
        ]
    );
    assert_eq!(m.wildcard_imports, vec!["pkg.helpers"]);
}

#[test]
fn later_definition_replaces_earlier() {
    let m = fast_scan(b"def f():\n    pass\nclass f:\n    pass\n", "m.py", "m");
    assert_eq!(m.definitions.len(), 1);
    assert_eq!(m.definitions[0].kind, SymbolKind::Class);
}

#[test]
fn package_init_is_a_package() {
    let m = fast_scan(b"from .a import b\n", "/src/pkg/__init__.py", "pkg");
    assert!(m.is_package);
    assert_eq!(m.imports[0].source, "pkg.a");
}
