use drefs::graph::{Import, Module, Symbol, SymbolGraph, SymbolKind};
use drefs::parse::parse_bytes;
use drefs::util::edit_distance;

fn module(path: &str, src: &str) -> Module {
    let file = format!("/p/{}.py", path.replace('.', "/"));
    parse_bytes(src.as_bytes(), &file, path).unwrap()
}

fn package(path: &str, src: &str) -> Module {
    let file = format!("/p/{}/__init__.py", path.replace('.', "/"));
    parse_bytes(src.as_bytes(), &file, path).unwrap()
}

fn sample() -> SymbolGraph {
    let mut g = SymbolGraph::new();
    g.add_module(package("pkg", "from .models import User\nfrom .reexport import *\n"));
    g.add_module(module(
        "pkg.models",
        "class Base:\n    def save(self):\n        pass\n\nclass User(Base):\n    def greet(self):\n        pass\n\n_private = 1\n",
    ));
    g.add_module(module("pkg.reexport", "from pkg.models import User as Person\n__all__ = ['Person']\n"));
    g.expand_wildcards();
    g.compute_roots();
    g
}

#[test]
fn resolves_modules_definitions_and_members() {
    let g = sample();
    assert!(g.resolve("pkg"));
    assert!(g.resolve("pkg.models"));
    assert!(g.resolve("pkg.models.User"));
    assert!(g.resolve("pkg.models.User.greet"));
    assert!(!g.resolve("pkg.models.User.missing"));
    assert!(!g.resolve("pkg.nothing"));
}

#[test]
fn resolves_reexports_and_inheritance() {
    let g = sample();
    assert!(g.resolve("pkg.User"));
    assert!(g.resolve("pkg.User.greet"));
    assert!(g.resolve("pkg.models.User.save"));
    assert!(g.resolve("pkg.Person"));
}

#[test]
fn wildcard_expansion_follows_all() {
    let g = sample();
    let pkg = g.modules.iter().find(|m| m.path == "pkg").unwrap();
    assert!(pkg.imports.iter().any(|i| i.source == "pkg.reexport" && i.name == "Person"));
    assert!(!pkg.imports.iter().any(|i| i.name == "_private"));
    // The module's own imports come first, unchanged.
    assert_eq!(pkg.imports[0].source, "pkg.models");
    assert_eq!(pkg.imports[0].name, "User");
}

#[test]
fn wildcard_without_all_brings_public_definitions() {
    let mut g = SymbolGraph::new();
    g.add_module(package("w", "from .defs import *\n"));
    g.add_module(module("w.defs", "class A:\n    pass\n\ndef b():\n    pass\n\ndef _c():\n    pass\n"));
    g.expand_wildcards();
    g.compute_roots();
    let w = g.modules.iter().find(|m| m.path == "w").unwrap();
    let names: Vec<&str> = w.imports.iter().map(|i| i.name.as_str()).collect();
    assert_eq!(names, vec!["A", "b"]);
    assert!(g.resolve("w.A"));
    assert!(g.resolve("w.b"));
    assert!(!g.resolve("w._c"));
}

#[test]
fn roots_and_internal_paths() {
    let g = sample();
    assert_eq!(g.root_packages, vec!["pkg"]);
    assert!(g.is_internal("pkg.anything"));
    assert!(!g.is_internal("os.path"));
}

#[test]
fn adding_a_module_replaces_the_same_path() {
    let mut g = sample();
    let n = g.modules.len();
    g.add_module(module("pkg.models", "class Other:\n    pass\n"));
    assert_eq!(g.modules.len(), n);
    assert!(g.resolve("pkg.models.Other"));
    assert!(!g.resolve("pkg.models.Base"));
}

#[test]
fn suggestions() {
    let g = sample();
    assert_eq!(g.suggest("pkg.modles.User", 2), Some("pkg.models.User".to_string()));
    assert_eq!(g.suggest("pkg.models.Usr", 2), Some("pkg.models.User".to_string()));
    assert_eq!(g.suggest("pkg.models.Completely", 2), None);
    let m = g.modules.iter().find(|m| m.path == "pkg").unwrap();
    assert_eq!(g.suggest_short_name("Usr", m, 2), Some("User".to_string()));
    assert_eq!(g.suggest_short_name("Nothing", m, 2), None);
}

#[test]
fn symbol_new_is_bare() {
    let s = Symbol::new("X".to_string(), SymbolKind::Class);
    assert!(s.members.is_empty() && s.bases.is_empty() && s.location.is_none());
}

#[test]
fn import_cycles_terminate() {
    let mut g = SymbolGraph::new();
    let mut a = module("cyc.a", "");
    a.imports.push(Import { source: "cyc.b".to_string(), name: "X".to_string(), alias: None });
    let mut b = module("cyc.b", "");
    b.imports.push(Import { source: "cyc.a".to_string(), name: "X".to_string(), alias: None });
    g.add_module(a);
    g.add_module(b);
    g.compute_roots();
    assert!(!g.resolve("cyc.a.X"));
}

#[test]
fn edit_distances() {
    assert_eq!(edit_distance("kitten", "sitting"), 3);
    assert_eq!(edit_distance("", "abc"), 3);
    assert_eq!(edit_distance("flaw", "lawn"), 2);
    assert_eq!(edit_distance("same", "same"), 0);
    // Distances count UTF-8 bytes.
    assert_eq!(edit_distance("é", "e"), 2);
    assert_eq!(edit_distance("abc", "yabd"), edit_distance("yabd", "abc"));
}

fn import_list(g: &SymbolGraph) -> Vec<Vec<(String, String, Option<String>)>> {
    g.modules
        .iter()
        .map(|m| m.imports.iter().map(|i| (i.source.clone(), i.name.clone(), i.alias.clone())).collect())
        .collect()
}

#[test]
fn second_wildcard_expansion_changes_nothing() {
    let mut g = SymbolGraph::new();
    g.add_module(package("w", "from .defs import *\nfrom .more import *\n"));
    g.add_module(module("w.defs", "class A:\n    pass\n\ndef b():\n    pass\n"));
    g.add_module(module("w.more", "from w.defs import *\n__all__ = ['A', 'z']\n"));
    g.expand_wildcards();
    let once = import_list(&g);
    assert_eq!(once[0].len(), 4);
    g.expand_wildcards();
    assert_eq!(import_list(&g), once);
}

#[test]
fn edit_distance_bounds_and_triangle() {
    // Never below the difference of the lengths, never above the longer one.
    assert_eq!(edit_distance("abc", "abcdef"), 3);
    assert_eq!(edit_distance("abcdef", "xyz"), 6);
    // Going through a third string is never shorter.
    let (a, b, c) = ("kitten", "sitten", "sitting");
    assert_eq!(edit_distance(a, b), 1);
    assert_eq!(edit_distance(b, c), 2);
    assert!(edit_distance(a, c) <= edit_distance(a, b) + edit_distance(b, c));
    // One insertion, one deletion, one substitution: one edit each.
    assert_eq!(edit_distance("parse", "parsed"), 1);
    assert_eq!(edit_distance("parse", "pare"), 1);
    assert_eq!(edit_distance("parse", "purse"), 1);
}
