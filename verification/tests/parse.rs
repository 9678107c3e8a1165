use drefs::graph::{Module, Symbol, SymbolKind};
use drefs::parse::{parse_bytes, resolve_relative_import, syntax_tree};

fn def<'a>(m: &'a Module, name: &str) -> &'a Symbol {
    m.definitions
        .iter()
        .find(|s| s.name == name)
        .unwrap_or_else(|| panic!("no definition {name}"))
}

fn member<'a>(s: &'a Symbol, name: &str) -> Option<&'a Symbol> {
    s.members.iter().find(|m| m.name == name)
}

const SAMPLE: &str = r#""""Module doc, see [pkg.A]."""
from .models import User as U, Admin
import os.path as osp
import json

__all__ = ['Foo', "bar"]

class Foo(Base, pkg.Mixin, Generic[T]):
    """Class doc."""
    x = 1

    def __init__(self):
        self.a = 1
        if True:
            self.b = 2
        self.x = 5

    @property
    def name(self):
        """Name doc."""
        return 1

def bar():
    pass

async def baz():
    '''Baz doc.'''
"#;

#[test]
fn parse_records_definitions() {
    let m = parse_bytes(SAMPLE.as_bytes(), "/src/pkg/mod.py", "pkg.mod").unwrap();
    assert_eq!(m.path, "pkg.mod");
    assert_eq!(m.file_path, "/src/pkg/mod.py");
    assert!(!m.is_package);
    assert_eq!(def(&m, "Foo").kind, SymbolKind::Class);
    assert_eq!(def(&m, "bar").kind, SymbolKind::Function);
    assert_eq!(def(&m, "baz").kind, SymbolKind::Function);
    assert_eq!(def(&m, "__all__").kind, SymbolKind::Attribute);
    assert_eq!(m.definitions.len(), 4);
    let foo = def(&m, "Foo");
    let loc = foo.location.as_ref().unwrap();
    assert_eq!((loc.line, loc.col), (8, 7));
    assert_eq!(loc.file, "/src/pkg/mod.py");
}

#[test]
fn parse_records_bases_and_members() {
    let m = parse_bytes(SAMPLE.as_bytes(), "/src/pkg/mod.py", "pkg.mod").unwrap();
    let foo = def(&m, "Foo");
    assert_eq!(foo.bases, vec!["Base", "pkg.Mixin", "Generic"]);
    assert_eq!(member(foo, "x").unwrap().kind, SymbolKind::Attribute);
    assert_eq!(member(foo, "a").unwrap().kind, SymbolKind::Attribute);
    assert_eq!(member(foo, "b").unwrap().kind, SymbolKind::Attribute);
    assert_eq!(member(foo, "__init__").unwrap().kind, SymbolKind::Function);
    assert_eq!(member(foo, "name").unwrap().kind, SymbolKind::Function);
    assert_eq!(foo.members.len(), 5);
}

#[test]
fn parse_records_imports() {
    let m = parse_bytes(SAMPLE.as_bytes(), "/src/pkg/mod.py", "pkg.mod").unwrap();
    let imps: Vec<(String, String, Option<String>)> = m
        .imports
        .iter()
        .map(|i| (i.source.clone(), i.name.clone(), i.alias.clone()))
        .collect();
    assert_eq!(
        imps,
        vec![
            ("pkg.models".to_string(), "User".to_string(), Some("U".to_string())),
            ("pkg.models".to_string(), "Admin".to_string(), None),
            ("os".to_string(), "path".to_string(), Some("osp".to_string())),
            ("".to_string(), "json".to_string(), None),
        ]
    );
}

#[test]
fn parse_records_all_and_docstrings() {
    let m = parse_bytes(SAMPLE.as_bytes(), "/src/pkg/mod.py", "pkg.mod").unwrap();
    assert_eq!(m.all, Some(vec!["Foo".to_string(), "bar".to_string()]));
    let docs: Vec<(usize, usize, &str)> = m
        .docstrings
        .iter()
        .map(|d| (d.line, d.col, d.content.as_str()))
        .collect();
    assert_eq!(
        docs,
        vec![
            (1, 1, "\"\"\"Module doc, see [pkg.A].\"\"\""),
            (9, 5, "\"\"\"Class doc.\"\"\""),
            (20, 9, "\"\"\"Name doc.\"\"\""),
            (27, 5, "'''Baz doc.'''"),
        ]
    );
}

#[test]
fn parse_records_wildcard_imports_in_packages() {
    let src = b"from .helpers import *\nfrom . import models\nfrom ..top import thing\n";
    let m = parse_bytes(src, "/src/pkg/sub/__init__.py", "pkg.sub").unwrap();
    assert!(m.is_package);
    assert_eq!(m.wildcard_imports, vec!["pkg.sub.helpers"]);
    let imps: Vec<(String, String)> = m
        .imports
        .iter()
        .map(|i| (i.source.clone(), i.name.clone()))
        .collect();
    assert_eq!(
        imps,
        vec![
            ("pkg.sub".to_string(), "models".to_string()),
            ("pkg.top".to_string(), "thing".to_string()),
        ]
    );
}

#[test]
fn parse_decorated_class() {
    let src = b"@dataclass\nclass Config(Base):\n    name: str = 'x'\n    value = 3\n";
    let m = parse_bytes(src, "/src/pkg/config.py", "pkg.config").unwrap();
    let c = def(&m, "Config");
    assert_eq!(c.kind, SymbolKind::Class);
    assert_eq!(c.bases, vec!["Base"]);
    assert!(member(c, "name").is_some());
    assert!(member(c, "value").is_some());
}

#[test]
fn syntax_tree_is_well_formed() {
    let t = syntax_tree(b"x = 1\n").unwrap();
    assert_eq!(t.nodes[0].kind, "module");
    for (i, n) in t.nodes.iter().enumerate() {
        assert!(i < n.first_child);
        assert!(n.first_child + n.child_count <= t.nodes.len());
    }
}

#[test]
fn relative_imports_resolve() {
    assert_eq!(resolve_relative_import("pkg.sub.mod", ".sibling", false), "pkg.sub.sibling");
    assert_eq!(resolve_relative_import("pkg.sub.mod", "..up", false), "pkg.up");
    assert_eq!(resolve_relative_import("pkg.sub", ".child", true), "pkg.sub.child");
    assert_eq!(resolve_relative_import("pkg.sub", ".", true), "pkg.sub");
    assert_eq!(resolve_relative_import("pkg", "....far", false), "far");
}

#[test]
fn later_definitions_replace_earlier_ones() {
    let src = b"def f():\n    pass\n\nclass f:\n    def g(self):\n        pass\n    def g(self, x):\n        pass\n";
    let m = parse_bytes(src, "/p/m.py", "m").unwrap();
    assert_eq!(m.definitions.len(), 1);
    let f = def(&m, "f");
    assert_eq!(f.kind, SymbolKind::Class);
    assert_eq!(f.members.len(), 1);
    assert_eq!(f.members[0].location.as_ref().unwrap().line, 7);
}

#[test]
fn syntax_tree_is_breadth_first_from_the_root() {
    let src = b"x = 1\n";
    let t = syntax_tree(src).unwrap();
    let root = &t.nodes[0];
    assert_eq!(root.kind, "module");
    assert!(root.field.is_none());
    assert_eq!((root.start_byte, root.end_byte), (0, 6));
    assert_eq!(root.first_child, 1);
    assert_eq!(root.child_count, 1);
    let stmt = &t.nodes[1];
    assert_eq!(stmt.kind, "expression_statement");
    let assign = &t.nodes[stmt.first_child];
    assert_eq!(assign.kind, "assignment");
    let left = &t.nodes[assign.first_child];
    assert_eq!(left.kind, "identifier");
    assert_eq!(left.field.as_deref(), Some("left"));
    assert_eq!((left.row, left.column), (0, 0));
    // Every child lies after its parent.
    for (i, n) in t.nodes.iter().enumerate() {
        assert!(n.first_child > i);
        assert!(n.first_child + n.child_count <= t.nodes.len());
    }
}

#[test]
fn different_sources_give_different_modules() {
    let a = parse_bytes(b"class A:\n    pass\n", "/p/m.py", "m").unwrap();
    let b = parse_bytes(b"def b():\n    pass\n", "/p/m.py", "m").unwrap();
    assert_eq!(a.definitions.len(), 1);
    assert_eq!(a.definitions[0].name, "A");
    assert_eq!(b.definitions[0].name, "b");
}
