use drefs::config::DocStyle;
use drefs::extract::{extract_references, ReferenceKind};

#[test]
fn test_mkdocs_explicit() {
    let content = r#"See [MyClass][my_pkg.foo.MyClass] for details."#;
    let refs = extract_references(content, &DocStyle::Mkdocs);
    assert_eq!(refs.len(), 1);
    assert_eq!(refs[0].target, "my_pkg.foo.MyClass");
}

#[test]
fn test_mkdocs_autoref() {
    let content = r#"See [my_pkg.foo.MyClass][] for details."#;
    let refs = extract_references(content, &DocStyle::Mkdocs);
    assert_eq!(refs.len(), 1);
    assert_eq!(refs[0].target, "my_pkg.foo.MyClass");
}

#[test]
fn test_sphinx_class() {
    let content = r#"See :class:`my_pkg.foo.MyClass` for details."#;
    let refs = extract_references(content, &DocStyle::Sphinx);
    assert_eq!(refs.len(), 1);
    assert_eq!(refs[0].target, "my_pkg.foo.MyClass");
}

#[test]
fn test_sphinx_tilde() {
    let content = r#"See :func:`~my_pkg.foo.bar` for details."#;
    let refs = extract_references(content, &DocStyle::Sphinx);
    assert_eq!(refs.len(), 1);
    assert_eq!(refs[0].target, "my_pkg.foo.bar");
}

#[test]
fn test_auto_finds_both() {
    let content = r#"
        See [my_pkg.foo.A][] and :class:`my_pkg.bar.B`.
        "#;
    let refs = extract_references(content, &DocStyle::Auto);
    assert_eq!(refs.len(), 2);
}

#[test]
fn test_ignores_non_dotted_mkdocs() {
    let content = r#"See [details][section-link] for more."#;
    let refs = extract_references(content, &DocStyle::Mkdocs);
    assert_eq!(refs.len(), 0);
}

#[test]
fn test_native_bare_brackets_fq() {
    let content = r#"See [pkg.models.User] for details."#;
    let refs = extract_references(content, &DocStyle::Auto);
    assert_eq!(refs.len(), 1);
    assert_eq!(refs[0].target, "pkg.models.User");
    assert_eq!(refs[0].kind, ReferenceKind::FullyQualified);
}

#[test]
fn test_native_backtick_brackets_fq() {
    let content = "See [`pkg.models.User`] for details.";
    let refs = extract_references(content, &DocStyle::Auto);
    assert_eq!(refs.len(), 1);
    assert_eq!(refs[0].target, "pkg.models.User");
    assert_eq!(refs[0].kind, ReferenceKind::FullyQualified);
}

#[test]
fn test_native_short_name() {
    let content = r#"See [User] for details."#;
    let refs = extract_references(content, &DocStyle::Auto);
    assert_eq!(refs.len(), 1);
    assert_eq!(refs[0].target, "User");
    assert_eq!(refs[0].kind, ReferenceKind::ShortName);
}

#[test]
fn test_native_short_name_backticks() {
    let content = "See [`User`] for details.";
    let refs = extract_references(content, &DocStyle::Auto);
    assert_eq!(refs.len(), 1);
    assert_eq!(refs[0].target, "User");
    assert_eq!(refs[0].kind, ReferenceKind::ShortName);
}

#[test]
fn test_native_escaped_ignored() {
    let content = r#"See \[User] for details."#;
    let refs = extract_references(content, &DocStyle::Auto);
    assert_eq!(refs.len(), 0);
}

#[test]
fn test_native_no_collision_with_mkdocs_explicit() {
    let content = r#"See [display text][pkg.models.User] for details."#;
    let refs = extract_references(content, &DocStyle::Mkdocs);
    assert_eq!(refs.len(), 1);
    assert_eq!(refs[0].target, "pkg.models.User");
    assert_eq!(refs[0].kind, ReferenceKind::FullyQualified);
}

#[test]
fn test_native_no_collision_with_mkdocs_autoref() {
    let content = r#"See [pkg.models.User][] for details."#;
    let refs = extract_references(content, &DocStyle::Mkdocs);
    assert_eq!(refs.len(), 1);
    assert_eq!(refs[0].target, "pkg.models.User");
    assert_eq!(refs[0].kind, ReferenceKind::FullyQualified);
}

#[test]
fn test_native_ignores_non_identifiers() {
    let content = r#"See [see above] and [1] and [some/path] for details."#;
    let refs = extract_references(content, &DocStyle::Auto);
    assert_eq!(refs.len(), 0);
}

#[test]
fn test_native_mixed_with_mkdocs_and_sphinx() {
    let content = r#"
    Native: [User]
    MkDocs: [text][pkg.models.Admin]
    Sphinx: :class:`pkg.models.User`
    Native FQ: [pkg.sub.helper_func]
    "#;
    let refs = extract_references(content, &DocStyle::Auto);
    assert_eq!(refs.len(), 4);
}

#[test]
fn test_native_underscore_start() {
    let content = r#"See [_private_func] for details."#;
    let refs = extract_references(content, &DocStyle::Auto);
    assert_eq!(refs.len(), 1);
    assert_eq!(refs[0].target, "_private_func");
    assert_eq!(refs[0].kind, ReferenceKind::ShortName);
}

#[test]
fn native_syntax_is_active_in_every_style() {
    let content = "See [User] and :class:`pkg.models.Admin` and [x][pkg.a.B].";
    for style in [DocStyle::Mkdocs, DocStyle::Sphinx, DocStyle::Auto] {
        let refs = extract_references(content, &style);
        let last = refs.last().unwrap();
        assert_eq!(last.target, "User");
        assert_eq!(last.kind, ReferenceKind::ShortName);
        assert_eq!(last.offset, 5);
    }
    let mk = extract_references(content, &DocStyle::Mkdocs);
    assert_eq!(mk.len(), 2);
    assert_eq!(mk[0].target, "pkg.a.B");
    let sp = extract_references(content, &DocStyle::Sphinx);
    assert_eq!(sp.len(), 2);
    assert_eq!(sp[0].target, "pkg.models.Admin");
}

#[test]
fn reference_kinds_follow_dots() {
    let content = "[Short] [pkg.Long] [`Tick`] [Class.method]";
    let refs = extract_references(content, &DocStyle::Auto);
    for r in &refs {
        assert_eq!(r.kind == ReferenceKind::ShortName, !r.target.contains('.'));
    }
    assert_eq!(refs.len(), 4);
}
