use drefs::discover::{is_package_file, path_to_dotted};

#[test]
fn test_regular_module() {
    assert_eq!(
        path_to_dotted("/src/my_pkg/foo/bar.py", "/src"),
        Some("my_pkg.foo.bar".to_string())
    );
}

#[test]
fn test_init_module() {
    assert_eq!(
        path_to_dotted("/src/my_pkg/foo/__init__.py", "/src"),
        Some("my_pkg.foo".to_string())
    );
}

#[test]
fn test_top_level_init() {
    assert_eq!(path_to_dotted("/src/__init__.py", "/src"), None);
}

#[test]
fn path_outside_root_has_no_module() {
    assert_eq!(path_to_dotted("/other/pkg/mod.py", "/src"), None);
}

#[test]
fn non_python_file_has_no_module() {
    assert_eq!(path_to_dotted("/src/pkg/readme.txt", "/src"), None);
}

#[test]
fn components_compare_not_text() {
    // `/srcx` is not under `/src` even though the text starts with it.
    assert_eq!(path_to_dotted("/srcx/pkg/mod.py", "/src"), None);
    // Repeated and trailing separators do not change the components.
    assert_eq!(
        path_to_dotted("/src//pkg/./mod.py", "/src/"),
        Some("pkg.mod".to_string())
    );
}

#[test]
fn package_file_is_recognised() {
    assert!(is_package_file("/src/pkg/__init__.py"));
    assert!(is_package_file("__init__.py"));
    assert!(!is_package_file("/src/pkg/mod.py"));
    // A trailing separator does not change the file name.
    assert!(is_package_file("/src/__init__.py/"));
    assert!(!is_package_file("/src/__init__.py/.."));
}
