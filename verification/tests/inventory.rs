use drefs::inventory::{Inventory, InventoryError};
use flate2::write::ZlibEncoder;
use flate2::Compression;
use std::io::Write;

fn compress(data: &[u8]) -> Vec<u8> {
    let mut encoder = ZlibEncoder::new(Vec::new(), Compression::default());
    encoder.write_all(data).unwrap();
    encoder.finish().unwrap()
}

#[test]
fn test_parse_inv() {
    // Build a minimal objects.inv in memory.
    let header = b"# Sphinx inventory version 2\n\
                    # Project: TestProject\n\
                    # Version: 1.0\n\
                    # The remainder of this file is compressed using zlib.\n";

    let data_lines = b"my_pkg.MyClass py:class 1 api/#$ -\n\
                       my_pkg.my_func py:function 1 api/#$ -\n\
                       some_c_thing c:macro 1 api/#$ -\n";

    let compressed = compress(data_lines);

    let mut inv_bytes = header.to_vec();
    inv_bytes.extend_from_slice(&compressed);

    let mut inv = Inventory::new();
    inv.parse_inv(&inv_bytes).unwrap();

    assert!(inv.contains("my_pkg.MyClass"));
    assert!(inv.contains("my_pkg.my_func"));
    assert!(!inv.contains("some_c_thing")); // c: domain, not py:
    assert_eq!(inv.projects, vec!["TestProject"]);
}

#[test]
fn inventory_covers_roots_of_its_symbols() {
    let header = b"# Sphinx inventory version 2\n# Project: Lib\n# Version: 2\n# zlib\n";
    let mut bytes = header.to_vec();
    bytes.extend_from_slice(&compress(b"lib.core.Thing py:class 1 x -\n"));
    let mut inv = Inventory::new();
    assert!(!inv.covers_root("lib.other"));
    inv.parse_inv(&bytes).unwrap();
    assert!(inv.covers_root("lib.other"));
    assert!(inv.covers_root("lib"));
    assert!(!inv.covers_root("other.lib"));
    assert!(inv.contains("lib.core.Thing"));
    assert!(!inv.contains("lib.core"));
}

#[test]
fn short_header_is_refused() {
    let mut inv = Inventory::new();
    let r = inv.parse_inv(b"# Sphinx inventory version 2\n# Project: X\n");
    assert!(matches!(r, Err(InventoryError::HeaderTooShort)));
    assert!(inv.projects.is_empty());
}

#[test]
fn version_one_is_refused() {
    let mut inv = Inventory::new();
    let r = inv.parse_inv(b"# Sphinx inventory version 1\n# Project: X\n# Version: 1\n# z\n");
    assert!(matches!(r, Err(InventoryError::UnsupportedFormat(_))));
    assert!(inv.symbols.is_empty());
}

#[test]
fn invalid_header_text_is_refused() {
    let mut inv = Inventory::new();
    let r = inv.parse_inv(b"# Sphinx inventory version 2\n\xff\xfe\n# Version: 1\n# z\n");
    assert!(matches!(r, Err(InventoryError::InvalidHeaderUtf8)));
}

#[test]
fn corrupt_stream_is_refused_and_nothing_changes() {
    let mut inv = Inventory::new();
    let r = inv.parse_inv(b"# Sphinx inventory version 2\n# Project: X\n# Version: 1\n# z\nnot zlib at all");
    assert!(matches!(r, Err(InventoryError::DecompressFailed)));
    assert!(inv.symbols.is_empty());
    assert!(inv.projects.is_empty());
}

#[test]
fn entries_are_added_from_inflated_text() {
    let mut inv = Inventory::new();
    inv.add_entries("pkg.A py:class 1 a -\r\npkg.b py:function 1 b -\nx c:macro 1 c -\nshort py:class\n");
    assert!(inv.contains("pkg.A"));
    assert!(inv.contains("pkg.b"));
    assert!(!inv.contains("x"));
    assert!(!inv.contains("short"));
    assert_eq!(inv.covered_roots, vec!["pkg"]);
    assert!(inv.projects.is_empty());
}

#[test]
fn no_symbol_is_held_twice() {
    let mut inv = Inventory::new();
    inv.add_entries("a.X py:class 1 u -\na.X py:class 1 u -\nb.Y py:data 1 v -\n");
    inv.add_entries("a.X py:class 1 u -\n");
    assert_eq!(inv.symbols, vec!["a.X", "b.Y"]);
    assert_eq!(inv.covered_roots, vec!["a", "b"]);
}
