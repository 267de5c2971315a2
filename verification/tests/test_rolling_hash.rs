//! Tests for the file registry.

use samesame::path_key::path_key_of;
use samesame::rolling_hash::FileRegistry;

#[test]
fn test_file_registry_assigns_sequential_numbers() {
    let mut reg = FileRegistry::new();
    assert_eq!(reg.register("a.rs".to_string()), 0);
    assert_eq!(reg.register("b.rs".to_string()), 1);
    assert_eq!(reg.register("c.rs".to_string()), 2);
}

#[test]
fn test_file_registry_get_path() {
    let mut reg = FileRegistry::new();
    reg.register("src/main.rs".to_string());
    reg.register("src/lib.rs".to_string());
    assert_eq!(reg.get_path(0), "src/main.rs");
    assert_eq!(reg.get_path(1), "src/lib.rs");
}

#[test]
fn test_file_registry_dedup() {
    let mut reg = FileRegistry::new();
    let first = reg.register("a.rs".to_string());
    let second = reg.register("a.rs".to_string());
    assert_eq!(first, second);
    assert_eq!(reg.len(), 1);
}

#[test]
fn test_file_registry_len() {
    let mut reg = FileRegistry::new();
    assert_eq!(reg.len(), 0);
    reg.register("a.rs".to_string());
    assert_eq!(reg.len(), 1);
    reg.register("b.rs".to_string());
    assert_eq!(reg.len(), 2);
    reg.register("a.rs".to_string()); // duplicate
    assert_eq!(reg.len(), 2);
}

#[test]
fn test_file_registry_existing_number_after_others() {
    let mut reg = FileRegistry::new();
    reg.register("a.rs".to_string());
    reg.register("b.rs".to_string());
    assert_eq!(reg.register("a.rs".to_string()), 0);
    assert_eq!(reg.register("c.rs".to_string()), 2);
    assert_eq!(reg.get_path(2), "c.rs");
}

#[test]
fn test_file_registry_same_path_in_other_spellings() {
    let mut reg = FileRegistry::new();
    assert_eq!(reg.register("src/a.rs".to_string()), 0);
    assert_eq!(reg.register("src//a.rs".to_string()), 0);
    assert_eq!(reg.register("src/./a.rs".to_string()), 0);
    assert_eq!(reg.register("src/a.rs/".to_string()), 0);
    assert_eq!(reg.len(), 1);
    assert_eq!(reg.get_path(0), "src/a.rs");
}

#[test]
fn test_file_registry_different_paths_stay_apart() {
    let mut reg = FileRegistry::new();
    assert_eq!(reg.register("a.rs".to_string()), 0);
    assert_eq!(reg.register("./a.rs".to_string()), 1);
    assert_eq!(reg.register("/a.rs".to_string()), 2);
    assert_eq!(reg.register("../a.rs".to_string()), 3);
    assert_eq!(reg.register(".//a.rs".to_string()), 1);
    assert_eq!(reg.register("//a.rs".to_string()), 2);
    assert_eq!(reg.len(), 4);
}

#[test]
fn test_path_key_forms() {
    assert_eq!(path_key_of("a//b/./c/"), "a/b/c");
    assert_eq!(path_key_of("./a/"), "./a");
    assert_eq!(path_key_of("/./a"), "/a");
    assert_eq!(path_key_of("//"), "/");
    assert_eq!(path_key_of("."), ".");
    assert_eq!(path_key_of(""), "");
    assert_eq!(path_key_of("a/../b"), "a/../b");
}
