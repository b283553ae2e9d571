use affected::names::{insert_sorted, less_than};
use affected::paths::{check_path, directory_key, is_considered, parent_directory};

#[test]
fn check_path_accepts_paths_inside_root() {
    assert!(check_path("/ws", Some("/ws/core")));
    assert!(check_path("/ws", Some("/ws")));
    assert!(check_path("/ws/", Some("/ws/core")));
    assert!(check_path("/ws/", Some("/ws")));
    assert!(check_path("/ws", Some("/ws//core/./src")));
    assert!(check_path("/ws/./", Some("/ws/core/")));
}

#[test]
fn check_path_rejects_other_paths() {
    assert!(!check_path("/ws", Some("/wsx/core")));
    assert!(!check_path("/ws", Some("/other/core")));
    assert!(!check_path("/ws", None));
}

#[test]
fn parent_directory_of_manifest() {
    assert_eq!(parent_directory("/ws/core/Cargo.toml"), "/ws/core");
    assert_eq!(parent_directory("/Cargo.toml"), "/");
    assert_eq!(parent_directory("Cargo.toml"), "");
    assert_eq!(parent_directory("/"), "");
}

#[test]
fn directory_key_has_one_trailing_separator() {
    assert_eq!(directory_key("/ws/core"), "/ws/core/");
    assert_eq!(directory_key("/ws/core/"), "/ws/core/");
}

#[test]
fn source_extensions_are_considered() {
    for p in ["a/b.rs", "x.c", "x.cpp", "x.h", "x.hpp", "x.cc", "x.cxx", "Cargo.toml", "SRC/MAIN.RS", "x.Toml", "foo.rs/", "foo.rs/.", ".hidden.rs"] {
        assert!(is_considered(p), "{}", p);
    }
}

#[test]
fn other_files_are_not_considered() {
    for p in ["README.md", "a/b", ".rs", "dir.rs/file", "x.rsx", "x.", "", "/", "a/.."] {
        assert!(!is_considered(p), "{}", p);
    }
}

#[test]
fn names_are_ordered_by_bytes() {
    assert!(less_than("core", "util"));
    assert!(!less_than("util", "core"));
    assert!(less_than("core", "core-x"));
    assert!(!less_than("core", "core"));
    assert!(less_than("Zed", "abc"));
}

#[test]
fn insert_sorted_keeps_order_and_drops_repeats() {
    let mut v: Vec<String> = Vec::new();
    for n in ["util", "core", "macros", "core", "app"] {
        insert_sorted(&mut v, n.to_string());
    }
    assert_eq!(v, vec!["app", "core", "macros", "util"]);
}
