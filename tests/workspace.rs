use affected::workspace::{generate_exclude_list, PackageRecord, Workspace};

fn record(name: &str, dir: &str, deps: &[Option<&str>]) -> PackageRecord {
    PackageRecord {
        name: name.to_string(),
        manifest: format!("{}/Cargo.toml", dir),
        dependencies: deps.iter().map(|d| d.map(|s| s.to_string())).collect(),
    }
}

/// a depends on b, b on c, all under /ws; d stands alone.
fn chain() -> Workspace {
    let records = vec![
        record("a", "/ws/a", &[Some("/ws/b"), Some("/elsewhere/serde"), None]),
        record("b", "/ws/b", &[Some("/ws/c")]),
        record("c", "/ws/c", &[]),
        record("d", "/ws/d", &[]),
    ];
    Workspace::build("/ws", &records)
}

fn files(list: &[&str]) -> Vec<String> {
    list.iter().map(|s| s.to_string()).collect()
}

#[test]
fn build_keeps_only_workspace_dependencies() {
    let ws = chain();
    assert_eq!(ws.len(), 4);
    let a = ws.package(0);
    assert_eq!(a.name, "a");
    assert_eq!(a.manifest, "/ws/a/Cargo.toml");
    assert_eq!(a.directory, "/ws/a");
    assert_eq!(a.dependencies, vec!["/ws/b".to_string()]);
}

#[test]
fn no_changed_files_affect_nothing() {
    let ws = chain();
    assert!(ws.affected_packages("/ws", &Vec::new()).is_empty());
}

#[test]
fn owner_of_changed_file_is_affected() {
    let ws = chain();
    let r = ws.affected_packages("/ws", &files(&["d/src/lib.rs"]));
    assert_eq!(r, vec!["d"]);
}

#[test]
fn file_outside_every_package_is_dropped() {
    let ws = chain();
    let r = ws.affected_packages("/ws", &files(&["README.md", "/tmp/x.rs"]));
    assert!(r.is_empty());
}

#[test]
fn change_at_the_bottom_of_a_chain_reaches_the_top() {
    let ws = chain();
    let r = ws.affected_packages("/ws", &files(&["c/src/lib.rs"]));
    assert_eq!(r, vec!["a", "b", "c"]);
}

#[test]
fn change_in_the_middle_reaches_only_dependents() {
    let ws = chain();
    let r = ws.affected_packages("/ws", &files(&["b/src/lib.rs"]));
    assert_eq!(r, vec!["a", "b"]);
}

#[test]
fn adding_a_changed_file_never_shrinks_the_set() {
    let ws = chain();
    let small = ws.affected_packages("/ws", &files(&["b/src/lib.rs"]));
    let big = ws.affected_packages("/ws", &files(&["b/src/lib.rs", "d/Cargo.toml"]));
    for n in &small {
        assert!(big.contains(n));
    }
    assert_eq!(big, vec!["a", "b", "d"]);
}

#[test]
fn closing_twice_changes_nothing() {
    let ws = chain();
    let seeds = ws.seed_marks("/ws", &files(&["c/src/lib.rs"]));
    assert_eq!(seeds, vec![false, false, true, false]);
    let once = ws.propagate(seeds);
    assert_eq!(once, vec![true, true, true, false]);
    let twice = ws.propagate(once.clone());
    assert_eq!(once, twice);
}

#[test]
fn dependency_cycles_terminate() {
    let records = vec![
        record("x", "/ws/x", &[Some("/ws/y")]),
        record("y", "/ws/y", &[Some("/ws/x")]),
    ];
    let ws = Workspace::build("/ws", &records);
    let r = ws.affected_packages("/ws", &files(&["x/a.rs"]));
    assert_eq!(r, vec!["x", "y"]);
}

#[test]
fn deepest_directory_owns_the_file() {
    let records = vec![
        record("root", "/ws", &[]),
        record("pkga", "/ws/pkgA", &[]),
        record("pkgab", "/ws/pkgAB", &[]),
    ];
    let ws = Workspace::build("/ws", &records);
    assert_eq!(ws.owner_of("/ws/pkgA/sub/file.rs"), Some(1));
    assert_eq!(ws.owner_of("/ws/pkgAB/file.rs"), Some(2));
    assert_eq!(ws.owner_of("/ws/pkgA"), Some(1));
    assert_eq!(ws.owner_of("/ws/other.rs"), Some(0));
    assert_eq!(ws.owner_of("/elsewhere/file.rs"), None);
}

#[test]
fn nested_manifest_root_owns_its_own_files() {
    let records = vec![
        record("pkga", "/ws/pkgA", &[]),
        record("sub", "/ws/pkgA/sub", &[]),
    ];
    let ws = Workspace::build("/ws", &records);
    assert_eq!(ws.owner_of("/ws/pkgA/sub/file.rs"), Some(1));
    assert_eq!(ws.owner_of("/ws/pkgA/src/file.rs"), Some(0));
    let r = ws.affected_packages("/ws", &files(&["pkgA/sub/file.rs"]));
    assert_eq!(r, vec!["sub"]);
}

#[test]
fn excludes_are_the_complement() {
    let ws = chain();
    let included = ws.affected_packages("/ws", &files(&["b/src/lib.rs"]));
    let excludes = generate_exclude_list(ws.packages(), &included);
    assert_eq!(excludes, vec!["c", "d"]);
    let mut all: Vec<String> = included.iter().chain(excludes.iter()).cloned().collect();
    all.sort();
    assert_eq!(all, vec!["a", "b", "c", "d"]);
    assert!(included.iter().all(|n| !excludes.contains(n)));
}

#[test]
fn excludes_of_nothing_is_everything() {
    let ws = chain();
    assert_eq!(generate_exclude_list(ws.packages(), &Vec::new()), vec!["a", "b", "c", "d"]);
}

#[test]
fn dependency_below_a_package_root_resolves_to_it() {
    let records = vec![
        record("a", "/ws/a", &[Some("/ws/b/sub")]),
        record("b", "/ws/b", &[]),
    ];
    let ws = Workspace::build("/ws", &records);
    let r = ws.affected_packages("/ws", &files(&["b/src/lib.rs"]));
    assert_eq!(r, vec!["a", "b"]);
}

#[test]
fn root_with_trailing_separator_keeps_dependencies() {
    let ws = Workspace::build("/ws/", &[record("a", "/ws/a", &[Some("/ws/b")]), record("b", "/ws/b", &[])].into());
    assert_eq!(ws.package(0).dependencies, vec!["/ws/b".to_string()]);
    let r = ws.affected_packages("/ws/", &files(&["b/lib.rs"]));
    assert_eq!(r, vec!["a", "b"]);
}
