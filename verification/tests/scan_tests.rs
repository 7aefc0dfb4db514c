use twm::find_workspaces_in_dir;
use twm::rules::evaluate_rules;
use twm::SafePath;
use twm::ScanConfig;
use twm::ScanResults;
use twm::WorkspaceDefinition;

fn strings(names: &[&str]) -> Vec<String> {
    let mut v = Vec::new();
    for n in names {
        v.push(n.to_string());
    }
    v
}

fn rule(name: &str, all: Option<&[&str]>, any: &[&str]) -> WorkspaceDefinition {
    WorkspaceDefinition {
        name: name.to_string(),
        has_all_files: all.map(strings),
        has_any_file: strings(any),
    }
}

#[test]
fn safe_path_keeps_text() {
    let p = SafePath::new("/proj/a");
    assert_eq!(p.path, "/proj/a");
    assert_eq!(SafePath::new("/proj/a"), SafePath::new("/proj/a"));
    assert_ne!(SafePath::new("/proj/a"), SafePath::new("/proj/b"));
}

#[test]
fn results_insert_and_get() {
    let mut r = ScanResults::new();
    assert_eq!(r.len(), 0);
    r.insert(SafePath::new("/proj/a"), "rust".to_string());
    r.insert(SafePath::new("/proj/b"), "node".to_string());
    assert_eq!(r.len(), 2);
    assert_eq!(r.get(&SafePath::new("/proj/a")), Some(&"rust".to_string()));
    assert_eq!(r.get(&SafePath::new("/proj/b")), Some(&"node".to_string()));
    assert_eq!(r.get(&SafePath::new("/proj/c")), None);
    assert!(r.contains_key(&SafePath::new("/proj/a")));
    assert!(!r.contains_key(&SafePath::new("/proj/c")));
}

#[test]
fn results_keys_stay_unique() {
    let mut r = ScanResults::new();
    r.insert(SafePath::new("/proj/a"), "rust".to_string());
    r.insert(SafePath::new("/proj/a"), "node".to_string());
    assert_eq!(r.len(), 1);
    assert_eq!(r.get(&SafePath::new("/proj/a")), Some(&"node".to_string()));
    let entries = r.entries();
    assert_eq!(entries.len(), 1);
    assert_eq!(entries[0].0.path, "/proj/a");
    assert_eq!(entries[0].1, "node");
}

#[test]
fn rule_with_gate_and_marker_matches() {
    let defs = vec![rule("rust", Some(&["Cargo.toml", "Cargo.lock"]), &["src"])];
    let present = strings(&["Cargo.toml", "Cargo.lock", "src"]);
    assert_eq!(evaluate_rules(&defs, &present), Some(&"rust".to_string()));
}

#[test]
fn missing_gate_file_blocks_the_rule() {
    let defs = vec![rule("rust", Some(&["Cargo.toml", "Cargo.lock"]), &["src"])];
    let present = strings(&["Cargo.toml", "src"]);
    assert_eq!(evaluate_rules(&defs, &present), None);
}

#[test]
fn earlier_rule_wins_when_both_match() {
    let defs = vec![
        rule("rust", Some(&["Cargo.toml", "Cargo.lock"]), &["src"]),
        rule("generic", None, &["README"]),
    ];
    let present = strings(&["Cargo.toml", "Cargo.lock", "src", "README"]);
    assert_eq!(evaluate_rules(&defs, &present), Some(&"rust".to_string()));
}

#[test]
fn failed_gate_does_not_leak_into_later_rules() {
    let defs = vec![
        rule("rust", Some(&["Cargo.toml", "Cargo.lock"]), &["src"]),
        rule("generic", None, &["README"]),
    ];
    let present = strings(&["Cargo.toml", "src", "README"]);
    assert_eq!(evaluate_rules(&defs, &present), Some(&"generic".to_string()));
}

#[test]
fn no_rule_matches_empty_directory() {
    let defs = vec![
        rule("rust", Some(&["Cargo.toml"]), &["src"]),
        rule("generic", None, &["README"]),
    ];
    let present: Vec<String> = Vec::new();
    assert_eq!(evaluate_rules(&defs, &present), None);
}

#[test]
fn last_segment_of_paths() {
    assert_eq!(twm::paths::last_segment("/proj/a"), "a");
    assert_eq!(twm::paths::last_segment("/proj/a/"), "a");
    assert_eq!(twm::paths::last_segment("name"), "name");
    assert_eq!(twm::paths::last_segment("/"), "/");
    assert_eq!(twm::paths::last_segment("a/b/c"), "c");
}

#[test]
fn join_path_inserts_one_separator() {
    let a = "/proj".to_string();
    let b = "a".to_string();
    assert_eq!(twm::paths::join_path(&a, &b), "/proj/a");
    let c = "/proj/".to_string();
    assert_eq!(twm::paths::join_path(&c, &b), "/proj/a");
}

#[test]
fn has_slash_finds_separators() {
    assert!(twm::paths::has_slash(&"a/b".to_string()));
    assert!(!twm::paths::has_slash(&"ab".to_string()));
}

fn marker_config(max_depth: usize, excludes: &[&str]) -> ScanConfig {
    ScanConfig {
        max_search_depth: max_depth,
        exclude_path_components: strings(excludes),
        workspace_definitions: vec![rule("rust", None, &["Cargo.toml"])],
    }
}

#[test]
fn scan_of_missing_root_yields_nothing() {
    let config = marker_config(3, &[]);
    let mut results = ScanResults::new();
    find_workspaces_in_dir("/no/such/directory/anywhere", &config, &mut results);
    assert_eq!(results.len(), 0);
}




#[test]
fn scan_of_excluded_root_records_nothing() {
    let config = marker_config(3, &["."]);
    let mut results = ScanResults::new();
    find_workspaces_in_dir(".", &config, &mut results);
    assert_eq!(results.len(), 0);
}


fn entry(name: Option<&str>, is_dir: bool) -> twm::scan::DirEntryInfo {
    twm::scan::DirEntryInfo {
        name: name.map(|n| n.to_string()),
        is_dir,
    }
}

#[test]
fn visible_names_skips_non_text_entries() {
    let entries = vec![
        entry(Some("Cargo.toml"), false),
        entry(None, true),
        entry(Some("src"), true),
    ];
    let names = twm::scan::visible_names(&entries);
    assert_eq!(names, vec!["Cargo.toml".to_string(), "src".to_string()]);
}

#[test]
fn descend_only_into_directories() {
    let config = marker_config(3, &[]);
    assert!(twm::scan::should_descend(&entry(Some("a"), true), &config, 0));
    assert!(!twm::scan::should_descend(&entry(Some("a"), false), &config, 0));
    assert!(!twm::scan::should_descend(&entry(None, true), &config, 0));
}

#[test]
fn descend_stops_at_the_depth_bound() {
    let config = marker_config(1, &[]);
    assert!(twm::scan::should_descend(&entry(Some("a"), true), &config, 0));
    assert!(!twm::scan::should_descend(&entry(Some("a"), true), &config, 1));
    assert!(!twm::scan::should_descend(&entry(Some("a"), true), &config, 2));
}

#[test]
fn descend_never_into_excluded_names() {
    let config = marker_config(3, &["node_modules"]);
    assert!(!twm::scan::should_descend(&entry(Some("node_modules"), true), &config, 0));
    assert!(twm::scan::should_descend(&entry(Some("pkg"), true), &config, 0));
}

#[test]
fn collection_order_does_not_matter() {
    let mut one = ScanResults::new();
    one.insert(SafePath::new("/proj/a"), "rust".to_string());
    one.insert(SafePath::new("/proj/b"), "node".to_string());
    let mut two = ScanResults::new();
    two.insert(SafePath::new("/proj/b"), "node".to_string());
    two.insert(SafePath::new("/proj/a"), "rust".to_string());
    assert_eq!(one.len(), two.len());
    assert_eq!(one.get(&SafePath::new("/proj/a")), two.get(&SafePath::new("/proj/a")));
    assert_eq!(one.get(&SafePath::new("/proj/b")), two.get(&SafePath::new("/proj/b")));
}

#[test]
fn workspace_discovery_walkthrough() {
    // A small tree, walked by hand through the same verified steps the
    // scanner takes: the root holds one directory `a`, which holds
    // `Cargo.toml`, `Cargo.lock` and `src`.
    let config = ScanConfig {
        max_search_depth: 3,
        exclude_path_components: Vec::new(),
        workspace_definitions: vec![rule("rust", Some(&["Cargo.toml", "Cargo.lock"]), &["src"])],
    };
    let mut results = ScanResults::new();

    let root_listing = vec![entry(Some("a"), true)];
    let root_names = twm::scan::visible_names(&root_listing);
    assert_eq!(evaluate_rules(&config.workspace_definitions, &root_names), None);
    assert!(twm::scan::should_descend(&root_listing[0], &config, 0));

    let child = twm::paths::join_path(&"/proj".to_string(), &"a".to_string());
    assert_eq!(child, "/proj/a");
    let child_listing = vec![
        entry(Some("Cargo.toml"), false),
        entry(Some("Cargo.lock"), false),
        entry(Some("src"), true),
    ];
    let child_names = twm::scan::visible_names(&child_listing);
    let label = evaluate_rules(&config.workspace_definitions, &child_names);
    assert_eq!(label, Some(&"rust".to_string()));
    results.insert(SafePath::new(&child), label.unwrap().clone());

    assert_eq!(results.len(), 1);
    assert_eq!(results.get(&SafePath::new("/proj/a")), Some(&"rust".to_string()));
}

#[test]
fn rule_without_markers_never_matches() {
    let defs = vec![rule("odd", Some(&["Cargo.toml"]), &[])];
    let present = strings(&["Cargo.toml"]);
    assert_eq!(evaluate_rules(&defs, &present), None);
}

#[test]
fn empty_gate_list_is_no_gate() {
    let defs = vec![rule("any", Some(&[]), &["README"])];
    let present = strings(&["README"]);
    assert_eq!(evaluate_rules(&defs, &present), Some(&"any".to_string()));
}

#[test]
fn last_segment_of_empty_path_is_empty() {
    assert_eq!(twm::paths::last_segment(""), "");
}
