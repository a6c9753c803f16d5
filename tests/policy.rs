use file_collector::policy::{Exclusions, Filter};

#[test]
fn empty_exclusions_exclude_nothing() {
    let e = Exclusions::new();
    assert!(!e.is_excluded(&"a".to_string()));
    assert!(!e.is_excluded(&String::new()));
}

#[test]
fn exclusions_match_whole_paths() {
    let e = Exclusions::from_paths(vec!["a/b".to_string(), "c".to_string()]);
    assert!(e.is_excluded(&"a/b".to_string()));
    assert!(e.is_excluded(&"c".to_string()));
    assert!(!e.is_excluded(&"a/b/c".to_string()));
    assert!(!e.is_excluded(&"a".to_string()));
    assert!(!e.is_excluded(&"cc".to_string()));
}

#[test]
fn empty_filter_accepts_everything() {
    let f = Filter::new();
    assert!(f.accepts(&"x".to_string()));
    assert!(f.accepts(&String::new()));
}

#[test]
fn filter_matches_extensions() {
    let f = Filter::from_extensions(vec!["rs".to_string(), "toml".to_string()]);
    assert!(f.accepts(&"src/lib.rs".to_string()));
    assert!(f.accepts(&"Cargo.toml".to_string()));
    assert!(f.accepts(&".rs".to_string()));
    assert!(!f.accepts(&"rs".to_string()));
    assert!(!f.accepts(&"lib_rs".to_string()));
    assert!(!f.accepts(&"lib.rsx".to_string()));
    assert!(!f.accepts(&"notes.txt".to_string()));
    assert!(!f.accepts(&String::new()));
}

#[test]
fn filter_handles_non_ascii_paths() {
    let f = Filter::from_extensions(vec!["é".to_string()]);
    assert!(f.accepts(&"données.é".to_string()));
    assert!(!f.accepts(&"données.e".to_string()));
}
