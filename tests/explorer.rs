use file_collector::explorer::{FileExplorer, Listing, Probe, Step};
use file_collector::policy::{Exclusions, Filter};

/// An in-memory filesystem: each node is a path and whether it is a
/// directory. The entries of a directory are the nodes one level below it.
struct Fs {
    nodes: Vec<(String, bool)>,
    unreadable_dirs: Vec<String>,
}

impl Fs {
    fn new() -> Fs {
        Fs { nodes: Vec::new(), unreadable_dirs: Vec::new() }
    }

    fn dir(&mut self, p: &str) {
        self.nodes.push((p.to_string(), true));
    }

    fn files(&mut self, dir: &str, n: usize) {
        for i in 0..n {
            self.nodes.push((format!("{}/file{}", dir, i), false));
        }
    }

    fn file(&mut self, p: &str) {
        self.nodes.push((p.to_string(), false));
    }

    fn probe(&self, p: &str) -> Probe {
        match self.nodes.iter().find(|n| n.0 == p) {
            Some((_, true)) => Probe::Dir,
            Some((_, false)) => Probe::File,
            None => Probe::Failed("No such file or directory".to_string()),
        }
    }

    fn entries(&self, d: &str) -> Vec<String> {
        let prefix = format!("{}/", d);
        self.nodes
            .iter()
            .filter(|n| n.0.starts_with(&prefix) && !n.0[prefix.len()..].contains('/'))
            .map(|n| n.0.clone())
            .collect()
    }

    fn explorer(&self, roots: &[&str], exclusions: Exclusions, filter: Filter) -> FileExplorer {
        let roots = roots.iter().map(|r| (r.to_string(), self.probe(r))).collect();
        FileExplorer::new(roots, exclusions, filter)
    }
}

/// Runs the engine to the end against `fs`, returning the files handed out.
fn drain(explorer: &mut FileExplorer, fs: &Fs) -> Vec<String> {
    let mut out = Vec::new();
    loop {
        match explorer.next_step() {
            Step::Emit(p) => out.push(p),
            Step::Exhausted => return out,
            Step::Expand(d) => {
                if fs.unreadable_dirs.contains(&d) {
                    assert!(!explorer.on_listing(&d, Listing::Failed("Permission denied".to_string())));
                    continue;
                }
                for e in fs.entries(&d) {
                    let probe = fs.probe(&e);
                    if !explorer.on_listing(&d, Listing::Entry(e, probe)) {
                        break;
                    }
                }
                assert!(!explorer.on_listing(&d, Listing::End));
            }
        }
    }
}

fn sorted(mut v: Vec<String>) -> Vec<String> {
    v.sort();
    v
}

#[test]
fn test_iterate_files_in_dir() {
    let mut fs = Fs::new();
    fs.dir("d");
    let number_of_files = 5;
    fs.files("d", number_of_files);
    let mut explorer = fs.explorer(&["d"], Exclusions::new(), Filter::new());
    let counter = drain(&mut explorer, &fs).len();
    assert_eq!(counter, number_of_files);
}

#[test]
fn test_iterate_multiple_dirs() {
    let mut fs = Fs::new();
    fs.dir("first");
    fs.dir("second");
    let number_of_files = 5;
    fs.files("first", number_of_files);
    fs.files("second", number_of_files);
    let mut explorer = fs.explorer(&["first", "second"], Exclusions::new(), Filter::new());
    let counter = drain(&mut explorer, &fs).len();
    assert_eq!(counter, number_of_files * 2);
}

#[test]
fn test_iterate_inner_folder() {
    let mut fs = Fs::new();
    fs.dir("outer");
    let outer_files = 3;
    fs.files("outer", outer_files);
    fs.dir("outer/inner");
    let inner_files = 5;
    fs.files("outer/inner", inner_files);
    let mut explorer = fs.explorer(&["outer"], Exclusions::new(), Filter::new());
    let counter = drain(&mut explorer, &fs).len();
    assert_eq!(counter, outer_files + inner_files);
}

#[test]
fn test_iterate_bad_files() {
    let mut fs = Fs::new();
    fs.dir("outer");
    let outer_files = 3;
    fs.files("outer", outer_files);
    fs.dir("outer/inner");
    let inner_files = 5;
    fs.files("outer/inner", inner_files);
    let roots = ["does not exist", "outer", "does not exist"];
    let failed_roots = roots.iter().filter(|r| matches!(fs.probe(r), Probe::Failed(_))).count();
    assert_eq!(failed_roots, 2);
    let mut explorer = fs.explorer(&roots, Exclusions::new(), Filter::new());
    let counter = drain(&mut explorer, &fs).len();
    assert_eq!(counter, outer_files + inner_files);
    assert!(explorer.failures().is_empty());
    assert_eq!(explorer.base_paths().len(), 3);
}

#[test]
fn mixed_root_types() {
    let mut fs = Fs::new();
    fs.file("single");
    fs.dir("d");
    fs.files("d", 2);
    let mut explorer = fs.explorer(&["single", "d"], Exclusions::new(), Filter::new());
    let out = sorted(drain(&mut explorer, &fs));
    assert_eq!(out, vec!["d/file0", "d/file1", "single"]);
}

#[test]
fn emitted_files_are_exactly_the_tree_files() {
    let mut fs = Fs::new();
    fs.dir("r");
    fs.files("r", 2);
    fs.dir("r/a");
    fs.files("r/a", 1);
    fs.dir("r/a/b");
    fs.files("r/a/b", 3);
    fs.dir("r/empty");
    let mut explorer = fs.explorer(&["r"], Exclusions::new(), Filter::new());
    let out = sorted(drain(&mut explorer, &fs));
    let expected: Vec<String> = sorted(
        fs.nodes.iter().filter(|n| !n.1).map(|n| n.0.clone()).collect(),
    );
    assert_eq!(out, expected);
}

#[test]
fn overlapping_roots_emit_twice() {
    let mut fs = Fs::new();
    fs.dir("o");
    fs.files("o", 1);
    fs.dir("o/i");
    fs.files("o/i", 2);
    let mut explorer = fs.explorer(&["o", "o/i"], Exclusions::new(), Filter::new());
    let out = sorted(drain(&mut explorer, &fs));
    assert_eq!(out, vec!["o/file0", "o/i/file0", "o/i/file0", "o/i/file1", "o/i/file1"]);
}

#[test]
fn excluded_subdirectory_is_skipped() {
    let mut fs = Fs::new();
    fs.dir("o");
    fs.files("o", 3);
    fs.dir("o/skip");
    fs.files("o/skip", 4);
    fs.dir("o/skip/deeper");
    fs.files("o/skip/deeper", 2);
    fs.dir("o/keep");
    fs.files("o/keep", 1);
    let exclusions = Exclusions::from_paths(vec!["o/skip".to_string()]);
    let mut explorer = fs.explorer(&["o"], exclusions, Filter::new());
    let out = drain(&mut explorer, &fs);
    assert_eq!(out.len(), 4);
    assert!(out.iter().all(|p| !p.starts_with("o/skip")));
    assert!(explorer.failures().is_empty());
}

#[test]
fn excluded_root_is_dropped() {
    let mut fs = Fs::new();
    fs.dir("a");
    fs.files("a", 2);
    fs.file("b");
    let exclusions = Exclusions::from_paths(vec!["a".to_string()]);
    let mut explorer = fs.explorer(&["a", "b"], exclusions, Filter::new());
    assert_eq!(drain(&mut explorer, &fs), vec!["b"]);
}

#[test]
fn excluded_entry_with_failed_probe_is_not_logged() {
    let exclusions = Exclusions::from_paths(vec!["d/broken".to_string()]);
    let mut explorer = FileExplorer::new(vec![("d".to_string(), Probe::Dir)], exclusions, Filter::new());
    assert!(matches!(explorer.next_step(), Step::Expand(d) if d == "d"));
    let item = Listing::Entry("d/broken".to_string(), Probe::Failed("broken link".to_string()));
    assert!(explorer.on_listing(&"d".to_string(), item));
    assert!(explorer.failures().is_empty());
    assert!(matches!(explorer.next_step(), Step::Exhausted));
}

#[test]
fn filter_keeps_only_listed_extensions() {
    let mut fs = Fs::new();
    fs.dir("src");
    fs.file("src/main.rs");
    fs.file("src/notes.txt");
    fs.file("src/lib.rs");
    fs.file("src/rs");
    fs.dir("src/sub.rs");
    fs.file("src/sub.rs/data.bin");
    let filter = Filter::from_extensions(vec!["rs".to_string()]);
    let mut explorer = fs.explorer(&["src"], Exclusions::new(), filter);
    let out = sorted(drain(&mut explorer, &fs));
    assert_eq!(out, vec!["src/lib.rs", "src/main.rs"]);
}

#[test]
fn exhausted_stays_exhausted() {
    let mut fs = Fs::new();
    fs.dir("d");
    fs.files("d", 1);
    let mut explorer = fs.explorer(&["d"], Exclusions::new(), Filter::new());
    assert_eq!(drain(&mut explorer, &fs).len(), 1);
    for _ in 0..5 {
        assert!(matches!(explorer.next_step(), Step::Exhausted));
    }
}

#[test]
fn nothing_pending_without_roots() {
    let mut explorer = FileExplorer::new(Vec::new(), Exclusions::new(), Filter::new());
    assert!(matches!(explorer.next_step(), Step::Exhausted));
    assert!(explorer.failures().is_empty());
}

#[test]
fn failures_are_logged_and_never_emitted() {
    let mut fs = Fs::new();
    fs.dir("r");
    fs.files("r", 2);
    fs.dir("r/locked");
    fs.files("r/locked", 3);
    fs.unreadable_dirs.push("r/locked".to_string());
    let mut explorer = fs.explorer(&["r"], Exclusions::new(), Filter::new());
    let out = drain(&mut explorer, &fs);
    assert_eq!(out.len(), 2);
    let failures = explorer.failures();
    assert_eq!(failures.len(), 1);
    assert_eq!(failures[0].0, "r/locked");
    assert_eq!(failures[0].1, "Permission denied");
    assert!(!out.contains(&failures[0].0));
}

#[test]
fn entry_probe_failure_is_logged_against_the_entry() {
    let mut explorer = FileExplorer::new(vec![("d".to_string(), Probe::Dir)], Exclusions::new(), Filter::new());
    let d = match explorer.next_step() {
        Step::Expand(d) => d,
        _ => panic!("expected a directory to expand"),
    };
    assert!(explorer.on_listing(&d, Listing::Entry("d/a".to_string(), Probe::File)));
    assert!(explorer.on_listing(&d, Listing::Entry("d/link".to_string(), Probe::Failed("dangling".to_string()))));
    assert!(!explorer.on_listing(&d, Listing::End));
    assert_eq!(explorer.failures(), &vec![("d/link".to_string(), "dangling".to_string())]);
    assert!(matches!(explorer.next_step(), Step::Emit(p) if p == "d/a"));
    assert!(matches!(explorer.next_step(), Step::Exhausted));
}

#[test]
fn broken_listing_keeps_what_came_before() {
    let mut explorer = FileExplorer::new(vec![("d".to_string(), Probe::Dir)], Exclusions::new(), Filter::new());
    assert!(matches!(explorer.next_step(), Step::Expand(_)));
    let d = "d".to_string();
    assert!(explorer.on_listing(&d, Listing::Entry("d/x".to_string(), Probe::File)));
    assert!(explorer.on_listing(&d, Listing::Entry("d/sub".to_string(), Probe::Dir)));
    assert!(!explorer.on_listing(&d, Listing::Failed("interrupted".to_string())));
    assert_eq!(explorer.failures(), &vec![("d".to_string(), "interrupted".to_string())]);
    assert!(matches!(explorer.next_step(), Step::Emit(p) if p == "d/x"));
    assert!(matches!(explorer.next_step(), Step::Expand(p) if p == "d/sub"));
}

#[test]
fn stacks_pop_most_recent_first() {
    let mut explorer = FileExplorer::new(vec![("d".to_string(), Probe::Dir)], Exclusions::new(), Filter::new());
    assert!(matches!(explorer.next_step(), Step::Expand(_)));
    let d = "d".to_string();
    assert!(explorer.on_listing(&d, Listing::Entry("d/1".to_string(), Probe::File)));
    assert!(explorer.on_listing(&d, Listing::Entry("d/2".to_string(), Probe::File)));
    assert!(explorer.on_listing(&d, Listing::Entry("d/s1".to_string(), Probe::Dir)));
    assert!(explorer.on_listing(&d, Listing::Entry("d/s2".to_string(), Probe::Dir)));
    assert!(matches!(explorer.next_step(), Step::Emit(p) if p == "d/2"));
    assert!(matches!(explorer.next_step(), Step::Emit(p) if p == "d/1"));
    assert!(matches!(explorer.next_step(), Step::Expand(p) if p == "d/s2"));
    assert!(matches!(explorer.next_step(), Step::Expand(p) if p == "d/s1"));
    assert!(matches!(explorer.next_step(), Step::Exhausted));
}

#[test]
fn first_base_path_is_popped_last() {
    let roots = vec![
        ("f1".to_string(), Probe::File),
        ("d1".to_string(), Probe::Dir),
        ("missing".to_string(), Probe::Failed("No such file or directory".to_string())),
        ("f2".to_string(), Probe::File),
        ("d2".to_string(), Probe::Dir),
    ];
    let mut explorer = FileExplorer::new(roots, Exclusions::new(), Filter::new());
    assert_eq!(explorer.base_paths(), &vec!["f1", "d1", "missing", "f2", "d2"]);
    assert!(explorer.failures().is_empty());
    assert!(matches!(explorer.next_step(), Step::Emit(p) if p == "f2"));
    assert!(matches!(explorer.next_step(), Step::Emit(p) if p == "f1"));
    assert!(matches!(explorer.next_step(), Step::Expand(p) if p == "d2"));
    assert!(matches!(explorer.next_step(), Step::Expand(p) if p == "d1"));
    assert!(matches!(explorer.next_step(), Step::Exhausted));
}

#[test]
fn engine_reports_exclusions() {
    let exclusions = Exclusions::from_paths(vec!["d/skip".to_string()]);
    let explorer = FileExplorer::new(Vec::new(), exclusions, Filter::new());
    assert!(explorer.is_excluded(&"d/skip".to_string()));
    assert!(!explorer.is_excluded(&"d/keep".to_string()));
}

#[test]
fn failed_base_paths_change_nothing() {
    let mut fs = Fs::new();
    fs.dir("o");
    fs.files("o", 2);
    let mut with_missing = fs.explorer(&["gone", "o", "also-gone"], Exclusions::new(), Filter::new());
    let mut without = fs.explorer(&["o"], Exclusions::new(), Filter::new());
    assert_eq!(drain(&mut with_missing, &fs), drain(&mut without, &fs));
    assert!(with_missing.failures().is_empty());
}
