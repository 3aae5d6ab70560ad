use std::collections::HashMap;

use linecount::walker::WalkAction;
use linecount::walker::WalkEvent;
use linecount::walker::Walker;

/// Drives a walker over an in-memory tree: each directory maps to its listing
/// of (path, is_dir) entries.
fn run(tree: &HashMap<String, Vec<(String, bool)>>, root: &str) -> Vec<String> {
    let mut walker: Walker<String> = Walker::new();
    let mut listing = tree[root].clone();
    let mut pos = 0;
    let mut out = Vec::new();
    loop {
        let event = if pos < listing.len() {
            let (path, is_dir) = listing[pos].clone();
            pos += 1;
            WalkEvent::Entry { path, is_dir }
        } else {
            WalkEvent::Exhausted
        };
        match walker.step(event) {
            WalkAction::Yield(p) => out.push(p),
            WalkAction::Continue => {}
            WalkAction::Open(dir) => {
                listing = tree[&dir].clone();
                pos = 0;
            }
            WalkAction::Done => return out,
        }
    }
}

fn dir(entries: &[(&str, bool)]) -> Vec<(String, bool)> {
    entries.iter().map(|(p, d)| (p.to_string(), *d)).collect()
}

#[test]
fn nested_file_is_found() {
    let mut tree = HashMap::new();
    tree.insert("root".to_string(), dir(&[("root/sub1", true)]));
    tree.insert("root/sub1".to_string(), dir(&[("root/sub1/sub2", true)]));
    tree.insert("root/sub1/sub2".to_string(), dir(&[("root/sub1/sub2/file.md", false)]));
    assert_eq!(run(&tree, "root"), vec!["root/sub1/sub2/file.md".to_string()]);
}

#[test]
fn every_file_once_and_no_directory() {
    let mut tree = HashMap::new();
    tree.insert(
        "r".to_string(),
        dir(&[("r/a", true), ("r/x.txt", false), ("r/b", true), ("r/y", false)]),
    );
    tree.insert("r/a".to_string(), dir(&[("r/a/1.rs", false), ("r/a/c", true)]));
    tree.insert("r/a/c".to_string(), dir(&[("r/a/c/2.rs", false)]));
    tree.insert("r/b".to_string(), dir(&[]));
    let mut got = run(&tree, "r");
    got.sort();
    let mut want: Vec<String> = ["r/x.txt", "r/y", "r/a/1.rs", "r/a/c/2.rs"]
        .iter()
        .map(|s| s.to_string())
        .collect();
    want.sort();
    assert_eq!(got, want);
}

#[test]
fn files_of_a_listing_come_before_deferred_directories() {
    let mut tree = HashMap::new();
    tree.insert("r".to_string(), dir(&[("r/d", true), ("r/f", false)]));
    tree.insert("r/d".to_string(), dir(&[("r/d/g", false)]));
    assert_eq!(run(&tree, "r"), vec!["r/f".to_string(), "r/d/g".to_string()]);
}

#[test]
fn empty_root_yields_nothing() {
    let mut tree = HashMap::new();
    tree.insert("r".to_string(), dir(&[]));
    assert!(run(&tree, "r").is_empty());
}

#[test]
fn exhaustion_is_permanent() {
    let mut walker: Walker<String> = Walker::new();
    assert!(matches!(walker.step(WalkEvent::Exhausted), WalkAction::Done));
    assert!(matches!(walker.step(WalkEvent::Exhausted), WalkAction::Done));
    let late = WalkEvent::Entry { path: "f".to_string(), is_dir: false };
    assert!(matches!(walker.step(late), WalkAction::Done));
}

#[test]
fn directory_is_deferred_then_opened() {
    let mut walker: Walker<String> = Walker::new();
    let d = WalkEvent::Entry { path: "r/d".to_string(), is_dir: true };
    assert!(matches!(walker.step(d), WalkAction::Continue));
    match walker.step(WalkEvent::Exhausted) {
        WalkAction::Open(p) => assert_eq!(p, "r/d"),
        _ => panic!("expected the deferred directory to be opened"),
    }
    assert!(matches!(walker.step(WalkEvent::Exhausted), WalkAction::Done));
}
