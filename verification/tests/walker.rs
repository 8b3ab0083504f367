use gate::node::FileNode;
use gate::progress::{ScanMessage, ScanProgress};
use gate::walk::Phase;
use gate::walker::{DirEntry, Found, Walker};

fn entry(dir: &str, name: &str) -> DirEntry {
    DirEntry { name: name.to_string(), path: format!("{}/{}", dir, name), is_symlink: false }
}

fn link(dir: &str, name: &str) -> DirEntry {
    DirEntry { name: name.to_string(), path: format!("{}/{}", dir, name), is_symlink: true }
}

fn file(len: u64) -> Found {
    Found::File { len: Some(len) }
}

fn dir(entries: Vec<DirEntry>) -> Found {
    Found::Directory { entries: Some(entries) }
}

/// Drives a walker over the filesystem that `look` describes and returns
/// every message in the order it was produced.
fn scan(root: &str, look: &dyn Fn(&str) -> Found) -> Vec<ScanMessage> {
    let mut walker = Walker::new(root.trim_start_matches('/').to_string(), root.to_string());
    let mut all = Vec::new();
    loop {
        let path = match walker.next_path() {
            Some(path) => path.clone(),
            None => break,
        };
        let (next, messages) = walker.step(look(&path));
        walker = next;
        all.extend(messages);
    }
    all
}

fn snapshots(messages: &[ScanMessage]) -> Vec<&ScanProgress> {
    let mut found = Vec::new();
    for m in messages {
        if let ScanMessage::Progress(p) = m {
            found.push(p);
        }
    }
    found
}

fn root_of(messages: &[ScanMessage]) -> &FileNode {
    match messages.last() {
        Some(ScanMessage::Completed(root)) => root,
        other => panic!("no tree at the end: {:?}", other),
    }
}

fn sizes(nodes: &[FileNode]) -> Vec<(String, u64)> {
    nodes.iter().map(|n| (n.name.clone(), n.size)).collect()
}

fn small_tree(path: &str) -> Found {
    match path {
        "/root" => dir(vec![entry("/root", "a.txt"), entry("/root", "sub")]),
        "/root/a.txt" => file(100),
        "/root/sub" => dir(vec![entry("/root/sub", "b.txt"), entry("/root/sub", "c.txt")]),
        "/root/sub/b.txt" => file(50),
        "/root/sub/c.txt" => file(150),
        other => panic!("not asked for: {}", other),
    }
}

#[test]
fn file_and_subdirectory_are_summed_and_ranked() {
    let messages = scan("/root", &small_tree);
    let root = root_of(&messages);
    assert_eq!(root.size, 300);
    assert!(root.is_dir);
    assert_eq!(sizes(&root.children), vec![("sub".to_string(), 200), ("a.txt".to_string(), 100)]);
    let sub = &root.children[0];
    assert!(sub.is_dir);
    assert_eq!(sizes(&sub.children), vec![("c.txt".to_string(), 150), ("b.txt".to_string(), 50)]);
    // The four entries below the root, and the root itself.
    let last = *snapshots(&messages).last().unwrap();
    assert_eq!(last.files_scanned, 5);
    assert_eq!(last.files_scanned - 1, 4);
    assert_eq!(last.bytes_scanned, 300);
}

#[test]
fn one_snapshot_per_entry_then_the_tree() {
    let messages = scan("/root", &small_tree);
    assert_eq!(messages.len(), 6);
    let seen = snapshots(&messages[..5]);
    assert_eq!(seen.len(), 5);
    let paths: Vec<&str> = seen.iter().map(|p| p.current_path.as_str()).collect();
    assert_eq!(paths, vec!["/root", "/root/a.txt", "/root/sub", "/root/sub/b.txt", "/root/sub/c.txt"]);
    let counts: Vec<u64> = seen.iter().map(|p| p.files_scanned).collect();
    assert_eq!(counts, vec![1, 2, 3, 4, 5]);
    let bytes: Vec<u64> = seen.iter().map(|p| p.bytes_scanned).collect();
    assert_eq!(bytes, vec![0, 100, 100, 150, 300]);
    assert!(matches!(messages[5], ScanMessage::Completed(_)));
}

#[test]
fn paths_and_names_are_those_of_the_listing() {
    let messages = scan("/root", &small_tree);
    let root = root_of(&messages);
    assert_eq!(root.name, "root");
    assert_eq!(root.path, "/root");
    assert_eq!(root.children[0].path, "/root/sub");
    assert_eq!(root.children[0].children[0].path, "/root/sub/c.txt");
    assert_eq!(root.children[0].children[0].name, "c.txt");
    assert!(!root.children[1].is_dir);
    assert!(root.children[1].children.is_empty());
}

#[test]
fn symlink_is_not_visited_counted_or_listed() {
    let look = |path: &str| match path {
        "/d" => dir(vec![entry("/d", "real"), link("/d", "big"), entry("/d", "other")]),
        "/d/real" => file(7),
        "/d/other" => file(9),
        other => panic!("not asked for: {}", other),
    };
    let messages = scan("/d", &look);
    let root = root_of(&messages);
    assert_eq!(sizes(&root.children), vec![("other".to_string(), 9), ("real".to_string(), 7)]);
    assert_eq!(root.size, 16);
    let last = *snapshots(&messages).last().unwrap();
    assert_eq!(last.files_scanned, 3);
    assert_eq!(last.bytes_scanned, 16);
}

#[test]
fn directory_of_symlinks_only_is_empty() {
    let look = |path: &str| match path {
        "/d" => dir(vec![link("/d", "x"), link("/d", "y")]),
        other => panic!("not asked for: {}", other),
    };
    let messages = scan("/d", &look);
    assert_eq!(messages.len(), 2);
    let root = root_of(&messages);
    assert_eq!(root.size, 0);
    assert!(root.children.is_empty());
    assert_eq!(snapshots(&messages)[0].files_scanned, 1);
}

#[test]
fn unlistable_subdirectory_is_empty_and_scan_completes() {
    let look = |path: &str| match path {
        "/d" => dir(vec![entry("/d", "locked"), entry("/d", "f")]),
        "/d/locked" => Found::Directory { entries: None },
        "/d/f" => file(10),
        other => panic!("not asked for: {}", other),
    };
    let messages = scan("/d", &look);
    let root = root_of(&messages);
    let locked = root.children.iter().find(|n| n.name == "locked").unwrap();
    assert!(locked.is_dir);
    assert_eq!(locked.size, 0);
    assert!(locked.children.is_empty());
    assert_eq!(root.size, 10);
    assert!(!messages.iter().any(|m| matches!(m, ScanMessage::Error(_))));
}

#[test]
fn unreadable_file_counts_as_empty() {
    let look = |path: &str| match path {
        "/d" => dir(vec![entry("/d", "gone"), entry("/d", "f")]),
        "/d/gone" => Found::File { len: None },
        "/d/f" => file(4),
        other => panic!("not asked for: {}", other),
    };
    let messages = scan("/d", &look);
    let root = root_of(&messages);
    assert_eq!(sizes(&root.children), vec![("f".to_string(), 4), ("gone".to_string(), 0)]);
    let last = *snapshots(&messages).last().unwrap();
    assert_eq!(last.files_scanned, 3);
    assert_eq!(last.bytes_scanned, 4);
}

#[test]
fn root_that_is_a_file_is_the_whole_tree() {
    let messages = scan("/f", &|_| file(42));
    assert_eq!(messages.len(), 2);
    let root = root_of(&messages);
    assert!(!root.is_dir);
    assert_eq!(root.size, 42);
    assert_eq!(snapshots(&messages)[0].bytes_scanned, 42);
}

#[test]
fn equal_sizes_keep_listing_order() {
    let look = |path: &str| match path {
        "/d" => dir(vec![entry("/d", "a"), entry("/d", "b"), entry("/d", "c"), entry("/d", "d")]),
        "/d/a" => file(5),
        "/d/b" => file(9),
        "/d/c" => file(5),
        "/d/d" => file(9),
        other => panic!("not asked for: {}", other),
    };
    let messages = scan("/d", &look);
    let names: Vec<String> = root_of(&messages).children.iter().map(|n| n.name.clone()).collect();
    assert_eq!(names, vec!["b", "d", "a", "c"]);
}

#[test]
fn two_scans_of_the_same_tree_agree() {
    let first = scan("/root", &small_tree);
    let second = scan("/root", &small_tree);
    fn flat(node: &FileNode, out: &mut Vec<(String, u64)>) {
        out.push((node.path.clone(), node.size));
        for child in &node.children {
            flat(child, out);
        }
    }
    let (mut a, mut b) = (Vec::new(), Vec::new());
    flat(root_of(&first), &mut a);
    flat(root_of(&second), &mut b);
    assert_eq!(a, b);
    assert_eq!(a.len(), 5);
}

#[test]
fn deep_chain_closes_every_directory() {
    let look = |path: &str| match path {
        "/a" => dir(vec![entry("/a", "b")]),
        "/a/b" => dir(vec![entry("/a/b", "c")]),
        "/a/b/c" => dir(vec![entry("/a/b/c", "f")]),
        "/a/b/c/f" => file(3),
        other => panic!("not asked for: {}", other),
    };
    let messages = scan("/a", &look);
    assert_eq!(messages.len(), 5);
    let root = root_of(&messages);
    assert_eq!(root.size, 3);
    assert_eq!(root.children[0].children[0].children[0].name, "f");
    assert_eq!(root.children[0].children[0].size, 3);
}

#[test]
fn byte_counter_overflow_fails_the_scan() {
    let walker = Walker::new("d".to_string(), "/d".to_string());
    let (walker, messages) = walker.step(dir(vec![entry("/d", "a"), entry("/d", "b")]));
    assert_eq!(messages.len(), 1);
    let (walker, messages) = walker.step(file(u64::MAX));
    assert_eq!(messages.len(), 1);
    assert_eq!(walker.next_path().map(|p| p.as_str()), Some("/d/b"));
    // The byte counter holds u64::MAX; one more byte cannot be counted.
    let (walker, messages) = walker.step(file(1));
    assert_eq!(messages.len(), 1);
    match &messages[0] {
        ScanMessage::Error(reason) => assert_eq!(reason, "scan totals overflowed"),
        m => panic!("expected an error, got {:?}", m),
    }
    assert_eq!(walker.phase(), Phase::Failed);
    assert!(walker.next_path().is_none());
    assert_eq!(walker.progress().files_scanned, 2);
    assert_eq!(walker.progress().bytes_scanned, u64::MAX);
    let (walker, messages) = walker.step(file(0));
    assert!(messages.is_empty());
    assert_eq!(walker.phase(), Phase::Failed);
}

#[test]
fn sizes_up_to_the_limit_are_summed() {
    let look = |path: &str| match path {
        "/d" => dir(vec![entry("/d", "a"), entry("/d", "b")]),
        "/d/a" => file(u64::MAX - 5),
        "/d/b" => file(5),
        other => panic!("not asked for: {}", other),
    };
    let messages = scan("/d", &look);
    let root = root_of(&messages);
    assert_eq!(root.size, u64::MAX);
    assert_eq!(snapshots(&messages).last().unwrap().bytes_scanned, u64::MAX);
}

#[test]
fn next_path_follows_the_listing_depth_first() {
    let mut walker = Walker::new("root".to_string(), "/root".to_string());
    let mut asked = Vec::new();
    while let Some(path) = walker.next_path().cloned() {
        asked.push(path.clone());
        walker = walker.step(small_tree(&path)).0;
    }
    assert_eq!(asked, vec!["/root", "/root/a.txt", "/root/sub", "/root/sub/b.txt", "/root/sub/c.txt"]);
    assert_eq!(walker.phase(), Phase::Completed);
}

#[test]
fn ended_walker_says_nothing_more() {
    let walker = Walker::new("f".to_string(), "/f".to_string());
    assert_eq!(walker.phase(), Phase::Running);
    let (walker, messages) = walker.step(file(1));
    assert_eq!(messages.len(), 2);
    assert_eq!(walker.phase(), Phase::Completed);
    assert!(walker.next_path().is_none());
    let (walker, messages) = walker.step(file(1));
    assert!(messages.is_empty());
    let (walker, messages) = walker.step(dir(vec![]));
    assert!(messages.is_empty());
    assert_eq!(walker.phase(), Phase::Completed);
    assert_eq!(walker.progress().files_scanned, 1);
}

#[test]
fn new_walker_asks_for_its_root() {
    let walker = Walker::new("root".to_string(), "/some/root".to_string());
    assert_eq!(walker.phase(), Phase::Running);
    assert_eq!(walker.next_path().map(|p| p.as_str()), Some("/some/root"));
    assert_eq!(walker.progress().files_scanned, 0);
    assert_eq!(walker.progress().bytes_scanned, 0);
    assert_eq!(walker.progress().current_path, "");
}

#[test]
fn wide_directory_is_ranked() {
    let n = 1000u64;
    let look = move |path: &str| {
        if path == "/w" {
            dir((0..n).map(|i| entry("/w", &format!("f{}", i))).collect())
        } else {
            let i: u64 = path.trim_start_matches("/w/f").parse().unwrap();
            file((i * 7919) % 1009)
        }
    };
    let messages = scan("/w", &look);
    assert_eq!(messages.len() as u64, n + 2);
    let root = root_of(&messages);
    assert_eq!(root.children.len() as u64, n);
    assert!(root.children.windows(2).all(|w| w[0].size >= w[1].size));
    assert_eq!(root.size, root.children.iter().map(|c| c.size).sum::<u64>());
}
