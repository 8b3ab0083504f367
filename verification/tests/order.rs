use gate::node::FileNode;
use gate::order::sort_by_size;

fn leaf(name: &str, size: u64) -> FileNode {
    FileNode { name: name.to_string(), path: format!("/{}", name), size, is_dir: false, children: vec![] }
}

fn names(nodes: &[FileNode]) -> Vec<&str> {
    nodes.iter().map(|n| n.name.as_str()).collect()
}

#[test]
fn sort_of_nothing_is_nothing() {
    assert!(sort_by_size(vec![]).is_empty());
}

#[test]
fn sort_of_one_is_itself() {
    let sorted = sort_by_size(vec![leaf("a", 3)]);
    assert_eq!(names(&sorted), vec!["a"]);
    assert_eq!(sorted[0].size, 3);
}

#[test]
fn sort_puts_largest_first() {
    let sorted = sort_by_size(vec![leaf("a", 1), leaf("b", 3), leaf("c", 2)]);
    assert_eq!(names(&sorted), vec!["b", "c", "a"]);
}

#[test]
fn sort_keeps_ties_in_order() {
    let sorted = sort_by_size(vec![
        leaf("a", 2),
        leaf("b", 1),
        leaf("c", 2),
        leaf("d", 1),
        leaf("e", 2),
        leaf("f", 3),
        leaf("g", 1),
    ]);
    assert_eq!(names(&sorted), vec!["f", "a", "c", "e", "b", "d", "g"]);
}

#[test]
fn sort_of_sorted_changes_nothing() {
    let once = sort_by_size(vec![leaf("a", 5), leaf("b", 5), leaf("c", 4), leaf("d", 0)]);
    assert_eq!(names(&once), vec!["a", "b", "c", "d"]);
    let twice = sort_by_size(once);
    assert_eq!(names(&twice), vec!["a", "b", "c", "d"]);
}

#[test]
fn sort_of_ascending_reverses() {
    let sorted = sort_by_size((0..50).map(|i| leaf(&format!("n{}", i), i)).collect());
    let expected: Vec<String> = (0..50).rev().map(|i| format!("n{}", i)).collect();
    assert_eq!(names(&sorted), expected.iter().map(|s| s.as_str()).collect::<Vec<_>>());
}

#[test]
fn sort_agrees_with_a_stable_sort() {
    let input: Vec<FileNode> =
        (0..997u64).map(|i| leaf(&format!("n{}", i), (i * 7919 + 13) % 31)).collect();
    let mut expected: Vec<(String, u64)> = input.iter().map(|n| (n.name.clone(), n.size)).collect();
    expected.sort_by(|a, b| b.1.cmp(&a.1));
    let sorted = sort_by_size(input);
    let got: Vec<(String, u64)> = sorted.iter().map(|n| (n.name.clone(), n.size)).collect();
    assert_eq!(got, expected);
}

#[test]
fn sort_keeps_subtrees_whole() {
    let dir = FileNode {
        name: "d".to_string(),
        path: "/d".to_string(),
        size: 9,
        is_dir: true,
        children: vec![leaf("x", 5), leaf("y", 4)],
    };
    let sorted = sort_by_size(vec![leaf("a", 1), dir]);
    assert_eq!(names(&sorted), vec!["d", "a"]);
    assert_eq!(names(&sorted[0].children), vec!["x", "y"]);
    assert!(sorted[0].is_dir);
    assert_eq!(sorted[0].path, "/d");
}
