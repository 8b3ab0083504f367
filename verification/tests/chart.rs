use gate::chart::{chart_slices, ChartSlice, TOP_SLICES};
use gate::node::FileNode;

fn leaf(name: &str, size: u64) -> FileNode {
    FileNode { name: name.to_string(), path: format!("/d/{}", name), size, is_dir: false, children: vec![] }
}

fn dir(size: u64, children: Vec<FileNode>) -> FileNode {
    FileNode { name: "d".to_string(), path: "/d".to_string(), size, is_dir: true, children }
}

fn shown(slices: &[ChartSlice]) -> Vec<(&str, u64, bool)> {
    slices.iter().map(|s| (s.name.as_str(), s.size, s.others)).collect()
}

#[test]
fn eight_children_are_shown_on_their_own() {
    assert_eq!(TOP_SLICES, 8);
}

#[test]
fn empty_directory_has_no_chart() {
    assert!(chart_slices(&dir(0, vec![])).unwrap().is_empty());
    assert!(chart_slices(&dir(10, vec![])).unwrap().is_empty());
    assert!(chart_slices(&dir(0, vec![leaf("a", 0)])).unwrap().is_empty());
    assert!(chart_slices(&leaf("f", 10)).unwrap().is_empty());
}

#[test]
fn few_children_fill_the_chart() {
    let slices = chart_slices(&dir(60, vec![leaf("a", 10), leaf("b", 30), leaf("c", 20)])).unwrap();
    assert_eq!(shown(&slices), vec![("b", 30, false), ("c", 20, false), ("a", 10, false)]);
}

#[test]
fn children_beyond_the_eighth_are_the_others() {
    let children: Vec<FileNode> = (1..=11).map(|i| leaf(&format!("n{}", i), i)).collect();
    let slices = chart_slices(&dir(66, children)).unwrap();
    assert_eq!(
        shown(&slices),
        vec![
            ("n11", 11, false),
            ("n10", 10, false),
            ("n9", 9, false),
            ("n8", 8, false),
            ("n7", 7, false),
            ("n6", 6, false),
            ("n5", 5, false),
            ("n4", 4, false),
            ("Others", 6, true),
        ]
    );
}

#[test]
fn ties_keep_the_order_of_the_children() {
    let children: Vec<FileNode> = (0..10).map(|i| leaf(&format!("n{}", i), 5)).collect();
    let slices = chart_slices(&dir(50, children)).unwrap();
    let names: Vec<&str> = slices.iter().map(|s| s.name.as_str()).collect();
    assert_eq!(names, vec!["n0", "n1", "n2", "n3", "n4", "n5", "n6", "n7", "Others"]);
    assert_eq!(slices[8].size, 10);
}

#[test]
fn size_beyond_the_children_goes_to_the_others() {
    let slices = chart_slices(&dir(100, vec![leaf("a", 10), leaf("b", 30)])).unwrap();
    assert_eq!(shown(&slices), vec![("b", 30, false), ("a", 10, false), ("Others", 60, true)]);
}

#[test]
fn children_heavier_than_the_directory_leave_no_others() {
    let slices = chart_slices(&dir(5, vec![leaf("a", 10), leaf("b", 30)])).unwrap();
    assert_eq!(shown(&slices), vec![("b", 30, false), ("a", 10, false)]);
}

#[test]
fn shares_that_overflow_give_no_chart() {
    assert!(chart_slices(&dir(1, vec![leaf("a", u64::MAX), leaf("b", 1)])).is_none());
    assert!(chart_slices(&dir(1, vec![leaf("a", u64::MAX - 1), leaf("b", 1)])).is_some());
}

#[test]
fn only_the_largest_are_summed() {
    let mut children: Vec<FileNode> = (0..8).map(|i| leaf(&format!("big{}", i), 100)).collect();
    children.push(leaf("huge", u64::MAX - 801));
    children.push(leaf("small", 1));
    // All ten weigh u64::MAX together; the eight largest are summed alone.
    let slices = chart_slices(&dir(u64::MAX, children)).unwrap();
    assert_eq!(slices.len(), 9);
    assert_eq!(slices[0].name, "huge");
    assert_eq!(slices[7].name, "big6");
    assert_eq!(shown(&slices)[8], ("Others", 101, true));
}
