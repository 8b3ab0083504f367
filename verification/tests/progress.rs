use gate::node::FileNode;
use gate::progress::{ScanMessage, ScanProgress};

#[test]
fn fresh_counters_are_zero() {
    let p = ScanProgress::default();
    assert_eq!(p.files_scanned, 0);
    assert_eq!(p.bytes_scanned, 0);
    assert_eq!(p.current_path, "");
}

#[test]
fn visit_counts_entry_bytes_and_path() {
    let mut p = ScanProgress::default();
    let began = p.start_time;
    let first = p.record_visit(&"/a".to_string(), 0).unwrap();
    assert_eq!((first.files_scanned, first.bytes_scanned), (1, 0));
    assert_eq!(first.current_path, "/a");
    let second = p.record_visit(&"/a/b".to_string(), 120).unwrap();
    assert_eq!((second.files_scanned, second.bytes_scanned), (2, 120));
    assert_eq!(second.current_path, "/a/b");
    assert_eq!(second.start_time, began);
    assert_eq!((p.files_scanned, p.bytes_scanned), (2, 120));
    assert_eq!(p.current_path, "/a/b");
}

#[test]
fn snapshot_is_a_copy() {
    let mut p = ScanProgress::default();
    let first = p.record_visit(&"/a".to_string(), 5).unwrap();
    p.record_visit(&"/b".to_string(), 5).unwrap();
    assert_eq!(first.files_scanned, 1);
    assert_eq!(first.bytes_scanned, 5);
    assert_eq!(first.current_path, "/a");
    let copy = first.clone();
    assert_eq!(copy.files_scanned, 1);
    assert_eq!(copy.current_path, "/a");
    assert_eq!(copy.start_time, first.start_time);
}

#[test]
fn byte_overflow_leaves_counters_alone() {
    let mut p = ScanProgress::default();
    p.record_visit(&"/a".to_string(), u64::MAX - 1).unwrap();
    assert!(p.record_visit(&"/b".to_string(), 2).is_none());
    assert_eq!(p.files_scanned, 1);
    assert_eq!(p.bytes_scanned, u64::MAX - 1);
    assert_eq!(p.current_path, "/a");
    assert!(p.record_visit(&"/c".to_string(), 1).is_some());
    assert_eq!(p.bytes_scanned, u64::MAX);
}

#[test]
fn entry_overflow_leaves_counters_alone() {
    let mut p = ScanProgress::default();
    p.files_scanned = u64::MAX;
    assert!(p.record_visit(&"/a".to_string(), 0).is_none());
    assert_eq!(p.files_scanned, u64::MAX);
    assert_eq!(p.current_path, "");
}

#[test]
fn only_progress_is_not_terminal() {
    assert!(!ScanMessage::Progress(ScanProgress::default()).is_terminal());
    assert!(ScanMessage::Completed(FileNode::default()).is_terminal());
    assert!(ScanMessage::Error("x".to_string()).is_terminal());
}
