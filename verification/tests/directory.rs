use bitcaskplus::index::{CommandPos, Index};
use bitcaskplus::segment::LogDir;

fn at(file_num: u64, pos: u64, len: u64) -> CommandPos {
    CommandPos { file_num, pos, len }
}

#[test]
fn directory_keeps_segments_by_generation() {
    let mut dir = LogDir::new();
    assert_eq!(dir.count(), 0);
    assert_eq!(dir.last_file_num(), None);
    assert!(dir.file_nums().is_empty());
    dir.create(5, vec![5]);
    dir.create(1, vec![1]);
    dir.create(3, vec![3, 3]);
    assert_eq!(dir.file_nums(), vec![1, 3, 5]);
    assert_eq!(dir.count(), 3);
    assert_eq!(dir.last_file_num(), Some(5));
    assert!(dir.contains(3));
    assert!(!dir.contains(2));
    assert_eq!(dir.segment(3).map(|s| s.data.clone()), Some(vec![3, 3]));
    assert_eq!(dir.segment(3).map(|s| s.file_num), Some(3));
    assert!(dir.segment(4).is_none());
}

#[test]
fn create_replaces_a_segment_of_the_same_generation() {
    let mut dir = LogDir::new();
    dir.create(2, vec![1, 2, 3]);
    dir.create(2, vec![9]);
    assert_eq!(dir.file_nums(), vec![2]);
    assert_eq!(dir.segment(2).map(|s| s.data.clone()), Some(vec![9]));
}

#[test]
fn take_hands_out_the_content_and_removes_the_segment() {
    let mut dir = LogDir::new();
    dir.create(1, vec![1]);
    dir.create(2, vec![2]);
    assert_eq!(dir.take(1), Some(vec![1]));
    assert_eq!(dir.take(1), None);
    assert_eq!(dir.file_nums(), vec![2]);
}

#[test]
fn append_record_creates_the_segment_and_returns_offsets() {
    let mut dir = LogDir::new();
    assert_eq!(dir.append_record(4, 0xAABB_CCDD, b"xy"), 0);
    assert_eq!(dir.append_record(4, 1, b""), 14);
    assert_eq!(dir.append_record(2, 2, b"z"), 0);
    assert_eq!(dir.file_nums(), vec![2, 4]);
    let data = dir.segment(4).expect("segment").data.clone();
    assert_eq!(
        data,
        vec![0xDD, 0xCC, 0xBB, 0xAA, 2, 0, 0, 0, 0, 0, 0, 0, b'x', b'y', 1, 0, 0, 0, 0, 0, 0, 0, 0, 0, 0, 0]
    );
}

#[test]
fn remove_below_drops_the_older_generations() {
    let mut dir = LogDir::new();
    for g in [1u64, 2, 3, 7, 9] {
        dir.create(g, vec![g as u8]);
    }
    dir.remove_below(3);
    assert_eq!(dir.file_nums(), vec![3, 7, 9]);
    dir.remove_below(8);
    assert_eq!(dir.file_nums(), vec![9]);
    dir.remove_below(0);
    assert_eq!(dir.file_nums(), vec![9]);
    dir.remove_below(u64::MAX);
    assert!(dir.file_nums().is_empty());
}

#[test]
fn index_binds_and_unbinds() {
    let mut index = Index::new();
    assert_eq!(index.len(), 0);
    assert_eq!(index.insert("a".to_string(), at(0, 0, 21)), None);
    assert_eq!(index.insert("b".to_string(), at(0, 21, 21)), None);
    assert_eq!(index.insert("a".to_string(), at(0, 42, 21)), Some(at(0, 0, 21)));
    assert_eq!(index.len(), 2);
    assert!(index.contains_key("a"));
    assert!(!index.contains_key("c"));
    assert_eq!(index.get("a"), Some(at(0, 42, 21)));
    assert_eq!(index.get("c"), None);
    assert_eq!(index.remove("a"), Some(at(0, 42, 21)));
    assert_eq!(index.remove("a"), None);
    assert_eq!(index.get("a"), None);
    assert_eq!(index.get("b"), Some(at(0, 21, 21)));
    assert_eq!(index.len(), 1);
}

#[test]
fn index_walk_keeps_insertion_order_and_fills_the_gap_with_the_last() {
    let mut index = Index::new();
    for (i, key) in ["a", "b", "c", "d"].iter().enumerate() {
        index.insert(key.to_string(), at(0, i as u64, 1));
    }
    let keys = |index: &Index| -> Vec<String> { index.entries().into_iter().map(|e| e.0).collect() };
    assert_eq!(keys(&index), vec!["a", "b", "c", "d"]);
    index.insert("b".to_string(), at(1, 0, 1));
    assert_eq!(keys(&index), vec!["a", "b", "c", "d"]);
    index.remove("a");
    assert_eq!(keys(&index), vec!["d", "b", "c"]);
    index.remove("c");
    assert_eq!(keys(&index), vec!["d", "b"]);
    index.insert("a".to_string(), at(2, 0, 1));
    assert_eq!(
        index.entries(),
        vec![("d".to_string(), at(0, 3, 1)), ("b".to_string(), at(1, 0, 1)), ("a".to_string(), at(2, 0, 1))]
    );
}

#[test]
fn index_relocates_only_what_lies_in_an_older_generation() {
    let mut index = Index::new();
    index.insert("old".to_string(), at(1, 0, 10));
    index.insert("new".to_string(), at(5, 0, 10));
    assert!(index.relocate("old".to_string(), at(4, 7, 10), 4));
    assert!(!index.relocate("new".to_string(), at(4, 17, 10), 4));
    assert!(!index.relocate("gone".to_string(), at(4, 27, 10), 4));
    assert_eq!(index.get("old"), Some(at(4, 7, 10)));
    assert_eq!(index.get("new"), Some(at(5, 0, 10)));
    assert_eq!(index.get("gone"), None);
    assert!(!index.relocate("old".to_string(), at(4, 99, 10), 4));
    assert_eq!(index.get("old"), Some(at(4, 7, 10)));
}
