use cliprust::config::{Config, ThumbMode};
use cliprust::history::{is_storable, Added, ClipboardHistory, HistoryError};
use cliprust::index::parse_index;
use cliprust::preview::{Entry, Preview};
use std::collections::HashMap;

fn config(max_items: usize, max_dedupe_depth: usize) -> Config {
    Config {
        db_dir_path: "/tmp/db".to_string(),
        max_dedupe_depth,
        max_items,
        preview_width: 100,
        generate_thumb: ThumbMode::Plain,
    }
}

/// Adds `content` the way a caller with a blob store does: reads the window,
/// adds, then applies the file effects to the store.
fn store(
    h: &mut ClipboardHistory,
    blobs: &mut HashMap<usize, Vec<u8>>,
    content: &[u8],
    config: &Config,
) -> Added {
    let window = h.dedupe_window(config);
    let stored: Vec<Vec<u8>> = window.iter().map(|id| blobs[id].clone()).collect();
    let added = h.add_entry(content.to_vec(), &stored, config);
    for e in &added.evicted {
        blobs.remove(&e.file);
    }
    if added.inserted {
        blobs.insert(added.id, content.to_vec());
    }
    added
}

fn contents(h: &ClipboardHistory, blobs: &HashMap<usize, Vec<u8>>) -> Vec<Vec<u8>> {
    h.order().iter().map(|id| blobs[id].clone()).collect()
}

#[test]
fn capacity_two_evicts_oldest() {
    let c = config(2, 0);
    let mut h = ClipboardHistory::new();
    let mut blobs = HashMap::new();
    store(&mut h, &mut blobs, b"A", &c);
    store(&mut h, &mut blobs, b"B", &c);
    let added = store(&mut h, &mut blobs, b"C", &c);
    assert_eq!(contents(&h, &blobs), vec![b"B".to_vec(), b"C".to_vec()]);
    assert_eq!(h.order(), &vec![2, 3]);
    assert_eq!(added.evicted.len(), 1);
    assert_eq!(added.evicted[0].file, 1);
    assert!(h.get_entry(1).is_err());
}

#[test]
fn depth_one_misses_older_duplicate() {
    let c = config(10, 1);
    let mut h = ClipboardHistory::new();
    let mut blobs = HashMap::new();
    store(&mut h, &mut blobs, b"x", &c);
    store(&mut h, &mut blobs, b"y", &c);
    let third = store(&mut h, &mut blobs, b"x", &c);
    assert!(third.inserted);
    assert_eq!(h.order(), &vec![1, 2, 3]);
    assert_eq!(blobs[&1], b"x".to_vec());
    assert_eq!(blobs[&3], b"x".to_vec());
}

#[test]
fn depth_two_merges_duplicate() {
    let c = config(10, 2);
    let mut h = ClipboardHistory::new();
    let mut blobs = HashMap::new();
    let first = store(&mut h, &mut blobs, b"x", &c);
    store(&mut h, &mut blobs, b"y", &c);
    let third = store(&mut h, &mut blobs, b"x", &c);
    assert!(!third.inserted);
    assert_eq!(third.id, first.id);
    assert_eq!(h.order(), &vec![2, 1]);
    assert_eq!(contents(&h, &blobs), vec![b"y".to_vec(), b"x".to_vec()]);
    assert_eq!(h.next_id(), 3);
}

#[test]
fn round_trip_returns_stored_bytes() {
    let c = config(5, 3);
    let mut h = ClipboardHistory::new();
    let mut blobs = HashMap::new();
    for content in [b"one".to_vec(), vec![0u8, 255, 7], b"one".to_vec(), Vec::new()] {
        let added = store(&mut h, &mut blobs, &content, &c);
        let entry = h.get_entry(added.id).unwrap();
        assert_eq!(blobs[&entry.file], content);
    }
}

#[test]
fn capacity_bound_holds_after_every_add() {
    let c = config(3, 2);
    let mut h = ClipboardHistory::new();
    let mut blobs = HashMap::new();
    for i in 0..20u8 {
        store(&mut h, &mut blobs, &[i % 5], &c);
        assert!(h.order().len() <= 3);
    }
}

#[test]
fn repeat_keeps_single_entry_and_id() {
    let c = config(10, 1);
    let mut h = ClipboardHistory::new();
    let mut blobs = HashMap::new();
    store(&mut h, &mut blobs, b"p", &c);
    let first = store(&mut h, &mut blobs, b"q", &c);
    let second = store(&mut h, &mut blobs, b"q", &c);
    assert!(first.inserted);
    assert!(!second.inserted);
    assert_eq!(first.id, second.id);
    assert_eq!(h.order(), &vec![1, 2]);
    assert_eq!(h.next_id(), 3);
}

#[test]
fn match_moves_to_end() {
    let c = config(10, 10);
    let mut h = ClipboardHistory::new();
    let mut blobs = HashMap::new();
    store(&mut h, &mut blobs, b"a", &c);
    store(&mut h, &mut blobs, b"b", &c);
    store(&mut h, &mut blobs, b"c", &c);
    let again = store(&mut h, &mut blobs, b"a", &c);
    assert_eq!(again.id, 1);
    assert_eq!(h.order(), &vec![2, 3, 1]);
    assert_eq!(*h.order().last().unwrap(), again.id);
}

#[test]
fn eviction_is_first_in_first_out() {
    let c = config(3, 0);
    let mut h = ClipboardHistory::new();
    let mut blobs = HashMap::new();
    for content in [b"1", b"2", b"3"] {
        store(&mut h, &mut blobs, content, &c);
    }
    let added = store(&mut h, &mut blobs, b"4", &c);
    assert_eq!(added.evicted.len(), 1);
    assert_eq!(added.evicted[0].file, 1);
    assert_eq!(h.order(), &vec![2, 3, 4]);
}

#[test]
fn eviction_follows_insertion_not_touch() {
    let c = config(3, 3);
    let mut h = ClipboardHistory::new();
    let mut blobs = HashMap::new();
    for content in [b"1", b"2", b"3"] {
        store(&mut h, &mut blobs, content, &c);
    }
    let added = store(&mut h, &mut blobs, b"4", &c);
    assert_eq!(added.evicted[0].file, 1);
    assert_eq!(h.order(), &vec![2, 3, 4]);
}

#[test]
fn lowered_capacity_evicts_down_to_room() {
    let mut h = ClipboardHistory::new();
    let mut blobs = HashMap::new();
    let wide = config(10, 0);
    for content in [b"1", b"2", b"3", b"4", b"5"] {
        store(&mut h, &mut blobs, content, &wide);
    }
    let narrow = config(2, 0);
    let added = store(&mut h, &mut blobs, b"6", &narrow);
    assert_eq!(added.evicted.iter().map(|e| e.file).collect::<Vec<_>>(), vec![1, 2, 3, 4]);
    assert_eq!(h.order(), &vec![5, 6]);
}

#[test]
fn deleted_id_is_gone() {
    let c = config(10, 10);
    let mut h = ClipboardHistory::new();
    let mut blobs = HashMap::new();
    store(&mut h, &mut blobs, b"a", &c);
    store(&mut h, &mut blobs, b"b", &c);
    let removed = h.delete_entry(1).unwrap();
    assert_eq!(removed.file, 1);
    blobs.remove(&1);
    assert_eq!(h.get_entry(1).unwrap_err(), HistoryError::NotFound);
    let again = store(&mut h, &mut blobs, b"a", &c);
    assert_eq!(again.id, 3);
    assert!(!h.order().contains(&1));
}

#[test]
fn delete_absent_id_changes_nothing() {
    let c = config(10, 10);
    let mut h = ClipboardHistory::new();
    let mut blobs = HashMap::new();
    store(&mut h, &mut blobs, b"a", &c);
    assert!(h.delete_entry(7).is_none());
    assert_eq!(h.order(), &vec![1]);
}

#[test]
fn clear_removes_everything() {
    let c = config(10, 10);
    let mut h = ClipboardHistory::new();
    let mut blobs = HashMap::new();
    store(&mut h, &mut blobs, b"a", &c);
    store(&mut h, &mut blobs, b"b", &c);
    let removed = h.clear();
    assert_eq!(removed.iter().map(|e| e.file).collect::<Vec<_>>(), vec![1, 2]);
    assert!(h.order().is_empty());
    assert!(h.get_entry(1).is_err());
    assert!(h.get_entry(2).is_err());
    assert_eq!(h.next_id(), 3);
    let added = store(&mut h, &mut blobs, b"c", &c);
    assert_eq!(added.id, 3);
}

#[test]
fn decode_of_unknown_id_fails_without_change() {
    let c = config(10, 10);
    let mut h = ClipboardHistory::new();
    let mut blobs = HashMap::new();
    store(&mut h, &mut blobs, b"a", &c);
    assert_eq!(h.get_entry(42).unwrap_err(), HistoryError::NotFound);
    assert_eq!(h.order(), &vec![1]);
    assert_eq!(h.next_id(), 2);
}

#[test]
fn last_and_second_last() {
    let c = config(10, 10);
    let mut h = ClipboardHistory::new();
    let mut blobs = HashMap::new();
    assert_eq!(h.last(&c), Err(HistoryError::InsufficientHistory));
    store(&mut h, &mut blobs, b"first", &c);
    assert_eq!(h.last(&c).unwrap(), "1\tfirst");
    assert_eq!(h.second_last(&c), Err(HistoryError::InsufficientHistory));
    store(&mut h, &mut blobs, b"second", &c);
    assert_eq!(h.last(&c).unwrap(), "2\tsecond");
    assert_eq!(h.second_last(&c).unwrap(), "1\tfirst");
}

#[test]
fn list_is_most_recent_first() {
    let c = config(10, 10);
    let mut h = ClipboardHistory::new();
    let mut blobs = HashMap::new();
    store(&mut h, &mut blobs, b"a", &c);
    store(&mut h, &mut blobs, b"b\nc", &c);
    assert_eq!(h.list_entries(&c), vec!["2\tb\u{21b5} c".to_string(), "1\ta".to_string()]);
}

#[test]
fn window_is_newest_first_after_eviction() {
    let mut h = ClipboardHistory::new();
    let mut blobs = HashMap::new();
    let c = config(10, 10);
    for content in [b"1", b"2", b"3", b"4"] {
        store(&mut h, &mut blobs, content, &c);
    }
    assert_eq!(h.dedupe_window(&config(10, 2)), vec![4, 3]);
    assert_eq!(h.dedupe_window(&config(3, 10)), vec![4, 3]);
    assert_eq!(h.dedupe_window(&config(10, 0)), Vec::<usize>::new());
}

fn entry(file: usize, text: &str) -> Entry {
    Entry { file, preview: Preview::Text(text.to_string()) }
}

#[test]
fn restore_consistent_parts() {
    let h = ClipboardHistory::from_parts(vec![3, 1], vec![entry(1, "a"), entry(3, "c")], 4)
        .unwrap();
    assert_eq!(h.order(), &vec![3, 1]);
    assert_eq!(h.next_id(), 4);
    assert_eq!(h.get_entry(3).unwrap(), &entry(3, "c"));
}

#[test]
fn restore_refuses_inconsistent_parts() {
    let bad = HistoryError::SerializationError;
    assert_eq!(ClipboardHistory::from_parts(vec![1, 1], vec![entry(1, "a")], 2).err(), Some(bad));
    assert_eq!(ClipboardHistory::from_parts(vec![1, 2], vec![entry(1, "a")], 3).err(), Some(bad));
    assert_eq!(
        ClipboardHistory::from_parts(vec![1], vec![entry(1, "a"), entry(1, "b")], 2).err(),
        Some(bad)
    );
    assert_eq!(ClipboardHistory::from_parts(vec![1], vec![entry(2, "a")], 3).err(), Some(bad));
    assert_eq!(ClipboardHistory::from_parts(vec![5], vec![entry(5, "a")], 5).err(), Some(bad));
    assert_eq!(ClipboardHistory::from_parts(vec![], vec![], 0).err(), Some(bad));
}

#[test]
fn index_parsing() {
    assert_eq!(parse_index("12"), Ok(12));
    assert_eq!(parse_index("  7 extra\n"), Ok(7));
    assert_eq!(parse_index("3\tsome preview"), Ok(3));
    assert_eq!(parse_index("+5"), Ok(5));
    assert_eq!(parse_index("007"), Ok(7));
    assert_eq!(parse_index("18446744073709551615"), Ok(usize::MAX));
}

#[test]
fn index_parsing_rejects_malformed() {
    let bad = Err(HistoryError::InvalidIndex);
    assert_eq!(parse_index(""), bad);
    assert_eq!(parse_index(" \n"), bad);
    assert_eq!(parse_index("abc"), bad);
    assert_eq!(parse_index("12abc"), bad);
    assert_eq!(parse_index("-1"), bad);
    assert_eq!(parse_index("+"), bad);
    assert_eq!(parse_index("18446744073709551616"), bad);
}

#[test]
fn empty_or_lone_line_feed_is_not_storable() {
    assert!(!is_storable(b""));
    assert!(!is_storable(b"\n"));
    assert!(is_storable(b"\n\n"));
    assert!(is_storable(b" "));
    assert!(is_storable(b"a\n"));
}
