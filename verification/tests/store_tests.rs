use stash::store::{from_entries, sort_newest_first, Entry, StashStore};

fn entry(name: &str, index: u32, data: &[u8], created: u64) -> Entry {
    Entry { name: String::from(name), index, data: data.to_vec(), created }
}

#[test]
fn scenario_push_get_newest_pop() {
    let mut st = StashStore::new();
    assert_eq!(st.push("x", b"hello".to_vec(), 1), 0);
    assert_eq!(st.push("x", b"world".to_vec(), 2), 1);
    assert_eq!(st.get_newest("x").unwrap().as_slice(), b"world");
    assert_eq!(st.pop("x").unwrap().as_slice(), b"world");
    let lines = st.list();
    assert_eq!(lines.len(), 1);
    assert_eq!(lines[0].0, "x");
    assert_eq!(lines[0].1, 0);
    assert_eq!(st.get("x", 0).unwrap().as_slice(), b"hello");
    assert!(st.get("x", 1).is_none());
}

#[test]
fn push_assigns_increasing_indices_per_name() {
    let mut st = StashStore::new();
    assert_eq!(st.push("a", b"1".to_vec(), 1), 0);
    assert_eq!(st.push("a", b"2".to_vec(), 2), 1);
    assert_eq!(st.push("b", b"3".to_vec(), 3), 0);
    assert_eq!(st.push("a", b"4".to_vec(), 4), 2);
    assert_eq!(st.newest_index("a"), Some(2));
    assert_eq!(st.newest_index("b"), Some(0));
    assert_eq!(st.newest_index("c"), None);
}

#[test]
fn pop_after_push_then_not_found() {
    let mut st = StashStore::new();
    st.push("y", b"bytes".to_vec(), 1);
    assert_eq!(st.pop("y").unwrap().as_slice(), b"bytes");
    assert!(st.pop("y").is_none());
}

#[test]
fn pop_returns_highest_index() {
    let mut st = StashStore::new();
    st.push("n", b"old".to_vec(), 1);
    st.push("n", b"mid".to_vec(), 2);
    st.push("n", b"new".to_vec(), 3);
    assert_eq!(st.pop("n").unwrap().as_slice(), b"new");
    assert_eq!(st.pop("n").unwrap().as_slice(), b"mid");
    assert_eq!(st.pop("n").unwrap().as_slice(), b"old");
    assert!(st.pop("n").is_none());
}

#[test]
fn get_is_idempotent_until_deletion() {
    let mut st = StashStore::new();
    st.push("k", b"payload".to_vec(), 1);
    let first = st.get("k", 0).unwrap().clone();
    let second = st.get("k", 0).unwrap().clone();
    assert_eq!(first, second);
    assert_eq!(first.as_slice(), b"payload");
    assert!(st.delete("k", 0));
    assert!(st.get("k", 0).is_none());
}

#[test]
fn clear_then_list_is_empty() {
    let mut st = StashStore::new();
    st.push("a", b"1".to_vec(), 1);
    st.push("b", b"2".to_vec(), 2);
    st.push("", b"3".to_vec(), 3);
    st.clear();
    assert!(st.list().is_empty());
    assert!(st.pop("a").is_none());
}

#[test]
fn delete_reports_presence() {
    let mut st = StashStore::new();
    assert!(!st.delete("z", 3));
    st.push("z", b"v".to_vec(), 1);
    assert!(!st.delete("z", 3));
    assert!(st.delete("z", 0));
    assert!(!st.delete("z", 0));
}

#[test]
fn anonymous_name_is_its_own_stack() {
    let mut st = StashStore::new();
    assert_eq!(st.push("", b"anon".to_vec(), 1), 0);
    assert_eq!(st.push("named", b"other".to_vec(), 2), 0);
    assert_eq!(st.get_newest("").unwrap().as_slice(), b"anon");
}

#[test]
fn list_is_newest_first_after_pushes() {
    let mut st = StashStore::new();
    st.push("a", b"1".to_vec(), 1);
    st.push("b", b"2".to_vec(), 2);
    let lines = st.list();
    assert_eq!(lines.len(), 2);
    assert_eq!(lines[0].0, "b");
    assert_eq!(lines[0].2, 2);
    assert_eq!(lines[1].0, "a");
    assert_eq!(lines[1].2, 1);
}

#[test]
fn from_entries_rejects_duplicate_keys() {
    let dup = vec![entry("a", 1, b"x", 5), entry("b", 1, b"y", 4), entry("a", 1, b"z", 3)];
    assert!(from_entries(dup).is_none());
}

#[test]
fn from_entries_keeps_order_and_contents() {
    let es = vec![entry("a", 1, b"x", 5), entry("a", 0, b"y", 4), entry("b", 0, b"z", 3)];
    let st = from_entries(es).unwrap();
    let lines = st.list();
    assert_eq!(lines.len(), 3);
    assert_eq!((lines[0].0.as_str(), lines[0].1), ("a", 1));
    assert_eq!((lines[1].0.as_str(), lines[1].1), ("a", 0));
    assert_eq!((lines[2].0.as_str(), lines[2].1), ("b", 0));
    assert_eq!(st.get("a", 0).unwrap().as_slice(), b"y");
}

#[test]
fn loaded_store_continues_the_stack() {
    let es = vec![entry("a", 1, b"newer", 9), entry("a", 0, b"older", 5)];
    let mut st = from_entries(es).unwrap();
    assert_eq!(st.push("a", b"newest".to_vec(), 12), 2);
    assert_eq!(st.pop("a").unwrap().as_slice(), b"newest");
    assert_eq!(st.pop("a").unwrap().as_slice(), b"newer");
}

#[test]
fn sort_orders_newest_first() {
    let es = vec![entry("a", 0, b"1", 5), entry("b", 0, b"2", 9), entry("c", 0, b"3", 1)];
    let sorted = sort_newest_first(es);
    let created: Vec<u64> = sorted.iter().map(|e| e.created).collect();
    assert_eq!(created, vec![9, 5, 1]);
    let names: Vec<&str> = sorted.iter().map(|e| e.name.as_str()).collect();
    assert_eq!(names, vec!["b", "a", "c"]);
}
