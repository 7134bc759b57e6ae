use std::cell::RefCell;
use std::rc::Rc;

use lru_cache::cache::Cache;
use lru_cache::recency::LRU;

#[test]
fn test1() {
    let x: Vec<u8> = "123".to_string().into();
    println!("{:?}", x);
    assert_eq!(x, vec![b'1', b'2', b'3']);
}

#[test]
fn test_add() {
    let mut cache = Cache::<&str>::new(2);
    cache.add("123", "11");
    cache.add("23", "12");
    assert_eq!(cache.get("123"), Some(&"11"));
    assert_eq!(cache.get("23"), Some(&"12"));
    cache.add("45", "13");
    assert_eq!(cache.get("45"), Some(&"13"));
    assert_eq!(cache.get("123"), None);
    assert_eq!(cache.get("none"), None);
}

#[test]
fn test_with_evicted() {
    let mut cache = Cache::<&str>::new_with_evicted(
        2,
        Box::new(|key, value| {
            println!("removed key: {:?} -> value: {:?}", key, value);
        }),
    );
    cache.add("123", "11");
    cache.add("23", "11");
    cache.add("45", "11");
    cache.get("23");
    cache.add("xjj", "11");
}

/// A cache of capacity 2 that records every eviction it reports.
fn recording_cache() -> (Cache<&'static str>, Rc<RefCell<Vec<(String, String)>>>) {
    let log: Rc<RefCell<Vec<(String, String)>>> = Rc::new(RefCell::new(Vec::new()));
    let seen = Rc::clone(&log);
    let cache = Cache::<&'static str>::new_with_evicted(
        2,
        Box::new(move |key: String, value: &'static str| {
            seen.borrow_mut().push((key, value.to_string()));
        }),
    );
    (cache, log)
}

#[test]
fn size_never_exceeds_capacity() {
    let mut cache = Cache::<&str>::new(3);
    let keys = ["a", "b", "a", "c", "d", "e", "b", "f", "f", "g"];
    for k in keys.iter() {
        cache.add(k, "v");
        assert!(cache.size() <= 3);
    }
    assert_eq!(cache.size(), 3);
}

#[test]
fn first_of_n_plus_one_keys_is_evicted() {
    let mut cache = Cache::<&str>::new(3);
    cache.add("k1", "v1");
    cache.add("k2", "v2");
    cache.add("k3", "v3");
    cache.add("k4", "v4");
    assert_eq!(cache.get("k1"), None);
    assert_eq!(cache.get("k2"), Some(&"v2"));
    assert_eq!(cache.get("k3"), Some(&"v3"));
    assert_eq!(cache.get("k4"), Some(&"v4"));
    assert_eq!(cache.size(), 3);
}

#[test]
fn get_refreshes_recency() {
    let mut cache = Cache::<&str>::new(2);
    cache.add("A", "1");
    cache.add("B", "2");
    assert_eq!(cache.get("A"), Some(&"1"));
    cache.add("C", "3");
    assert_eq!(cache.get("B"), None);
    assert_eq!(cache.get("A"), Some(&"1"));
    assert_eq!(cache.get("C"), Some(&"3"));
}

#[test]
fn re_adding_updates_without_growing() {
    let mut cache = Cache::<&str>::new(2);
    cache.add("A", "1");
    cache.add("B", "2");
    assert_eq!(cache.size(), 2);
    cache.add("A", "9");
    assert_eq!(cache.size(), 2);
    assert_eq!(cache.get("A"), Some(&"9"));
    assert_eq!(cache.get("B"), Some(&"2"));
}

#[test]
fn re_adding_refreshes_recency() {
    let (mut cache, log) = recording_cache();
    cache.add("A", "1");
    cache.add("B", "2");
    cache.add("A", "3");
    assert!(log.borrow().is_empty());
    cache.add("C", "4");
    assert_eq!(*log.borrow(), vec![("B".to_string(), "2".to_string())]);
    assert_eq!(cache.get("A"), Some(&"3"));
}

#[test]
fn callback_fires_once_with_evicted_pair() {
    let (mut cache, log) = recording_cache();
    cache.add("x", "10");
    cache.add("y", "20");
    assert!(log.borrow().is_empty());
    cache.add("z", "30");
    assert_eq!(*log.borrow(), vec![("x".to_string(), "10".to_string())]);
    assert_eq!(cache.size(), 2);
}

#[test]
fn callback_follows_access_order() {
    let (mut cache, log) = recording_cache();
    cache.add("123", "11");
    cache.add("23", "12");
    cache.add("45", "13");
    cache.get("23");
    cache.add("xjj", "14");
    assert_eq!(
        *log.borrow(),
        vec![
            ("123".to_string(), "11".to_string()),
            ("45".to_string(), "13".to_string())
        ]
    );
}

#[test]
fn repeated_get_promotes_once() {
    let (mut cache, log) = recording_cache();
    cache.add("A", "1");
    cache.add("B", "2");
    assert_eq!(cache.get("A"), Some(&"1"));
    assert_eq!(cache.get("A"), Some(&"1"));
    assert_eq!(cache.get("A"), Some(&"1"));
    cache.add("C", "3");
    assert_eq!(*log.borrow(), vec![("B".to_string(), "2".to_string())]);
}

#[test]
fn get_of_absent_key_changes_nothing() {
    let (mut cache, log) = recording_cache();
    cache.add("A", "1");
    cache.add("B", "2");
    assert_eq!(cache.get("missing"), None);
    assert_eq!(cache.size(), 2);
    cache.add("C", "3");
    assert_eq!(*log.borrow(), vec![("A".to_string(), "1".to_string())]);
}

#[test]
fn capacity_zero_evicts_every_add() {
    let log: Rc<RefCell<Vec<String>>> = Rc::new(RefCell::new(Vec::new()));
    let seen = Rc::clone(&log);
    let mut cache = Cache::<&str>::new_with_evicted(
        0,
        Box::new(move |key: String, _value: &str| {
            seen.borrow_mut().push(key);
        }),
    );
    cache.add("A", "1");
    assert_eq!(cache.size(), 0);
    assert_eq!(cache.get("A"), None);
    cache.add("B", "2");
    assert_eq!(*log.borrow(), vec!["A".to_string(), "B".to_string()]);
}

#[test]
fn empty_cache_has_size_zero() {
    let mut cache = Cache::<&str>::new(4);
    assert_eq!(cache.size(), 0);
    assert_eq!(cache.get(""), None);
}

#[test]
fn tracker_orders_by_recency() {
    let mut lru = LRU::new();
    assert_eq!(lru.remove_oldest(), None);
    lru.push("a".to_string());
    lru.push("b".to_string());
    lru.push("c".to_string());
    lru.move_to_front("a".to_string());
    lru.move_to_front("absent".to_string());
    assert_eq!(lru.remove_oldest(), Some("b".to_string()));
    assert_eq!(lru.remove_oldest(), Some("c".to_string()));
    assert_eq!(lru.remove_oldest(), Some("a".to_string()));
    assert_eq!(lru.remove_oldest(), None);
}
