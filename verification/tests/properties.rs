use lfu_rs::CacheNode;
use lfu_rs::FrequencyList;
use lfu_rs::LFUCache;

#[test]
fn dump_of_empty_cache() {
    let cache: LFUCache = LFUCache::new(4);
    assert_eq!(cache.to_string(), "<empty>");
    assert_eq!(cache.len(), 0);
}

#[test]
fn get_of_missing_key_is_none() {
    let mut cache: LFUCache = LFUCache::new(3);
    cache.insert("a".to_string(), "1".to_string());
    assert_eq!(cache.get(&"b".to_string()), None);
    // the miss promoted nothing
    assert_eq!(cache.to_string(), "Count 1: 1\n");
}

#[test]
fn insert_of_existing_key_returns_previous_value() {
    let mut cache: LFUCache = LFUCache::new(3);
    assert_eq!(cache.insert("a".to_string(), "1".to_string()), None);
    assert_eq!(
        cache.insert("a".to_string(), "2".to_string()),
        Some("1".to_string())
    );
    assert_eq!(cache.get(&"a".to_string()), Some(&"2".to_string()));
    assert_eq!(cache.len(), 1);
}

#[test]
fn remove_is_idempotent() {
    let mut cache: LFUCache = LFUCache::new(3);
    cache.insert("a".to_string(), "1".to_string());
    cache.insert("b".to_string(), "2".to_string());

    assert_eq!(cache.remove(&"a".to_string()), Some("1".to_string()));
    let dump_after_first = cache.to_string();
    let len_after_first = cache.len();

    assert_eq!(cache.remove(&"a".to_string()), None);
    assert_eq!(cache.to_string(), dump_after_first);
    assert_eq!(cache.len(), len_after_first);
}

#[test]
fn insert_then_get_promotes_by_one() {
    let mut cache: LFUCache = LFUCache::new(3);
    cache.insert("a".to_string(), "1".to_string());
    assert_eq!(cache.to_string(), "Count 1: 1\n");
    cache.get(&"a".to_string());
    assert_eq!(cache.to_string(), "Count 2: 1\n");
    cache.get(&"a".to_string());
    assert_eq!(cache.to_string(), "Count 3: 1\n");
}

#[test]
fn overfilling_by_m_evicts_exactly_m() {
    let mut cache: LFUCache = LFUCache::new(3);
    for i in 0..8 {
        cache.insert(format!("key{}", i), format!("val{}", i));
    }
    // five admissions beyond capacity left exactly three entries
    assert_eq!(cache.len(), 3);
    // each victim was the newest entry of the lowest-frequency bucket
    assert_eq!(cache.to_string(), "Count 1: val7 val1 val0\n");
}

#[test]
fn eviction_prefers_lower_frequency() {
    let mut cache: LFUCache = LFUCache::new(2);
    cache.insert("a".to_string(), "1".to_string());
    cache.insert("b".to_string(), "2".to_string());
    cache.get(&"a".to_string());
    cache.get(&"b".to_string());
    cache.get(&"b".to_string());
    // both keys sit above frequency one; a holds the minimum
    cache.insert("c".to_string(), "3".to_string());
    assert_eq!(cache.get(&"a".to_string()), None);
    assert_eq!(cache.len(), 2);
}

#[test]
fn tie_break_is_newest_at_lowest_frequency() {
    let mut cache: LFUCache = LFUCache::new(2);
    cache.insert("a".to_string(), "1".to_string());
    cache.insert("b".to_string(), "2".to_string());
    // both at frequency one: the newer entry b is the victim
    cache.insert("c".to_string(), "3".to_string());
    assert_eq!(cache.get(&"b".to_string()), None);
    assert_eq!(cache.get(&"a".to_string()), Some(&"1".to_string()));
}

#[test]
fn len_tracks_distinct_live_keys() {
    let mut cache: LFUCache = LFUCache::new(10);
    assert_eq!(cache.len(), 0);
    cache.insert("a".to_string(), "1".to_string());
    assert_eq!(cache.len(), 1);
    cache.insert("a".to_string(), "9".to_string());
    assert_eq!(cache.len(), 1);
    cache.insert("b".to_string(), "2".to_string());
    assert_eq!(cache.len(), 2);
    cache.get(&"b".to_string());
    assert_eq!(cache.len(), 2);
    cache.remove(&"a".to_string());
    assert_eq!(cache.len(), 1);
}

#[test]
fn updated_value_survives_later_operations() {
    let mut cache: LFUCache = LFUCache::new(4);
    cache.insert("a".to_string(), "1".to_string());
    cache.insert("b".to_string(), "2".to_string());
    cache.insert("a".to_string(), "3".to_string());
    cache.get(&"b".to_string());
    cache.remove(&"b".to_string());
    assert_eq!(cache.get(&"a".to_string()), Some(&"3".to_string()));
}

#[test]
fn frequency_list_push_and_pop() {
    let mut list = FrequencyList::new(1);
    list.push(CacheNode {
        key: "k1".to_string(),
        value: "node1".to_string(),
    });
    list.push(CacheNode {
        key: "k2".to_string(),
        value: "node2".to_string(),
    });
    assert_eq!(list.to_string(), "Count 1: node2 node1");

    let head = list.pop_head().unwrap();
    assert_eq!(head.value, "node2");
    assert_eq!(list.to_string(), "Count 1: node1");
    let head = list.pop_head().unwrap();
    assert_eq!(head.value, "node1");
    assert!(list.pop_head().is_none());
}

#[test]
fn node_reads_its_value_through_the_cache() {
    let mut cache: LFUCache = LFUCache::new(4);
    cache.insert("a".to_string(), "1".to_string());
    cache.insert("b".to_string(), "2".to_string());
    let node = CacheNode {
        key: "a".to_string(),
        value: String::new(),
    };
    assert_eq!(node.get_associated_data(&cache), &"1".to_string());
}

#[test]
fn dump_renders_multi_digit_frequencies() {
    let mut cache: LFUCache = LFUCache::new(2);
    cache.insert("a".to_string(), "1".to_string());
    for _ in 0..11 {
        cache.get(&"a".to_string());
    }
    assert_eq!(cache.to_string(), "Count 12: 1\n");
}
