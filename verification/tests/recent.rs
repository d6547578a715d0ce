//! What was written a short while ago.

use dynostore::recent::{RecentWriteCache, MAX_ENTRY_BYTES};
use object_store::path::Path;

fn path(name: &str) -> String {
    Path::from(format!(
        "clusters/tansu/topics/t/partitions/0000000000/records/{name}"
    ))
    .to_string()
}

#[test]
fn disabled_budget_caches_nothing() {
    let mut cache = RecentWriteCache::new(0);
    cache.insert(path("a"), b"aaaa".to_vec());
    assert_eq!(0, cache.len());
    assert_eq!(None, cache.get(&path("a")));
}

#[test]
fn hit_returns_the_inserted_bytes() {
    let mut cache = RecentWriteCache::new(1024);
    cache.insert(path("a"), b"aaaa".to_vec());
    assert_eq!(Some(b"aaaa".to_vec()), cache.get(&path("a")));
    assert_eq!(None, cache.get(&path("b")));
}

#[test]
fn evicts_least_recently_written_first() {
    // To read `a` does not protect it.
    let mut cache = RecentWriteCache::new(8);
    cache.insert(path("a"), b"aaaa".to_vec());
    cache.insert(path("b"), b"bbbb".to_vec());
    assert!(cache.get(&path("a")).is_some());

    cache.insert(path("c"), b"cccc".to_vec());
    assert!(!cache.contains(&path("a")));
    assert!(cache.contains(&path("b")));
    assert!(cache.contains(&path("c")));
    assert_eq!(8, cache.resident_bytes());
}

#[test]
fn oversized_entries_are_skipped_not_evicting() {
    let mut cache = RecentWriteCache::new(8);
    cache.insert(path("a"), b"aaaa".to_vec());
    cache.insert(path("big"), b"0123456789".to_vec());
    assert!(cache.contains(&path("a")));
    assert!(!cache.contains(&path("big")));
    assert_eq!(4, cache.resident_bytes());
}

#[test]
fn replacement_keeps_accounting_exact() {
    let mut cache = RecentWriteCache::new(64);
    cache.insert(path("a"), b"aaaa".to_vec());
    cache.insert(path("a"), b"aaaaaaaa".to_vec());
    assert_eq!(1, cache.len());
    assert_eq!(8, cache.resident_bytes());
    // That it was written twice must not spoil the count.
    cache.insert(path("b"), vec![b'0'; 60]);
    assert_eq!(60, cache.resident_bytes());
    assert!(!cache.contains(&path("a")));
}

#[test]
fn purge_prefix_drops_only_matching_entries() {
    let mut cache = RecentWriteCache::new(1024);
    cache.insert(path("a"), b"aaaa".to_vec());
    let other = Path::from("clusters/tansu/topics/u/partitions/0000000000/records/x").to_string();
    cache.insert(other.clone(), b"xxxx".to_vec());

    cache.purge_prefix(Path::from("clusters/tansu/topics/t/").as_ref());
    assert!(!cache.contains(&path("a")));
    assert!(cache.contains(&other));
    assert_eq!(4, cache.resident_bytes());
}

/// A prefix ends where a part ends.
#[test]
fn a_longer_name_is_not_under_a_shorter_one() {
    let mut cache = RecentWriteCache::new(1024);
    cache.insert("topics/tt/x".to_string(), b"x".to_vec());
    cache.insert("topics/t/x".to_string(), b"x".to_vec());
    cache.purge_prefix("topics/t");
    assert!(cache.contains("topics/tt/x"));
    assert!(!cache.contains("topics/t/x"));
}

/// Nothing above a size is held, however large the budget.
#[test]
fn a_large_object_is_not_held() {
    let mut cache = RecentWriteCache::new(4 * MAX_ENTRY_BYTES);
    cache.insert("large".to_string(), vec![0; MAX_ENTRY_BYTES + 1]);
    assert!(!cache.contains("large"));
    cache.insert("full".to_string(), vec![0; MAX_ENTRY_BYTES]);
    assert!(cache.contains("full"));
}

/// To be written again protects an entry: what was written longest ago goes first.
#[test]
fn what_was_written_again_outlives_what_was_not() {
    let mut cache = RecentWriteCache::new(8);
    cache.insert(path("a"), b"aaaa".to_vec());
    cache.insert(path("b"), b"bbbb".to_vec());
    cache.insert(path("a"), b"AAAA".to_vec());
    assert_eq!(8, cache.resident_bytes());

    cache.insert(path("c"), b"cccc".to_vec());
    assert_eq!(Some(b"AAAA".to_vec()), cache.get(&path("a")));
    assert!(!cache.contains(&path("b")));
    assert_eq!(Some(b"cccc".to_vec()), cache.get(&path("c")));
    assert_eq!(8, cache.resident_bytes());

    // What was purged does not take its place in the order with it.
    cache.purge_prefix(&path("a"));
    cache.insert(path("d"), b"dddd".to_vec());
    assert!(cache.contains(&path("c")));
    assert_eq!(8, cache.resident_bytes());
}
