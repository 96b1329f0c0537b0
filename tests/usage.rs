use hyperfind::usage::{record_usage, UsageEntry, UsageMap};
use std::time::{SystemTime, UNIX_EPOCH};

fn now() -> u64 {
    SystemTime::now().duration_since(UNIX_EPOCH).unwrap().as_secs()
}

#[test]
fn recording_twice_counts_two_launches() {
    let mut usage = UsageMap::new();
    let key = "app.x".to_string();
    let before = now();
    record_usage(&key, &mut usage);
    let after = now();
    let first = usage.get(&key).unwrap();
    assert_eq!(first.count, 1);
    assert!(before <= first.last_used && first.last_used <= after);
    record_usage(&key, &mut usage);
    let second = usage.get(&key).unwrap();
    assert_eq!(second.count, 2);
    assert!(second.last_used >= first.last_used);
    assert_eq!(usage.len(), 1);
}

#[test]
fn record_at_sets_timestamp_and_keeps_other_records() {
    let mut usage = UsageMap::new();
    usage.insert("a".to_string(), UsageEntry { count: 4, last_used: 9 });
    usage.record_at(&"b".to_string(), 77);
    usage.record_at(&"a".to_string(), 80);
    assert_eq!(usage.get(&"a".to_string()), Some(UsageEntry { count: 5, last_used: 80 }));
    assert_eq!(usage.get(&"b".to_string()), Some(UsageEntry { count: 1, last_used: 77 }));
    assert_eq!(usage.get(&"c".to_string()), None);
    assert_eq!(usage.len(), 2);
    assert_eq!(usage.records()[0].key, "a");
}

#[test]
fn count_saturates_instead_of_wrapping() {
    let mut usage = UsageMap::new();
    usage.insert("a".to_string(), UsageEntry { count: u64::MAX, last_used: 1 });
    usage.record_at(&"a".to_string(), 2);
    assert_eq!(usage.get(&"a".to_string()), Some(UsageEntry { count: u64::MAX, last_used: 2 }));
}

#[test]
fn insert_replaces_existing_record() {
    let mut usage = UsageMap::new();
    usage.insert("a".to_string(), UsageEntry { count: 1, last_used: 1 });
    usage.insert("a".to_string(), UsageEntry { count: 3, last_used: 4 });
    assert_eq!(usage.len(), 1);
    assert_eq!(usage.get(&"a".to_string()), Some(UsageEntry { count: 3, last_used: 4 }));
}
