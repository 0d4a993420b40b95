use xchangefs::record_store::{setup_kademlia, RecordStore, RecordStoreConfig};

fn key(i: u32) -> Vec<u8> {
    i.to_be_bytes().to_vec()
}

#[test]
fn record_count_never_exceeds_limit() {
    let mut s = RecordStore::with_config(vec![1], RecordStoreConfig { max_records: 3, max_provided_keys: 3 });
    for i in 0..10 {
        s.put(key(i), vec![i as u8]);
        assert!(s.len() <= 3);
    }
    assert_eq!(s.len(), 3);
    // oldest first: keys 0..7 were evicted
    assert_eq!(s.get(&key(6)), None);
    assert_eq!(s.get(&key(7)), Some(vec![7]));
    assert_eq!(s.get(&key(9)), Some(vec![9]));
}

#[test]
fn overwrite_keeps_count_and_place() {
    let mut s = RecordStore::with_config(vec![1], RecordStoreConfig { max_records: 2, max_provided_keys: 2 });
    s.put(key(1), vec![1]);
    s.put(key(2), vec![2]);
    s.put(key(1), vec![10]);
    assert_eq!(s.len(), 2);
    assert_eq!(s.get(&key(1)), Some(vec![10]));
    // key 1 is still the oldest, so it leaves first
    s.put(key(3), vec![3]);
    assert_eq!(s.get(&key(1)), None);
    assert_eq!(s.get(&key(2)), Some(vec![2]));
}

#[test]
fn remove_record() {
    let mut s = setup_kademlia(vec![7]);
    s.put(key(1), vec![1]);
    s.remove(&key(1));
    assert_eq!(s.len(), 0);
    assert_eq!(s.get(&key(1)), None);
    s.remove(&key(2));
    assert_eq!(s.len(), 0);
    assert_eq!(s.local_peer_id(), &vec![7]);
}

#[test]
fn zero_limit_keeps_store_empty() {
    let mut s = RecordStore::with_config(vec![], RecordStoreConfig { max_records: 0, max_provided_keys: 0 });
    s.put(key(1), vec![1]);
    s.add_provider(key(1), vec![2]);
    assert_eq!(s.len(), 0);
    assert_eq!(s.provider_count(), 0);
}

#[test]
fn provider_limit_and_duplicates() {
    let mut s = RecordStore::with_config(vec![], RecordStoreConfig { max_records: 1, max_provided_keys: 2 });
    s.add_provider(key(1), vec![1]);
    s.add_provider(key(1), vec![1]);
    assert_eq!(s.provider_count(), 1);
    s.add_provider(key(1), vec![2]);
    s.add_provider(key(2), vec![1]);
    assert_eq!(s.provider_count(), 2);
    assert!(!s.is_provider(&key(1), &vec![1]));
    assert!(s.is_provider(&key(1), &vec![2]));
    assert!(s.is_provider(&key(2), &vec![1]));
    assert_eq!(s.len(), 0);
}

#[test]
fn default_limits() {
    let s = setup_kademlia(vec![]);
    assert_eq!(s.len(), 0);
    let c = RecordStoreConfig::default_limits();
    assert_eq!(c, RecordStoreConfig { max_records: 4096, max_provided_keys: 4096 });
}
