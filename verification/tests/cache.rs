use mysql_crypt::InstanceCache;
use mysql_crypt::SqlCrypt;

#[test]
fn cache_hit_equals_fresh() {
    let mut cache = InstanceCache::new();
    let mut first = cache.get_or_build(b"monty");
    let mut second = cache.get_or_build(b"monty");
    let mut fresh = SqlCrypt::from_key(b"monty");
    let expected = fresh.encode(b"abcdef".to_vec());
    assert_eq!(first.encode(b"abcdef".to_vec()), expected);
    assert_eq!(second.encode(b"abcdef".to_vec()), expected);
}

#[test]
fn cache_sessions_independent() {
    let mut cache = InstanceCache::new();
    let mut busy = cache.get_or_build(b"monty");
    // drive one session far ahead
    let _ = busy.encode(vec![b'x'; 1000]);
    // a session fetched afterwards must start fresh
    let mut fresh = cache.get_or_build(b"monty");
    assert_eq!(fresh.encode(b"abcdef".to_vec()), b"\x99\xf7\x51\xcd\xf0\x8b".to_vec());
    // and the busy one keeps its own advanced state
    assert_ne!(busy.encode(b"abcdef".to_vec()), b"\x99\xf7\x51\xcd\xf0\x8b".to_vec());
}

#[test]
fn cache_len_bounded_and_evicts() {
    let mut cache = InstanceCache::new();
    assert_eq!(cache.len(), 0);
    for i in 0..20u8 {
        let key = vec![b'k', i];
        let _ = cache.get_or_build(&key);
    }
    assert_eq!(cache.len(), 16);
    // an evicted key is rebuilt, and still behaves like a fresh session
    let mut rebuilt = cache.get_or_build(&[b'k', 0]);
    let mut fresh = SqlCrypt::from_key(&[b'k', 0]);
    let data = b"abcdef".to_vec();
    assert_eq!(rebuilt.encode(data.clone()), fresh.encode(data));
    assert_eq!(cache.len(), 16);
}

#[test]
fn cache_hit_does_not_grow() {
    let mut cache = InstanceCache::new();
    let _ = cache.get_or_build(b"monty");
    let _ = cache.get_or_build(b"monty");
    let _ = cache.get_or_build(b"monty");
    assert_eq!(cache.len(), 1);
}
