use phrase_fanout::didmap::DidMap;

#[test]
fn insert_get_remove() {
    let mut map = DidMap::new();
    assert_eq!(map.get(b"did:example:1"), None);
    map.insert(b"did:example:1", 10);
    map.insert(b"did:example:2", 20);
    assert_eq!(map.get(b"did:example:1"), Some(10));
    assert_eq!(map.get(b"did:example:2"), Some(20));
    assert!(map.remove(b"did:example:1"));
    assert_eq!(map.get(b"did:example:1"), None);
    assert_eq!(map.get(b"did:example:2"), Some(20));
    assert!(!map.remove(b"did:example:1"));
}

#[test]
fn insert_is_last_writer_wins() {
    let mut map = DidMap::new();
    map.insert(b"did:example:1", 10);
    map.insert(b"did:example:1", 11);
    assert_eq!(map.get(b"did:example:1"), Some(11));
    assert!(map.remove(b"did:example:1"));
    assert_eq!(map.get(b"did:example:1"), None);
}
