use phrase_fanout::bulk_search_tree::{BulkSearchTree, User};

fn create_user(id: u64, did: &str, endpoint: &str) -> User {
    User::new(id, Some(did.to_string()), endpoint.to_string(), b"aa").unwrap()
}

#[test]
fn test_add_and_find_user() {
    let mut tree = BulkSearchTree::new();
    let user1 = create_user(0, "did:example:123", "http://example.com");
    tree.add_item(b"hello", user1.id);
    tree.add_item(b"world", user1.id);
    let user2 = create_user(1, "did:example:456", "http://example.com");
    tree.add_item(b"ab", user2.id);

    let matches = tree.find_all_matches(b"hello world");
    assert_eq!(matches.len(), 1);
    assert_eq!(matches[0], user1.id);
}

#[test]
fn test_multiple_finds() {
    let mut tree = BulkSearchTree::new();
    let user1 = create_user(0, "did:example:123", "http://example.com");
    tree.add_item(b"hello", user1.id);
    tree.add_item(b"world", user1.id);
    let user2 = create_user(1, "did:example:456", "http://example.com");
    tree.add_item(b"hello", user2.id);

    let matches = tree.find_all_matches(b"hello world");
    assert_eq!(matches.len(), 2);
    assert!(matches.iter().any(|u| *u == user1.id));
    assert!(matches.iter().any(|u| *u == user2.id));
}

#[test]
fn test_intersecting_phrases() {
    let mut tree = BulkSearchTree::new();
    let user1 = create_user(0, "did:example:123", "http://example.com");
    tree.add_item(b"hello", user1.id);
    tree.add_item(b"world", user1.id);
    let user2 = create_user(1, "did:example:456", "http://example.com");
    tree.add_item(b"or", user2.id);

    let matches = tree.find_all_matches(b"hello world");
    assert_eq!(matches.len(), 2);
    assert!(matches.iter().any(|u| *u == user1.id));
    assert!(matches.iter().any(|u| *u == user2.id));
}

#[test]
fn test_remove_user() {
    let mut tree = BulkSearchTree::new();
    let user = create_user(0, "did:example:123", "http://example.com");

    tree.add_item(b"hello", user.id);
    assert!(tree.remove_item(b"hello", user.id));

    let matches = tree.find_all_matches(b"hello");
    assert!(matches.is_empty());
}

#[test]
fn split_inside_label() {
    // "helicopter" first, then "hello": the edge must split at the shared
    // prefix "hel".
    let mut tree = BulkSearchTree::new();
    tree.add_item(b"helicopter", 1);
    tree.add_item(b"hello", 2);

    let matches = tree.find_all_matches(b"hello helicopter");
    assert_eq!(matches.len(), 2);
    assert!(matches.iter().any(|u| *u == 1));
    assert!(matches.iter().any(|u| *u == 2));

    // A junction exists at the shared prefix: removal navigates to an exact
    // node at "hel" (and, for an id never added, changes nothing).
    assert!(tree.remove_item(b"hel", 999));
    let matches = tree.find_all_matches(b"hello helicopter");
    assert_eq!(matches.len(), 2);
}

#[test]
fn split_on_divergence() {
    // "abc" then "abd": the labels share the prefix "ab" and then diverge,
    // which must produce a two-child junction at "ab".
    let mut tree = BulkSearchTree::new();
    tree.add_item(b"abc", 1);
    tree.add_item(b"abd", 2);

    assert_eq!(tree.find_all_matches(b"abc"), vec![1]);
    assert_eq!(tree.find_all_matches(b"abd"), vec![2]);
    assert!(tree.find_all_matches(b"ab").is_empty());
    assert!(tree.remove_item(b"ab", 999));
    assert_eq!(tree.find_all_matches(b"abc"), vec![1]);
    assert_eq!(tree.find_all_matches(b"abd"), vec![2]);
}

#[test]
fn empty_phrase_rejected() {
    let mut tree = BulkSearchTree::new();
    tree.add_item(b"hello", 7);
    assert!(!tree.add_item(b"", 7));
    assert!(!tree.remove_item(b"", 7));
    assert_eq!(tree.find_all_matches(b"hello"), vec![7]);
}

#[test]
fn add_is_idempotent() {
    let mut tree = BulkSearchTree::new();
    assert!(tree.add_item(b"hello", 7));
    assert!(!tree.add_item(b"hello", 7));
    assert_eq!(tree.find_all_matches(b"hello"), vec![7]);
}

#[test]
fn single_byte_phrase() {
    // A phrase of length one lives directly on a root branch.
    let mut tree = BulkSearchTree::new();
    tree.add_item(b"a", 3);
    assert_eq!(tree.find_all_matches(b"bca"), vec![3]);
    assert!(tree.find_all_matches(b"bc").is_empty());
    assert!(tree.remove_item(b"a", 3));
    assert!(tree.find_all_matches(b"bca").is_empty());
}

#[test]
fn remove_missing_path_returns_false() {
    let mut tree = BulkSearchTree::new();
    tree.add_item(b"hello", 7);
    assert!(!tree.remove_item(b"help", 7));
    assert_eq!(tree.find_all_matches(b"hello"), vec![7]);
}

#[test]
fn match_is_deduplicated() {
    // Two phrases of one subscriber both occur: reported once.
    let mut tree = BulkSearchTree::new();
    tree.add_item(b"hello", 7);
    tree.add_item(b"world", 7);
    let matches = tree.find_all_matches(b"hello world");
    assert_eq!(matches, vec![7]);
}

#[test]
fn user_new_decodes_key() {
    let user = User::new(5, None, "http://example.com".to_string(), b"00ff10").unwrap();
    assert_eq!(user.id, 5);
    assert_eq!(user.private_key, vec![0x00, 0xff, 0x10]);
    assert_eq!(user.user_downtime_started, 0);
    assert!(user.phrases.is_empty());
    assert!(User::new(6, None, "http://example.com".to_string(), b"abc").is_err());
}

#[test]
fn independent_subscribers_union() {
    // Two subscribers with disjoint phrase sets: the shared tree answers
    // exactly like the union of the single-subscriber trees.
    let mut shared = BulkSearchTree::new();
    shared.add_item(b"foo", 1);
    shared.add_item(b"quux", 1);
    shared.add_item(b"bar", 2);

    let mut only1 = BulkSearchTree::new();
    only1.add_item(b"foo", 1);
    only1.add_item(b"quux", 1);
    let mut only2 = BulkSearchTree::new();
    only2.add_item(b"bar", 2);

    for text in [&b"foo and bar"[..], b"barbar", b"quu", b"", b"xquuxx"] {
        let mut combined = only1.find_all_matches(text);
        combined.extend(only2.find_all_matches(text));
        let mut shared_result = shared.find_all_matches(text);
        combined.sort();
        shared_result.sort();
        assert_eq!(shared_result, combined);
    }
}

#[test]
fn split_preserves_earlier_phrases() {
    // Inserting "hello" splits the "helicopter" edge; everything registered
    // before the split still matches.
    let mut tree = BulkSearchTree::new();
    tree.add_item(b"helicopter", 1);
    tree.add_item(b"cop", 2);
    assert_eq!(tree.find_all_matches(b"a helicopter!"), vec![1, 2]);

    tree.add_item(b"hello", 3);
    let mut matches = tree.find_all_matches(b"a helicopter!");
    matches.sort();
    assert_eq!(matches, vec![1, 2]);
    assert_eq!(tree.find_all_matches(b"hello"), vec![3]);
}
