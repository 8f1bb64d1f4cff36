use lasttree::store::Store;

#[test]
fn tags() {
    let mut store = Store::new();

    store.store("Foo");

    let tags: Vec<String> = vec!["A", "B", "C"].into_iter().map(|s| s.to_owned()).collect();

    store.store_tags("foo", &tags);
    assert_eq!(tags, store.get_tags_db("foo").unwrap());
}

#[test]
fn canonical_name_is_case_insensitive() {
    let mut store = Store::new();
    store.store("Loona");

    assert_eq!(store.canonical_name("loona"), Some("Loona".to_owned()));
    assert_eq!(store.canonical_name("LOONA"), Some("Loona".to_owned()));
    assert_eq!(store.canonical_name("Loona"), Some("Loona".to_owned()));
    assert_eq!(store.canonical_name("loena"), None);
}

#[test]
fn store_artist_first_writer_wins() {
    let mut store = Store::new();
    store.store("Loona");
    store.store("LOONA");

    // the first recorded spelling is permanent
    assert_eq!(store.canonical_name("loona"), Some("Loona".to_owned()));
}

#[test]
fn idempotent_edge_insert() {
    let mut store = Store::new();
    store.store("A");

    store.store_pair("A", "B", 90);
    store.store_pair("A", "B", 90);

    let pairs = store.get_artist_pairs("A").unwrap();
    assert_eq!(pairs.len(), 1);
    assert_eq!(pairs[0].parent, "A");
    assert_eq!(pairs[0].child, "B");
    assert_eq!(pairs[0].similarity, 90);
}

#[test]
fn edge_insert_never_overwrites() {
    let mut store = Store::new();
    store.store("A");

    store.store_pair("A", "B", 90);
    store.store_pair("A", "B", 40);

    let pairs = store.get_artist_pairs("A").unwrap();
    assert_eq!(pairs.len(), 1);
    assert_eq!(pairs[0].similarity, 90);
}

#[test]
fn self_loops_are_skipped() {
    let mut store = Store::new();
    store.store("A");

    store.store_pair("A", "A", 100);
    assert!(store.get_artist_pairs("A").is_none());
}

#[test]
fn pairs_sorted_by_similarity_descending() {
    let mut store = Store::new();
    store.store("A");
    store.store_pair("A", "Low", 71);
    store.store_pair("A", "High", 99);
    store.store_pair("A", "Mid", 85);
    store.store_pair("A", "MidToo", 85);

    let pairs = store.get_artist_pairs("A").unwrap();
    let children: Vec<&str> = pairs.iter().map(|p| p.child.as_str()).collect();
    // descending similarity, insertion order kept among equals
    assert_eq!(children, ["High", "Mid", "MidToo", "Low"]);
}

#[test]
fn missing_artist_vs_empty_pairs() {
    let mut store = Store::new();
    // unknown artist: no pairs and no canonical name
    assert!(store.get_artist_pairs("A").is_none());
    assert_eq!(store.canonical_name("A"), None);

    // known artist without pairs: still no pairs, but it resolves
    store.store("A");
    assert!(store.get_artist_pairs("A").is_none());
    assert_eq!(store.canonical_name("A"), Some("A".to_owned()));
}

#[test]
fn api_key_is_trimmed_and_first_wins() {
    let mut store = Store::new();
    assert_eq!(store.get_api_key(), None);

    store.store_api_key("  secret  ");
    assert_eq!(store.get_api_key(), Some("secret".to_owned()));

    // a later write while a key exists is a no-op
    store.store_api_key("other");
    assert_eq!(store.get_api_key(), Some("secret".to_owned()));

    store.delete_api_key();
    assert_eq!(store.get_api_key(), None);
    store.store_api_key("other");
    assert_eq!(store.get_api_key(), Some("other".to_owned()));
}

#[test]
fn listeners_round_trip() {
    let mut store = Store::new();
    store.store("Foo");
    assert_eq!(store.get_listeners_db("foo"), None);

    store.store_listeners("FOO", 123456);
    assert_eq!(store.get_listeners_db("foo"), Some(123456));

    // an unknown artist has no listeners row to update
    store.store_listeners("bar", 1);
    assert_eq!(store.get_listeners_db("bar"), None);
}
