use lasttree::error::LastfmError;
use lasttree::lastfm::parse_listener_count;
use lasttree::lastfm::parse_similar_artists;
use lasttree::lastfm::quantize_similarity;
use lasttree::lastfm::Resolved;
use lasttree::store::Store;

/// A canned Last.fm similar-artists payload.
fn payload(canonical: &str, children: &[(&str, &str)]) -> String {
    let artists: Vec<String> = children
        .iter()
        .map(|(name, score)| format!(r#"{{"name":"{}","match":{}}}"#, name, score))
        .collect();
    format!(
        r#"{{"similarartists":{{"artist":[{}],"@attr":{{"artist":"{}"}}}}}}"#,
        artists.join(","),
        canonical
    )
}

#[test]
fn quantize_plain_decimals() {
    for (text, expected) in [
        ("0", Some(0)),
        ("1", Some(100)),
        ("1.000", Some(100)),
        ("0.5", Some(50)),
        ("0.861914", Some(86)),
        ("0.865", Some(87)),
        ("0.004999", Some(0)),
        ("0.005", Some(1)),
        (".5", Some(50)),
        ("7.", None),
        ("1.5", None),
        ("2", None),
        ("", None),
        (".", None),
        ("-0.5", None),
        ("0.5.6", None),
        ("8.6e-1", None),
        ("abc", None),
    ] {
        assert_eq!(quantize_similarity(&text.as_bytes().to_vec()), expected, "{}", text);
    }
}

#[test]
fn parse_reads_string_and_number_scores() {
    // the service may encode a score as a JSON string or a JSON number
    let p = payload("Loona", &[("A", r#""0.95""#), ("B", "0.85"), ("C", "1")]);
    let parsed = parse_similar_artists(&p).unwrap();
    assert_eq!(parsed.canonical_name, "Loona");
    let sims: Vec<(String, i64)> =
        parsed.similar_artists.iter().map(|s| (s.name.clone(), s.similarity)).collect();
    assert_eq!(
        sims,
        [("A".to_owned(), 95), ("B".to_owned(), 85), ("C".to_owned(), 100)]
    );
}

#[test]
fn parse_rejects_malformed_payloads() {
    assert_eq!(parse_similar_artists("not json").unwrap_err(), LastfmError::ParseError);
    assert_eq!(parse_similar_artists("{}").unwrap_err(), LastfmError::ParseError);
    assert_eq!(
        parse_similar_artists(r#"{"similarartists":{"artist":[]}}"#).unwrap_err(),
        LastfmError::ParseError
    );
    // a score outside [0, 1] is out of range
    let p = payload("X", &[("A", "1.5")]);
    assert_eq!(parse_similar_artists(&p).unwrap_err(), LastfmError::ParseError);
}

#[test]
fn artists_no_key() {
    let store = Store::new();
    assert!(store.get_api_key().is_none());

    match store.get_similar_artists("loona") {
        Err(LastfmError::NoApiKey) => {}
        other => panic!("expected NoApiKey, got {:?}", other.is_ok()),
    }
}

#[test]
fn lastfm_no_key() {
    let mut store = Store::new();
    store.store_api_key("key");
    store.delete_api_key();

    match store.get_similar_artists("loona") {
        Err(LastfmError::NoApiKey) => {}
        other => panic!("expected NoApiKey, got {:?}", other.is_ok()),
    }
}

#[test]
fn lastfm_cached_result() {
    let mut store = Store::new();
    store.store_api_key("key");

    let p = payload("Loona", &[("LOO\u{3a0}\u{394} 1/3", r#""1""#), ("LOONA/yyxy", r#""0.95""#)]);
    let parsed = parse_similar_artists(&p).unwrap();
    let first = store.ingest_similar(&parsed);

    // both later lookups are served entirely from the store
    let second = match store.get_similar_artists("loona").unwrap() {
        Resolved::Cached(m) => m,
        Resolved::NeedsFetch(_) => panic!("cached artist must not reach the network"),
    };
    let third = match store.get_similar_artists("LOONA").unwrap() {
        Resolved::Cached(m) => m,
        Resolved::NeedsFetch(_) => panic!("cached artist must not reach the network"),
    };
    assert_eq!(first.entries(), second.entries());
    assert_eq!(second.entries(), third.entries());
}

#[test]
fn ingest_skips_the_canonical_artist_itself() {
    let mut store = Store::new();
    let p = payload("Loona", &[("Loona", "1"), ("LOONA/yyxy", r#""0.95""#)]);
    let parsed = parse_similar_artists(&p).unwrap();
    let map = store.ingest_similar(&parsed);

    // the parent never appears as a key in its own map
    assert_eq!(map.len(), 1);
    assert_eq!(map.get("Loona"), None);
    assert_eq!(map.get("LOONA/yyxy"), Some(95));
}

#[test]
fn map_keeps_first_position_and_last_value() {
    let mut store = Store::new();
    let p = payload("P", &[("X", "0.9"), ("Y", "0.8"), ("X", "0.5")]);
    let parsed = parse_similar_artists(&p).unwrap();
    let map = store.ingest_similar(&parsed);

    // insertion-ordered map: X keeps its position, takes the later value
    assert_eq!(map.entries(), &vec![("X".to_owned(), 50), ("Y".to_owned(), 80)]);

    // while the store keeps the first similarity it saw
    let pairs = store.get_artist_pairs("P").unwrap();
    let rows: Vec<(&str, i64)> = pairs.iter().map(|r| (r.child.as_str(), r.similarity)).collect();
    assert_eq!(rows, [("X", 90), ("Y", 80)]);
}

#[test]
fn cached_map_is_similarity_descending() {
    let mut store = Store::new();
    let p = payload("P", &[("Mid", "0.8"), ("Top", "0.99"), ("Low", "0.71")]);
    let parsed = parse_similar_artists(&p).unwrap();
    store.ingest_similar(&parsed);

    let cached = store.get_cached_similar_artists("p").unwrap();
    assert_eq!(
        cached.entries(),
        &vec![("Top".to_owned(), 99), ("Mid".to_owned(), 80), ("Low".to_owned(), 71)]
    );
}

#[test]
fn error_messages() {
    assert_eq!(LastfmError::NoApiKey.message(), "No API key");
    assert_eq!(LastfmError::ParseError.message(), "Not found");
    assert_eq!(LastfmError::DatabaseError.message(), "Database error");
    assert_eq!(LastfmError::NetworkError.message(), "Network error");
}

#[test]
fn known_artist_without_pairs_is_a_cache_hit() {
    let mut store = Store::new();
    store.store("ShyGirl");

    // a resolved artist with no cached pairs answers with an empty map,
    // not with a fetch
    let map = store.get_cached_similar_artists("shygirl").unwrap();
    assert_eq!(map.len(), 0);
    assert!(store.get_cached_similar_artists("unknown").is_none());
}

/// A canned Last.fm artist-info payload.
fn info_payload(listeners: &str, tags: &[&str]) -> String {
    let tag_objects: Vec<String> =
        tags.iter().map(|t| format!(r#"{{"name":"{}","url":""}}"#, t)).collect();
    format!(
        r#"{{"artist":{{"name":"x","stats":{{"listeners":{},"playcount":"1"}},"tags":{{"tag":[{}]}}}}}}"#,
        listeners,
        tag_objects.join(",")
    )
}

#[test]
fn get_tags() {
    let payload = info_payload(
        r#""857109""#,
        &["pop", "female vocalists", "dance", "k-pop", "spanish"],
    );
    assert_eq!(
        lasttree::lastfm::parse_artist_tags(&payload).unwrap(),
        ["pop", "female vocalists", "dance", "k-pop", "spanish"]
    );
}

#[test]
fn listeners_parse_and_store() {
    // the count may come as a digit string or a plain number
    let mut store = Store::new();
    store.store("Loona");
    let n = lasttree::lastfm::parse_listeners(&info_payload(r#""857109""#, &[])).unwrap();
    assert_eq!(n, 857109);
    store.store_listeners("loona", n);
    assert_eq!(store.get_listeners_db("LOONA"), Some(857109));

    assert_eq!(lasttree::lastfm::parse_listeners(&info_payload("857109", &[])), Ok(857109));
    assert_eq!(
        lasttree::lastfm::parse_listeners(&info_payload(r#""many""#, &[])),
        Err(LastfmError::ParseError)
    );
    assert_eq!(lasttree::lastfm::parse_listeners("{}"), Err(LastfmError::ParseError));
}

#[test]
fn listener_count_grammar() {
    for (text, expected) in [
        ("0", Some(0)),
        ("857109", Some(857109)),
        ("4294967295", Some(u32::MAX)),
        ("4294967296", None),
        ("00042", Some(42)),
        ("", None),
        ("1.5", None),
        ("-3", None),
        ("+3", None),
    ] {
        assert_eq!(parse_listener_count(&text.as_bytes().to_vec()), expected, "{}", text);
    }
}
