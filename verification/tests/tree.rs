use lasttree::error::LastfmError;
use lasttree::store::Store;
use lasttree::tree::ArtistTree;
use lasttree::tree::TreeOutcome;

/// A canned Last.fm similar-artists payload.
fn payload(canonical: &str, children: &[(&str, &str)]) -> String {
    let artists: Vec<String> = children
        .iter()
        .map(|(name, score)| format!(r#"{{"name":"{}","match":"{}"}}"#, name, score))
        .collect();
    format!(
        r#"{{"similarartists":{{"artist":[{}],"@attr":{{"artist":"{}"}}}}}}"#,
        artists.join(","),
        canonical
    )
}

/// Drive a build against canned payloads; returns the tree and how many
/// fetches (network round-trips) it needed.
fn run_build(
    tree: ArtistTree,
    store: &mut Store,
    payloads: &[(&str, String)],
) -> (ArtistTree, usize) {
    let mut fetches: usize = 0;
    let mut builder = match tree.build_tree(store).unwrap() {
        TreeOutcome::Complete(t) => return (t, 0),
        TreeOutcome::Pending(b) => b,
    };
    loop {
        let artist = builder.pending_artist().unwrap();
        let canned = payloads
            .iter()
            .find(|(name, _)| *name == artist)
            .unwrap_or_else(|| panic!("no canned payload for {artist}"));
        fetches += 1;
        builder.supply(store, &canned.1).unwrap();
        if builder.advance(store).unwrap() {
            return (builder.finish(), fetches);
        }
    }
}

fn loona_payloads() -> Vec<(&'static str, String)> {
    vec![
        (
            "loona",
            payload(
                "Loona",
                &[
                    ("LOOΠΔ 1/3", "1"),
                    ("LOONA/yyxy", "0.95"),
                    ("LOOΠΔ / ODD EYE CIRCLE", "0.86"),
                ],
            ),
        ),
        ("LOOΠΔ 1/3", payload("LOOΠΔ 1/3", &[])),
        ("LOONA/yyxy", payload("LOONA/yyxy", &[])),
        ("LOOΠΔ / ODD EYE CIRCLE", payload("LOOΠΔ / ODD EYE CIRCLE", &[])),
    ]
}

#[test]
fn node_order() {
    let mut store = Store::new();
    store.store_api_key("key");

    let (tree, _) = run_build(ArtistTree::new("loona"), &mut store, &loona_payloads());

    let obtained: Vec<&str> = tree.nodes().iter().map(|s| s.as_str()).collect();
    // the canonical root first, then similar artists in descending similarity
    assert_eq!(
        obtained,
        ["Loona", "LOOΠΔ 1/3", "LOONA/yyxy", "LOOΠΔ / ODD EYE CIRCLE"]
    );
    assert_eq!(tree.root(), "Loona");
}

#[test]
fn cache_avoids_network() {
    let mut store = Store::new();
    store.store_api_key("key");

    let (t1, fetches1) = run_build(ArtistTree::new("loona"), &mut store, &loona_payloads());
    // root plus its three children, each resolved over the network once
    assert_eq!(fetches1, 4);

    // the second build is served entirely from the store: zero fetches
    let second = ArtistTree::new("loona").build_tree(&store).unwrap();
    let t2 = match second {
        TreeOutcome::Complete(t) => t,
        TreeOutcome::Pending(_) => panic!("second build must not reach the network"),
    };
    assert_eq!(t1.nodes(), t2.nodes());
    assert_eq!(t1.root(), t2.root());
}

#[test]
fn insertion_order_determinism() {
    let mut store1 = Store::new();
    store1.store_api_key("key");
    let mut store2 = Store::new();
    store2.store_api_key("key");

    // two independent builds over the same canned responses
    let (t1, _) = run_build(ArtistTree::new("loona"), &mut store1, &loona_payloads());
    let (t2, _) = run_build(ArtistTree::new("loona"), &mut store2, &loona_payloads());

    let n1: Vec<&str> = t1.nodes().iter().map(|s| s.as_str()).collect();
    let n2: Vec<&str> = t2.nodes().iter().map(|s| s.as_str()).collect();
    assert_eq!(n1, n2);
}

#[test]
fn threshold_filtering() {
    let mut store = Store::new();
    store.store_api_key("key");

    let payloads = vec![
        ("root", payload("Root", &[("Kept", "0.70"), ("Dropped", "0.69")])),
        ("Kept", payload("Kept", &[])),
    ];
    let (tree, _) = run_build(ArtistTree::new("root"), &mut store, &payloads);

    let labels: Vec<&str> = tree.nodes().iter().map(|s| s.as_str()).collect();
    assert_eq!(labels, ["Root", "Kept"]);
    for e in tree.edges() {
        assert!(e.weight >= tree.threshold());
    }
}

#[test]
fn dedup() {
    let mut store = Store::new();
    store.store_api_key("key");

    let payloads = vec![
        ("loona", payload("Loona", &[("A", "1"), ("B", "0.9")])),
        ("A", payload("A", &[("B", "0.95"), ("C", "0.8")])),
        ("B", payload("B", &[("A", "0.9"), ("Loona", "0.9")])),
    ];
    let (tree, _) = run_build(ArtistTree::new("loona"), &mut store, &payloads);

    let labels: Vec<&str> = tree.nodes().iter().map(|s| s.as_str()).collect();
    assert_eq!(labels, ["Loona", "A", "B", "C"]);
    // no artist name appears more than once as a node label
    for (i, a) in labels.iter().enumerate() {
        for (j, b) in labels.iter().enumerate() {
            if i != j {
                assert_ne!(a, b);
            }
        }
    }
    // one incoming edge per node after the root
    assert_eq!(tree.edges().len(), labels.len() - 1);
}

#[test]
fn similarity_fold_law() {
    // a two-hop path with weights 100 and 50 scores 50
    let mut store = Store::new();
    store.store_api_key("key");
    let payloads = vec![
        ("root", payload("R", &[("A", "1")])),
        ("A", payload("A", &[("B", "0.5")])),
    ];
    let (tree, _) = run_build(
        ArtistTree::new("root").with_threshold(50),
        &mut store,
        &payloads,
    );
    assert_eq!(tree.get_child_similarity("B"), 50);
    assert_eq!(tree.get_child_similarity("A"), 100);
    assert_eq!(tree.get_child_similarity("R"), 100);

    // with weights 80 and 50 the truncating fold gives 40
    let mut store2 = Store::new();
    store2.store_api_key("key");
    let payloads2 = vec![
        ("root", payload("R", &[("A", "0.8")])),
        ("A", payload("A", &[("B", "0.5")])),
    ];
    let (tree2, _) = run_build(
        ArtistTree::new("root").with_threshold(50),
        &mut store2,
        &payloads2,
    );
    assert_eq!(tree2.get_child_similarity("B"), 40);
    assert_eq!(tree2.get_child_similarity("A"), 80);
}

#[test]
fn child_similarity() {
    let mut store = Store::new();
    store.store_api_key("key");

    let payloads = vec![
        ("metallica", payload("Metallica", &[("Slayer", "0.74")])),
        ("Slayer", payload("Slayer", &[("Annihilator", "0.70")])),
    ];
    let (tree, _) = run_build(ArtistTree::new("metallica"), &mut store, &payloads);

    let sim = tree.get_child_similarity("Annihilator");
    assert!((50..=55).contains(&sim));
}

#[test]
fn root_canonicalization() {
    let mut store = Store::new();
    store.store_api_key("key");

    let payloads = vec![("loona 1/3", payload("LOOΠΔ 1/3", &[]))];
    let (tree, fetches) = run_build(ArtistTree::new("loona 1/3"), &mut store, &payloads);

    assert_eq!(tree.root(), "LOOΠΔ 1/3");
    assert_eq!(tree.nodes()[0], "LOOΠΔ 1/3");
    // the exact canonical string is recorded in the store
    assert_eq!(
        store.canonical_name("LOOΠΔ 1/3"),
        Some("LOOΠΔ 1/3".to_owned())
    );
    assert_eq!(fetches, 1);

    // a rebuild of the canonical spelling is a pure cache hit, and a
    // rebuild of the variant spelling reaches the same canonical record
    match ArtistTree::new("LOOΠΔ 1/3").build_tree(&store).unwrap() {
        TreeOutcome::Complete(t) => assert_eq!(t.root(), "LOOΠΔ 1/3"),
        TreeOutcome::Pending(_) => panic!("canonical spelling must be cached"),
    }
    let (tree2, _) = run_build(ArtistTree::new("loona 1/3"), &mut store, &payloads);
    assert_eq!(tree2.root(), "LOOΠΔ 1/3");
    assert_eq!(tree2.nodes(), tree.nodes());
}

#[test]
fn no_key_error() {
    let store = Store::new();
    let result = ArtistTree::new("loona").build_tree(&store);
    match result {
        Err(LastfmError::NoApiKey) => {}
        _ => panic!("a fresh store without a key must fail with NoApiKey"),
    }
}

#[test]
fn artist_without_similars_is_root_only() {
    let mut store = Store::new();
    store.store_api_key("key");

    let payloads = vec![("shygirl", payload("ShyGirl", &[]))];
    let (tree, _) = run_build(ArtistTree::new("shygirl"), &mut store, &payloads);

    let labels: Vec<&str> = tree.nodes().iter().map(|s| s.as_str()).collect();
    assert_eq!(labels, ["ShyGirl"]);
    assert!(tree.edges().is_empty());
}

#[test]
fn depth_limits_expansion() {
    let mut store = Store::new();
    store.store_api_key("key");

    // a chain a -> b -> c -> d; depth 1 keeps only the first hop
    let payloads = vec![
        ("a", payload("A", &[("B", "0.9")])),
        ("B", payload("B", &[("C", "0.9")])),
        ("C", payload("C", &[("D", "0.9")])),
    ];
    let (tree, _) = run_build(
        ArtistTree::new("a").with_depth(1),
        &mut store,
        &payloads,
    );
    let labels: Vec<&str> = tree.nodes().iter().map(|s| s.as_str()).collect();
    assert_eq!(labels, ["A", "B"]);

    // depth 2 reaches the second hop but not the third
    let mut store2 = Store::new();
    store2.store_api_key("key");
    let (tree2, _) = run_build(
        ArtistTree::new("a").with_depth(2),
        &mut store2,
        &payloads,
    );
    let labels2: Vec<&str> = tree2.nodes().iter().map(|s| s.as_str()).collect();
    assert_eq!(labels2, ["A", "B", "C"]);
}

#[test]
fn inconsistent_payload_is_a_parse_error() {
    let mut store = Store::new();
    store.store_api_key("key");

    // the payload for a frontier child answers about a different artist
    let payloads = vec![("x", payload("X", &[("Y", "0.9")]))];
    let mut builder = match ArtistTree::new("x").build_tree(&store).unwrap() {
        TreeOutcome::Pending(b) => b,
        TreeOutcome::Complete(_) => panic!("fresh store cannot complete"),
    };
    builder.supply(&mut store, &payloads[0].1).unwrap();
    assert!(builder.advance(&store).unwrap() == false);
    assert_eq!(builder.pending_artist(), Some("Y".to_owned()));
    // answering the query for Y with a payload about Z must not loop forever
    let wrong = payload("Z", &[]);
    assert_eq!(builder.supply(&mut store, &wrong), Err(LastfmError::ParseError));
}

#[test]
fn supply_parsed_drives_a_build() {
    let mut store = Store::new();
    store.store_api_key("key");

    let payloads = loona_payloads();
    let mut builder = match ArtistTree::new("loona").build_tree(&store).unwrap() {
        TreeOutcome::Pending(b) => b,
        TreeOutcome::Complete(_) => panic!("fresh store cannot complete"),
    };
    let tree = loop {
        let artist = builder.pending_artist().unwrap();
        let canned = payloads.iter().find(|(name, _)| *name == artist).unwrap();
        let parsed = lasttree::lastfm::parse_similar_artists(&canned.1).unwrap();
        builder.supply_parsed(&mut store, &parsed).unwrap();
        if builder.advance(&store).unwrap() {
            break builder.finish();
        }
    };
    let obtained: Vec<&str> = tree.nodes().iter().map(|s| s.as_str()).collect();
    assert_eq!(
        obtained,
        ["Loona", "LOOΠΔ 1/3", "LOONA/yyxy", "LOOΠΔ / ODD EYE CIRCLE"]
    );
}
