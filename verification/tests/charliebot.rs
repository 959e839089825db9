use charliebot::{
    build_models, nicks_from_listing, normalize_nick, path_for_nick, route_inbound, select_from,
    select_reply, Chains, Entry, Model, ParseRes, Parser, RouteAction,
};

const GOOD: &str = "this is a perfectly normal length reply";

#[test]
fn normalize_strips_and_lowercases() {
    assert_eq!(normalize_nick(" @Bob> "), "bob");
    assert_eq!(normalize_nick("<Alice>"), "alice");
    assert_eq!(normalize_nick("carol"), "carol");
    assert_eq!(normalize_nick(""), "");
    assert_eq!(normalize_nick("  @@>>  "), "");
    assert_eq!(normalize_nick("--"), "--");
    assert_eq!(normalize_nick("-->"), "--");
}

#[test]
fn normalize_is_idempotent_on_samples() {
    for s in ["@ Bob", " <ALICE> ", "x@y", "", "@@", "MiXeD", "-->"] {
        let once = normalize_nick(s);
        let twice = normalize_nick(&once);
        assert_eq!(once, twice);
    }
}

#[test]
fn normalize_leaves_non_ascii_alone() {
    assert_eq!(normalize_nick("ÜBer"), "Über");
}

#[test]
fn from_line_accepts_tab_separated_fields() {
    let e = Entry::from_line("2024-01-01\t10:00:00\t<Alice>\thello").unwrap();
    assert_eq!(e.nick, "alice");
    assert_eq!(e.msg, "hello");
}

#[test]
fn from_line_parses_four_fields() {
    let e = Entry::from_line("2024-01-01 10:00:00 <Alice> hello there friend").unwrap();
    assert_eq!(e.date, "2024-01-01");
    assert_eq!(e.time, "10:00:00");
    assert_eq!(e.nick, "alice");
    assert_eq!(e.msg, "hello there friend");
}

#[test]
fn from_line_merges_whitespace_runs() {
    let e = Entry::from_line("a  b   c   d e").unwrap();
    assert_eq!(e.date, "a");
    assert_eq!(e.time, "b");
    assert_eq!(e.nick, "c");
    assert_eq!(e.msg, "d e");
}

#[test]
fn from_line_skips_short_lines() {
    assert!(Entry::from_line("").is_none());
    assert!(Entry::from_line("a").is_none());
    assert!(Entry::from_line("a b").is_none());
    assert!(Entry::from_line("a b c").is_none());
    assert!(Entry::from_line("a b c   ").is_none());
}

#[test]
fn from_line_skips_marker_lines() {
    assert!(Entry::from_line("2024-01-01 10:00:01 --> bob has joined").is_none());
    assert!(Entry::from_line("2024-01-01 10:00:02 <-- bob has left").is_none());
    assert!(Entry::from_line("2024-01-01 10:00:03 -- bob is away").is_none());
}

#[test]
fn parser_yields_skips_and_finishes() {
    let lines = vec![
        "2024-01-01 10:00:00 <Alice> hello there friend\n".to_string(),
        "2024-01-01 10:00:01 --> bob has joined\n".to_string(),
    ];
    let mut p = Parser::new(lines);
    match p.next_entry() {
        ParseRes::Yield(e) => {
            assert_eq!(e.nick, "alice");
            assert_eq!(e.msg, "hello there friend");
        }
        _ => panic!("expected a record"),
    }
    assert!(matches!(p.next_entry(), ParseRes::Skip));
    assert!(matches!(p.next_entry(), ParseRes::Done));
    assert!(matches!(p.next_entry(), ParseRes::Done));
}

#[test]
fn builder_builds_one_model_per_identity() {
    let lines = vec![
        format!("2024-01-01 10:00:00 <Alice> {}", GOOD),
        "2024-01-01 10:00:01 --> bob has joined".to_string(),
        "2024-01-01 10:00:02 <Bob> hi".to_string(),
        "2024-01-01 10:00:03 <Alice> hi again friend".to_string(),
    ];
    let mut p = Parser::new(lines);
    let models = build_models(&mut p);
    let mut nicks: Vec<String> = models.iter().map(|m| m.nick_str().clone()).collect();
    nicks.sort();
    assert_eq!(nicks, vec!["alice".to_string(), "bob".to_string()]);
}

#[test]
fn builder_on_empty_log() {
    let mut p = Parser::new(Vec::new());
    let models = build_models(&mut p);
    assert!(models.is_empty());
}

#[test]
fn reply_selection_over_candidates() {
    assert_eq!(select_from(&vec!["hi".to_string()]), "oh noes :(");
    assert_eq!(select_from(&Vec::new()), "oh noes :(");
    assert_eq!(select_from(&vec![GOOD.to_string()]), GOOD);
    let long = "x".repeat(100);
    assert_eq!(select_from(&vec![long.clone()]), "oh noes :(");
    assert_eq!(
        select_from(&vec!["hi".to_string(), GOOD.to_string(), "later".to_string()]),
        GOOD
    );
    let twenty = "y".repeat(20);
    assert_eq!(select_from(&vec![twenty.clone()]), twenty);
    let ninety_nine = "z".repeat(99);
    assert_eq!(select_from(&vec![ninety_nine.clone()]), ninety_nine);
}

#[test]
fn short_only_model_falls_back() {
    let mut m = Model::new("bob");
    m.feed("hi");
    assert_eq!(select_reply(&m), "oh noes :(");
}

#[test]
fn acceptable_candidate_is_returned() {
    let mut m = Model::new("bob");
    m.feed(GOOD);
    assert_eq!(select_reply(&m), GOOD);
}

#[test]
fn empty_model_falls_back() {
    let m = Model::new("bob");
    assert_eq!(select_reply(&m), "oh noes :(");
}

#[test]
fn model_round_trips_through_encoding() {
    let mut m = Model::new("bob");
    m.feed(GOOD);
    let bytes = m.encode();
    let m2 = Model::decode("bob", &bytes).unwrap();
    assert_eq!(select_reply(&m2), GOOD);
    assert_eq!(select_reply(&m), select_reply(&m2));
}

#[test]
fn decode_rejects_garbage() {
    assert!(Model::decode("bob", &[1, 2, 3]).is_none());
}

#[test]
fn decode_rejects_structurally_unsound_chains() {
    // A decodable chain with an empty state map and order 1: it lacks
    // the start state, so sampling from it would go wrong.
    let mut bytes = vec![0u8; 8];
    bytes.extend_from_slice(&[1, 0, 0, 0, 0, 0, 0, 0]);
    assert!(Model::decode("bob", &bytes).is_none());
    // The same map with order 0 is just as unsound.
    let zero_order = vec![0u8; 16];
    assert!(Model::decode("bob", &zero_order).is_none());
}

#[test]
fn decode_rejects_chains_that_cannot_stop() {
    // A decodable chain whose every path loops forever: the start state
    // draws "a", and "a" always draws "a" again, never an end marker.
    // Sampling from it would never return, so loading must refuse it.
    let states = vec![
        (
            vec![None::<String>],
            vec![(Some("a".to_string()), 1usize)],
        ),
        (
            vec![Some("a".to_string())],
            vec![(Some("a".to_string()), 1usize)],
        ),
    ];
    let bytes = bincode::serialize(&(states, 1usize)).unwrap();
    assert!(Model::decode("bob", &bytes).is_none());
}

#[test]
fn persistable_excludes_empty_identity() {
    assert!(!Model::new("").persistable());
    assert!(Model::new("bob").persistable());
}

#[test]
fn path_naming() {
    assert_eq!(path_for_nick("./data", "bob"), "./data/bob.bin");
}

#[test]
fn listing_names_persisted_identities() {
    let files = vec![
        "alice.bin".to_string(),
        "readme.txt".to_string(),
        "bob.bin".to_string(),
        ".bin".to_string(),
    ];
    assert_eq!(
        nicks_from_listing(&files),
        vec!["alice".to_string(), "bob".to_string()]
    );
}

#[test]
fn router_recognizes_commands() {
    match route_inbound("!charlie bob") {
        RouteAction::Query(nick) => assert_eq!(nick, "bob"),
        _ => panic!("expected a query"),
    }
    match route_inbound("!charlie  @Bob>  ") {
        RouteAction::Query(nick) => assert_eq!(nick, "bob"),
        _ => panic!("expected a query"),
    }
    assert!(matches!(route_inbound("hello there"), RouteAction::Ignore));
    assert!(matches!(route_inbound(""), RouteAction::Ignore));
    assert!(matches!(route_inbound("!charli"), RouteAction::Ignore));
}

#[test]
fn cache_hit_miss_and_ttl() {
    let mut c = Chains::with_path("./nowhere");
    assert!(c.find_nick("bob", 0).is_none());

    let mut m = Model::new("bob");
    m.feed(GOOD);
    let handle = c.insert_model(m, 0);
    assert_eq!(select_reply(&handle), GOOD);

    // A hit refreshes the stamp.
    assert!(c.find_nick("bob", 10).is_some());

    // Touched at 10; 25 - 10 <= 20, so the sweep keeps it.
    c.cleanup(25);
    assert!(c.contains("bob"));
    assert!(c.find_nick("bob", 25).is_some());

    // Untouched since 25; 46 - 25 > 20, so the sweep evicts it.
    c.cleanup(46);
    assert!(!c.contains("bob"));
    assert!(c.find_nick("bob", 46).is_none());
}

#[test]
fn cache_keeps_one_entry_per_identity() {
    let mut c = Chains::with_path("./nowhere");
    let mut m = Model::new("bob");
    m.feed(GOOD);
    c.insert_model(m, 0);
    assert!(c.contains("bob"));
    // Repeated lookups hand out the same model and never add entries.
    let a = c.find_nick("bob", 1).unwrap();
    let b = c.find_nick("bob", 2).unwrap();
    assert_eq!(select_reply(&a), select_reply(&b));
    assert!(c.contains("bob"));
    assert!(!c.contains("alice"));
}

#[test]
fn end_to_end_generate_then_serve() {
    // Build models from a log that only Bob speaks in.
    let lines = vec![format!("2024-01-01 10:00:00 <Bob> {}", GOOD)];
    let mut p = Parser::new(lines);
    let models = build_models(&mut p);
    assert_eq!(models.len(), 1);

    // Persist and reload through the binary encoding.
    let m = &models[0];
    assert!(m.persistable());
    assert_eq!(m.nick_str().as_str(), "bob");
    let bytes = m.encode();

    // Serve: an inbound command for bob finds the model and replies.
    let mut cache = Chains::with_path("./nowhere");
    match route_inbound("!charlie bob") {
        RouteAction::Query(nick) => {
            assert!(cache.find_nick(&nick, 0).is_none());
            let loaded = Model::decode(&nick, &bytes).unwrap();
            let handle = cache.insert_model(loaded, 0);
            let reply = select_reply(&handle);
            assert_eq!(reply, GOOD);
            // The model is now served from the cache.
            assert!(cache.find_nick(&nick, 1).is_some());
        }
        _ => panic!("expected a query"),
    }
}
