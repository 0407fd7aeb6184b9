use homophones::config::validate;
use homophones::fetch::{fetch_step, homophones_from_body, lookup_url, trim_word, FetchEvent, FetchStep};
use homophones::output::render_pair_lines;
use homophones::pairs::{dedupe_pairs, make_pairs_of_homophones, singularize};
use homophones::vocab::sort_and_dedup;

fn s(text: &str) -> String {
    text.to_string()
}

#[test]
fn vocab_is_sorted_and_deduplicated() {
    let mut lines = vec![s("banana"), s("apple"), s("banana"), s(""), s("apple")];
    let vocab = sort_and_dedup(&mut lines);
    assert_eq!(vocab, vec![s(""), s("apple"), s("banana")]);
    assert_eq!(lines, vocab);
}

#[test]
fn vocab_loading_is_idempotent() {
    let mut lines = vec![s("pear"), s("fig"), s("pear"), s("date")];
    let once = sort_and_dedup(&mut lines);
    let mut again = once.clone();
    let twice = sort_and_dedup(&mut again);
    assert_eq!(twice, once);
}

#[test]
fn vocab_of_empty_input_is_empty() {
    let mut lines: Vec<String> = vec![];
    assert_eq!(sort_and_dedup(&mut lines), Vec::<String>::new());
}

#[test]
fn pair_builder_emits_pairs_in_order() {
    let lookups = vec![
        (s("sun"), Some(vec![s("son")])),
        (s("there"), Some(vec![s("their"), s("they're")])),
    ];
    let pairs = make_pairs_of_homophones(&lookups);
    assert_eq!(
        pairs,
        vec![
            (s("sun"), s("son")),
            (s("there"), s("their")),
            (s("there"), s("they're")),
        ]
    );
}

#[test]
fn pair_builder_drops_words_without_homophones() {
    let lookups = vec![
        (s("orange"), None),
        (s("sun"), Some(vec![s("son")])),
    ];
    let pairs = make_pairs_of_homophones(&lookups);
    assert_eq!(pairs, vec![(s("sun"), s("son"))]);
}

#[test]
fn empty_vocabulary_yields_empty_outputs() {
    let lookups: Vec<(String, Option<Vec<String>>)> = vec![];
    let pairs = make_pairs_of_homophones(&lookups);
    assert_eq!(pairs, Vec::<(String, String)>::new());
    assert_eq!(singularize(&pairs), Vec::<String>::new());
    assert_eq!(render_pair_lines(&pairs), Vec::<String>::new());
}

#[test]
fn dedupe_pairs_keeps_first_occurrences_in_order() {
    let pairs = vec![
        (s("sun"), s("son")),
        (s("there"), s("their")),
        (s("sun"), s("son")),
    ];
    assert_eq!(
        dedupe_pairs(&pairs),
        vec![(s("sun"), s("son")), (s("there"), s("their"))]
    );
}

#[test]
fn dedupe_pairs_leaves_distinct_pairs_alone() {
    let pairs = vec![(s("sun"), s("son")), (s("son"), s("sun"))];
    assert_eq!(dedupe_pairs(&pairs), pairs);
}

#[test]
fn singularize_flattens_sorts_and_dedups() {
    let pairs = vec![
        (s("sun"), s("son")),
        (s("there"), s("their")),
        (s("there"), s("they're")),
    ];
    let singles = singularize(&pairs);
    assert_eq!(
        singles,
        vec![s("son"), s("sun"), s("their"), s("there"), s("they're")]
    );
}

#[test]
fn singularize_keeps_one_copy_of_shared_words() {
    let pairs = vec![(s("ate"), s("eight")), (s("eight"), s("ate"))];
    assert_eq!(singularize(&pairs), vec![s("ate"), s("eight")]);
}

#[test]
fn pair_lines_join_with_a_comma() {
    let pairs = vec![
        (s("sun"), s("son")),
        (s("there"), s("their")),
        (s("there"), s("they're")),
    ];
    let lines = render_pair_lines(&pairs);
    assert_eq!(lines, vec![s("sun,son"), s("there,their"), s("there,they're")]);
}

#[test]
fn extraction_with_no_matching_links_is_absent() {
    let body = "<div><span class=\"homophones\">Homophones: <span>none listed</span></span></div>";
    assert_eq!(homophones_from_body(body), None);
}

#[test]
fn extraction_collects_trimmed_texts_in_order() {
    let body = "<span class=\"homophones\"><span><a> son </a><a>sonne</a></span></span>";
    assert_eq!(homophones_from_body(body), Some(vec![s("son"), s("sonne")]));
}

#[test]
fn extraction_of_empty_body_is_absent() {
    assert_eq!(homophones_from_body(""), None);
}

#[test]
fn trim_removes_surrounding_whitespace_only() {
    assert_eq!(trim_word("  son\t\n"), s("son"));
    assert_eq!(trim_word("no change"), s("no change"));
    assert_eq!(trim_word("   "), s(""));
    assert_eq!(trim_word(""), s(""));
}

#[test]
fn lookup_target_appends_the_word_verbatim() {
    assert_eq!(lookup_url("sun"), s("https://en.wiktionary.org/wiki/sun"));
    assert_eq!(lookup_url("a b"), s("https://en.wiktionary.org/wiki/a b"));
}

#[test]
fn first_transport_failure_is_retried_after_backoff() {
    let step = fetch_step(0, FetchEvent::TransportError);
    assert!(matches!(step, FetchStep::Retry { backoff_seconds: 20 }));
}

#[test]
fn second_transport_failure_is_fatal() {
    let step = fetch_step(1, FetchEvent::TransportError);
    assert!(matches!(step, FetchStep::Fatal));
}

#[test]
fn failure_status_means_no_homophones() {
    let step = fetch_step(
        0,
        FetchEvent::Response {
            success: false,
            body: s("<span class=\"homophones\"><span><a>son</a></span></span>"),
        },
    );
    match step {
        FetchStep::Done { homophones } => assert_eq!(homophones, None),
        _ => panic!("a response concludes the lookup"),
    }
}

#[test]
fn successful_response_yields_extracted_homophones() {
    let step = fetch_step(
        0,
        FetchEvent::Response {
            success: true,
            body: s("<span class=\"homophones\"><span><a>son</a></span></span>"),
        },
    );
    match step {
        FetchStep::Done { homophones } => assert_eq!(homophones, Some(vec![s("son")])),
        _ => panic!("a response concludes the lookup"),
    }
}

#[test]
fn validate_requires_some_output() {
    assert!(!validate(None, None, false));
    assert!(!validate(None, None, true));
}

#[test]
fn validate_rejects_existing_output_without_force() {
    assert!(!validate(Some(true), None, false));
    assert!(!validate(None, Some(true), false));
    assert!(!validate(Some(false), Some(true), false));
}

#[test]
fn validate_accepts_force_or_fresh_outputs() {
    assert!(validate(Some(true), Some(true), true));
    assert!(validate(Some(false), None, false));
    assert!(validate(Some(false), Some(false), false));
}
