use fraken_x::report::{build_match_record, error_detail, JsonOutputHandler, MatchRecord, MetaValue};

fn meta(pairs: Vec<(&str, MetaValue)>) -> Vec<(String, MetaValue)> {
    pairs.into_iter().map(|(k, v)| (k.to_string(), v)).collect()
}

const HELLO_SHA256: &str = "2cf24dba5fb0a30e26e83b2ac5b9e29e1b161e5c1fa7425e73043362938b9824";

#[test]
fn severity_integer_sets_the_score() {
    let md = meta(vec![("severity", MetaValue::Integer(75))]);
    let r = build_match_record("/p", "h", "rule", &md);
    assert_eq!(r.score, 75);
}

#[test]
fn context_yes_forces_zero_regardless_of_severity() {
    let md = meta(vec![
        ("context", MetaValue::Text("yes".to_string())),
        ("severity", MetaValue::Integer(75)),
    ]);
    let r = build_match_record("/p", "h", "rule", &md);
    assert_eq!(r.score, 0);
    // The marker wins in either order.
    let md = meta(vec![
        ("severity", MetaValue::Integer(75)),
        ("context", MetaValue::Text("true".to_string())),
    ]);
    let r = build_match_record("/p", "h", "rule", &md);
    assert_eq!(r.score, 0);
}

#[test]
fn no_score_metadata_keeps_the_baseline() {
    let md = meta(vec![("author", MetaValue::Text("someone".to_string()))]);
    let r = build_match_record("/p", "h", "rule", &md);
    assert_eq!(r.score, 50);
}

#[test]
fn textual_score_parses_and_falls_back_on_garbage() {
    let md = meta(vec![("score", MetaValue::Text("80".to_string()))]);
    assert_eq!(build_match_record("/p", "h", "r", &md).score, 80);
    let md = meta(vec![("score", MetaValue::Text("+12".to_string()))]);
    assert_eq!(build_match_record("/p", "h", "r", &md).score, 12);
    let md = meta(vec![("score", MetaValue::Text("-5".to_string()))]);
    assert_eq!(build_match_record("/p", "h", "r", &md).score, -5);
    let md = meta(vec![("severity", MetaValue::Text("abc".to_string()))]);
    assert_eq!(build_match_record("/p", "h", "r", &md).score, 50);
    // An unparsable later value resets an earlier good one, as reading in
    // order demands.
    let md = meta(vec![
        ("severity", MetaValue::Integer(90)),
        ("score", MetaValue::Text("oops".to_string())),
    ]);
    assert_eq!(build_match_record("/p", "h", "r", &md).score, 50);
}

#[test]
fn description_and_reference_come_from_their_keys() {
    let md = meta(vec![
        ("description", MetaValue::Text("finds things".to_string())),
        ("reference", MetaValue::Text("https://example.test".to_string())),
    ]);
    let r = build_match_record("/p", "h", "rule", &md);
    assert_eq!(r.description, "finds things");
    assert_eq!(r.reference, "https://example.test");
    // Any "desc"-prefixed key supplies the description; any "report"-prefixed
    // key supplies the reference.
    let md = meta(vec![
        ("desc", MetaValue::Text("short".to_string())),
        ("report_url", MetaValue::Text("ref2".to_string())),
    ]);
    let r = build_match_record("/p", "h", "rule", &md);
    assert_eq!(r.description, "short");
    assert_eq!(r.reference, "ref2");
    // A non-textual value under those keys is ignored.
    let md = meta(vec![("description", MetaValue::Integer(3))]);
    let r = build_match_record("/p", "h", "rule", &md);
    assert_eq!(r.description, "");
}

#[test]
fn filtering_is_inclusive_at_the_threshold() {
    let mut handler = JsonOutputHandler::new();
    let content = b"hello".to_vec();
    let rules = vec![
        (
            "zero_scored".to_string(),
            meta(vec![("context", MetaValue::Text("1".to_string()))]),
        ),
        (
            "at_threshold".to_string(),
            meta(vec![("severity", MetaValue::Integer(40))]),
        ),
        (
            "below".to_string(),
            meta(vec![("severity", MetaValue::Integer(39))]),
        ),
        ("baseline".to_string(), meta(vec![])),
    ];
    handler.on_file_scanned("/tmp/file", &content, &rules, 40);
    let records = handler.on_done();
    let names: Vec<&str> = records.iter().map(|r| r.signature.as_str()).collect();
    assert_eq!(names, vec!["at_threshold", "baseline"]);
    assert_eq!(records[0].score, 40);
    assert_eq!(records[1].score, 50);
}

#[test]
fn records_carry_the_content_hash_and_path() {
    let mut handler = JsonOutputHandler::new();
    let content = b"hello".to_vec();
    let rules = vec![("rule_a".to_string(), meta(vec![]))];
    handler.on_file_scanned("/data/sample.bin", &content, &rules, 0);
    let records = handler.on_done();
    assert_eq!(records.len(), 1);
    assert_eq!(records[0].image_path, "/data/sample.bin");
    assert_eq!(records[0].sha256, HELLO_SHA256);
    assert_eq!(records[0].signature, "rule_a");
}

#[test]
fn drain_happens_exactly_once() {
    let mut handler = JsonOutputHandler::new();
    let content = b"x".to_vec();
    let rules = vec![("r".to_string(), meta(vec![]))];
    handler.on_file_scanned("/f", &content, &rules, 0);
    let first = handler.on_done();
    assert_eq!(first.len(), 1);
    let second = handler.on_done();
    assert!(second.is_empty());
}

#[test]
fn empty_run_drains_an_empty_report() {
    let mut handler = JsonOutputHandler::new();
    let records = handler.on_done();
    assert!(records.is_empty());
}

fn key_of(r: &MatchRecord) -> (String, String, String, i64) {
    (
        r.image_path.clone(),
        r.sha256.clone(),
        r.signature.clone(),
        r.score,
    )
}

#[test]
fn report_content_does_not_depend_on_file_order() {
    let file_a = (b"alpha".to_vec(), "/a");
    let file_b = (b"beta".to_vec(), "/b");
    let rules_a = vec![("ra".to_string(), meta(vec![("severity", MetaValue::Integer(60))]))];
    let rules_b = vec![("rb".to_string(), meta(vec![]))];

    let mut h1 = JsonOutputHandler::new();
    h1.on_file_scanned(file_a.1, &file_a.0, &rules_a, 40);
    h1.on_file_scanned(file_b.1, &file_b.0, &rules_b, 40);
    let mut first: Vec<_> = h1.on_done().iter().map(key_of).collect();

    let mut h2 = JsonOutputHandler::new();
    h2.on_file_scanned(file_b.1, &file_b.0, &rules_b, 40);
    h2.on_file_scanned(file_a.1, &file_a.0, &rules_a, 40);
    let mut second: Vec<_> = h2.on_done().iter().map(key_of).collect();

    first.sort();
    second.sort();
    assert_eq!(first, second);
}

#[test]
fn a_failed_file_leaves_other_records_intact() {
    // The handler is only ever called for files that were read and
    // evaluated; a file whose evaluation failed simply never reaches it and
    // contributes nothing.
    let good = b"good".to_vec();
    let rules = vec![("r1".to_string(), meta(vec![("severity", MetaValue::Integer(70))]))];

    let mut with_failure = JsonOutputHandler::new();
    with_failure.on_file_scanned("/ok1", &good, &rules, 40);
    // the unreadable file is skipped here
    with_failure.on_file_scanned("/ok2", &good, &rules, 40);
    let got: Vec<_> = with_failure.on_done().iter().map(key_of).collect();

    let mut without = JsonOutputHandler::new();
    without.on_file_scanned("/ok1", &good, &rules, 40);
    without.on_file_scanned("/ok2", &good, &rules, 40);
    let expected: Vec<_> = without.on_done().iter().map(key_of).collect();

    assert_eq!(got, expected);
}

#[test]
fn running_twice_on_unchanged_input_repeats_the_report() {
    let content = b"stable".to_vec();
    let rules = vec![
        ("r1".to_string(), meta(vec![("severity", MetaValue::Integer(55))])),
        ("r2".to_string(), meta(vec![("context", MetaValue::Text("yes".to_string()))])),
    ];
    let mut h1 = JsonOutputHandler::new();
    h1.on_file_scanned("/same", &content, &rules, 40);
    let first: Vec<_> = h1.on_done().iter().map(key_of).collect();
    let mut h2 = JsonOutputHandler::new();
    h2.on_file_scanned("/same", &content, &rules, 40);
    let second: Vec<_> = h2.on_done().iter().map(key_of).collect();
    assert_eq!(first, second);
}

#[test]
fn error_detail_shows_the_root_cause_only_when_it_differs() {
    assert_eq!(error_detail("open failed", "open failed"), "open failed");
    assert_eq!(
        error_detail("open failed", "permission denied"),
        "open failed: permission denied"
    );
}
