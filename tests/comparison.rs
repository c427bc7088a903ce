use rpc_versus::broadcast::{default_count, Broadcaster, LineAction};
use rpc_versus::chain_id::parse_chain_id;
use rpc_versus::envelope::{Envelope, RpcCall};
use rpc_versus::outcome::{classify, FailureKind, Outcome, RawReply};
use rpc_versus::pool::{parse_endpoints, select_providers, PoolWarning};
use rpc_versus::report::{compare, ComparisonReport, MismatchDetail, ProviderResults};
use rpc_versus::results::{RecordError, ResultSet};

fn call(method: &str, params: Option<&str>) -> RpcCall {
    RpcCall { method: method.to_string(), params: params.map(|p| p.to_string()) }
}

fn single(method: &str) -> Envelope {
    Envelope::Single(call(method, Some("[]")))
}

fn ok(body: &str) -> Outcome {
    Outcome::Success(body.to_string())
}

/// A provider that answered request `i` (a call of `method_i`) with `body(i)`.
fn provider(label: &str, n: u64, body: impl Fn(u64) -> Outcome) -> ProviderResults {
    let mut results = ResultSet::new();
    for i in 0..n {
        let r = results.record(i, single(&format!("method_{}", i)), vec![body(i)], 5);
        assert_eq!(r, Ok(0));
    }
    ProviderResults { label: label.to_string(), results }
}

fn key(texts: &[&str]) -> Vec<String> {
    texts.iter().map(|t| t.to_string()).collect()
}

fn run(providers: &Vec<ProviderResults>) -> ComparisonReport {
    match compare(providers) {
        Ok(r) => r,
        Err(e) => panic!("unexpected inconsistency at {}", e.seq),
    }
}

#[test]
fn identical_providers_are_fully_consistent() {
    let providers = vec![
        provider("http://a", 4, |_| ok("\"0x1\"")),
        provider("http://b", 4, |_| ok("\"0x1\"")),
        provider("http://c", 4, |_| ok("\"0x1\"")),
    ];
    let report = run(&providers);
    assert_eq!(report.mismatches.len(), 0);
    assert!(report.fully_consistent());
    assert_eq!(report.successes.len(), 1);
    assert_eq!(report.successes[&key(&["\"0x1\""])], 12);
    assert_eq!(report.errors.len(), 0);
}

#[test]
fn one_divergent_body_gives_one_mismatch() {
    let providers = vec![
        provider("http://a", 5, |i| ok(&format!("{}", i))),
        provider("http://b", 5, |i| ok(&format!("{}", i))),
        provider("http://c", 5, |i| if i == 3 { ok("other") } else { ok(&format!("{}", i)) }),
    ];
    let report = run(&providers);
    assert_eq!(report.mismatches.len(), 1);
    let m = &report.mismatches[0];
    assert_eq!(m.seq, 3);
    assert_eq!(m.provider, "http://c");
    match &m.detail {
        MismatchDetail::Differs { baseline, compared } => {
            assert_eq!(baseline, &vec![ok("3")]);
            assert_eq!(compared, &vec![ok("other")]);
        }
        MismatchDetail::Missing => panic!("expected a value mismatch"),
    }
    assert!(!report.fully_consistent());
    assert_eq!(report.successes[&key(&["3"])], 2);
    assert_eq!(report.successes[&key(&["other"])], 1);
}

#[test]
fn missing_entry_is_its_own_mismatch() {
    let providers = vec![provider("http://a", 3, |_| ok("1")), provider("http://b", 2, |_| ok("1"))];
    let report = run(&providers);
    assert_eq!(report.mismatches.len(), 1);
    assert_eq!(report.mismatches[0].seq, 2);
    assert!(matches!(report.mismatches[0].detail, MismatchDetail::Missing));
}

#[test]
fn failures_compare_by_message() {
    let fail = |m: &str| Outcome::Failure(FailureKind::Rpc, m.to_string());
    let same = vec![
        provider("http://a", 1, |_| Outcome::Failure(FailureKind::Rpc, "bad".to_string())),
        provider("http://b", 1, |_| Outcome::Failure(FailureKind::Status(500), "bad".to_string())),
    ];
    let report = run(&same);
    assert_eq!(report.mismatches.len(), 0);
    assert!(!report.fully_consistent());
    assert_eq!(report.errors[&key(&["bad"])], 2);

    let differ = vec![provider("http://a", 1, move |_| fail("bad")), provider("http://b", 1, |_| ok("1"))];
    let report = run(&differ);
    assert_eq!(report.mismatches.len(), 1);
    assert_eq!(report.errors.len(), 1);
    assert_eq!(report.successes.len(), 1);

    let texts = vec![
        provider("http://a", 1, |_| Outcome::Failure(FailureKind::Rpc, "x".to_string())),
        provider("http://b", 1, |_| Outcome::Failure(FailureKind::Rpc, "y".to_string())),
    ];
    assert_eq!(run(&texts).mismatches.len(), 1);
}

#[test]
fn same_id_for_different_requests_is_an_inconsistency() {
    let a = provider("http://a", 2, |_| ok("1"));
    let mut results = ResultSet::new();
    assert_eq!(results.record(0, single("method_0"), vec![ok("1")], 1), Ok(0));
    assert_eq!(results.record(1, single("something_else"), vec![ok("1")], 1), Ok(0));
    let providers = vec![a, ProviderResults { label: "http://b".to_string(), results }];
    match compare(&providers) {
        Ok(_) => panic!("expected an inconsistency"),
        Err(e) => {
            assert_eq!(e.seq, 1);
            assert_eq!(e.provider, "http://b");
        }
    }
}

#[test]
fn no_providers_gives_an_empty_report() {
    let report = run(&vec![]);
    assert_eq!(report.mismatches.len(), 0);
    assert_eq!(report.successes.len(), 0);
    assert!(!report.fully_consistent());
}

#[test]
fn repeated_comparison_gives_the_same_report() {
    let make = || {
        vec![
            provider("http://a", 4, |i| ok(&format!("{}", i % 2))),
            provider("http://b", 4, |i| if i == 1 { Outcome::Failure(FailureKind::Transport, "down".to_string()) } else { ok(&format!("{}", i % 2)) }),
        ]
    };
    let first = run(&make());
    let second = run(&make());
    assert_eq!(first.successes, second.successes);
    assert_eq!(first.errors, second.errors);
    assert_eq!(first.mismatches.len(), second.mismatches.len());
    for (x, y) in first.mismatches.iter().zip(second.mismatches.iter()) {
        assert_eq!(x.seq, y.seq);
        assert_eq!(x.provider, y.provider);
    }
    assert_eq!(first.mismatches.len(), 1);
    assert_eq!(first.mismatches[0].seq, 1);
}

#[test]
fn batch_is_recorded_and_compared_as_one_unit() {
    let batch = || Envelope::Batch(vec![call("a", None), call("b", Some("[1]")), call("c", Some("{}"))]);
    let mut base = ResultSet::new();
    assert_eq!(base.record(0, batch(), vec![ok("1"), ok("2"), ok("3")], 7), Ok(0));
    let mut other = ResultSet::new();
    assert_eq!(other.record(0, batch(), vec![ok("1"), ok("2"), ok("4")], 9), Ok(0));
    assert_eq!(base.len(), 1);
    assert_eq!(base.entries()[0].seq, 0);
    assert_eq!(base.entries()[0].outcomes, vec![ok("1"), ok("2"), ok("3")]);
    let providers = vec![
        ProviderResults { label: "http://a".to_string(), results: base },
        ProviderResults { label: "http://b".to_string(), results: other },
    ];
    let report = run(&providers);
    assert_eq!(report.mismatches.len(), 1);
    match &report.mismatches[0].detail {
        MismatchDetail::Differs { baseline, compared } => {
            assert_eq!(baseline.len(), 3);
            assert_eq!(compared, &vec![ok("1"), ok("2"), ok("4")]);
        }
        MismatchDetail::Missing => panic!("expected a value mismatch"),
    }
    assert_eq!(report.successes.len(), 2);
    assert_eq!(report.successes[&key(&["1", "2", "3"])], 1);
    assert_eq!(report.successes[&key(&["1", "2", "4"])], 1);
    assert_eq!(report.errors.len(), 0);
}

#[test]
fn batch_counts_once_per_provider() {
    let batch = || Envelope::Batch(vec![call("a", None), call("b", None), call("c", None)]);
    let mut providers = Vec::new();
    for label in ["http://a", "http://b", "http://c"] {
        let mut rs = ResultSet::new();
        assert_eq!(rs.record(0, batch(), vec![ok("1"), ok("2"), ok("3")], 1), Ok(0));
        providers.push(ProviderResults { label: label.to_string(), results: rs });
    }
    let report = run(&providers);
    assert_eq!(report.mismatches.len(), 0);
    assert_eq!(report.successes.len(), 1);
    assert_eq!(report.successes[&key(&["1", "2", "3"])], 3);
    assert!(report.fully_consistent());

    let mut mixed = ResultSet::new();
    let failing = vec![ok("1"), Outcome::Failure(FailureKind::Rpc, "no".to_string()), ok("3")];
    assert_eq!(mixed.record(0, batch(), failing, 1), Ok(0));
    providers.push(ProviderResults { label: "http://d".to_string(), results: mixed });
    let report = run(&providers);
    assert_eq!(report.mismatches.len(), 1);
    assert_eq!(report.errors[&key(&["1", "no", "3"])], 1);
    assert_eq!(report.successes[&key(&["1", "2", "3"])], 3);
}

#[test]
fn same_results_with_other_timings_give_the_same_report() {
    let make = |elapsed: u64| {
        let mut rs = ResultSet::new();
        assert_eq!(rs.record(0, single("m"), vec![ok("1")], elapsed), Ok(0));
        assert_eq!(rs.record(1, single("n"), vec![ok("2")], elapsed), Ok(0));
        rs
    };
    let first = vec![
        ProviderResults { label: "http://a".to_string(), results: make(1) },
        ProviderResults { label: "http://b".to_string(), results: make(2) },
    ];
    let second = vec![
        ProviderResults { label: "http://a".to_string(), results: make(30) },
        ProviderResults { label: "http://b".to_string(), results: make(40) },
    ];
    let r1 = run(&first);
    let r2 = run(&second);
    assert_eq!(r1.successes, r2.successes);
    assert_eq!(r1.errors, r2.errors);
    assert_eq!(r1.mismatches.len(), 0);
    assert_eq!(r2.mismatches.len(), 0);
    assert_eq!(r1.successes[&key(&["1"])], 2);
}

#[test]
fn batch_with_wrong_number_of_outcomes_is_refused() {
    let mut rs = ResultSet::new();
    let batch = Envelope::Batch(vec![call("a", None), call("b", None), call("c", None)]);
    assert_eq!(rs.record(0, batch, vec![ok("1"), ok("2")], 1), Err(RecordError::ShapeMismatch));
    assert_eq!(rs.len(), 0);
}

#[test]
fn record_refuses_duplicates_and_reports_gaps() {
    let mut rs = ResultSet::new();
    assert_eq!(rs.record(0, single("m"), vec![ok("1")], 1), Ok(0));
    assert_eq!(rs.record(0, single("m"), vec![ok("1")], 1), Err(RecordError::OutOfOrder));
    assert_eq!(rs.record(4, single("m"), vec![ok("1")], 1), Ok(3));
    assert_eq!(rs.len(), 2);
    assert!(rs.find(4).is_some());
    assert!(rs.find(2).is_none());
}

#[test]
fn malformed_line_uses_no_id() {
    let mut b = Broadcaster::new(10);
    assert_eq!(b.on_line(true), LineAction::Deliver(0));
    assert_eq!(b.on_line(false), LineAction::Skip);
    assert_eq!(b.on_line(true), LineAction::Deliver(1));
    assert_eq!(b.sent(), 2);
}

#[test]
fn broadcaster_stops_at_the_limit() {
    let mut b = Broadcaster::new(2);
    assert_eq!(b.on_line(true), LineAction::Deliver(0));
    assert!(!b.is_done());
    assert_eq!(b.on_line(true), LineAction::Deliver(1));
    assert!(b.is_done());
    assert_eq!(b.on_line(true), LineAction::Stop);
    assert_eq!(b.sent(), 2);
    let mut none = Broadcaster::new(0);
    assert_eq!(none.on_line(true), LineAction::Stop);
}

#[test]
fn delivered_ids_are_exactly_the_recorded_ids() {
    let lines = [true, true, false, true, false, false, true];
    let mut b = Broadcaster::new(default_count());
    let mut rs = ResultSet::new();
    for parsed in lines {
        if let LineAction::Deliver(id) = b.on_line(parsed) {
            assert_eq!(rs.record(id, single("m"), vec![ok("1")], 1), Ok(0));
        }
    }
    let ids: Vec<u64> = rs.entries().iter().map(|e| e.seq).collect();
    assert_eq!(ids, vec![0, 1, 2, 3]);
}

#[test]
fn default_count_is_one_thousand() {
    assert_eq!(default_count(), 1000);
}

#[test]
fn foreign_chain_is_dropped_from_the_pool() {
    let sel = select_providers(&vec![Some(1), Some(1), Some(5), Some(1)]);
    assert_eq!(sel.chain, Some(1));
    assert_eq!(sel.kept, vec![0, 1, 3]);
    assert_eq!(sel.warnings, vec![PoolWarning::WrongChain { position: 2, expected: 1, found: 5 }]);
    assert!(sel.can_compare());
}

#[test]
fn unreachable_providers_are_skipped() {
    let sel = select_providers(&vec![None, Some(7), None, Some(7)]);
    assert_eq!(sel.chain, Some(7));
    assert_eq!(sel.kept, vec![1, 3]);
    assert_eq!(sel.warnings, vec![PoolWarning::Unreachable(0), PoolWarning::Unreachable(2)]);
    let alone = select_providers(&vec![Some(3), Some(4)]);
    assert_eq!(alone.kept, vec![0]);
    assert!(!alone.can_compare());
    let nobody = select_providers(&vec![None]);
    assert_eq!(nobody.chain, None);
    assert!(nobody.kept.is_empty());
}

#[test]
fn bad_addresses_are_rejected() {
    let addresses = vec![
        "http://localhost:8545".to_string(),
        "not a url".to_string(),
        "".to_string(),
        "https://rpc.example.org/v1".to_string(),
    ];
    let parsed = parse_endpoints(&addresses);
    let kept: Vec<&str> = parsed.endpoints.iter().map(|e| e.address.as_str()).collect();
    assert_eq!(kept, vec!["http://localhost:8545", "https://rpc.example.org/v1"]);
    assert_eq!(parsed.endpoints[0].target.host_str(), Some("localhost"));
    assert_eq!(parsed.rejected, vec!["not a url".to_string(), "".to_string()]);
}

#[test]
fn replies_are_classified() {
    let t = classify(RawReply::Unreachable("refused".to_string()));
    assert_eq!(t, Outcome::Failure(FailureKind::Transport, "refused".to_string()));
    let s = classify(RawReply::Response { status: 503, body: Ok("busy".to_string()), rpc_error: None });
    assert_eq!(s, Outcome::Failure(FailureKind::Status(503), "HTTP 503: busy".to_string()));
    let e = classify(RawReply::Response { status: 500, body: Ok(String::new()), rpc_error: None });
    assert_eq!(e, Outcome::Failure(FailureKind::Status(500), "HTTP 500".to_string()));
    let n = classify(RawReply::Response { status: 404, body: Err(String::new()), rpc_error: None });
    assert_eq!(n, Outcome::Failure(FailureKind::Status(404), "HTTP 404".to_string()));
    let z = classify(RawReply::Response { status: 0, body: Ok("x".to_string()), rpc_error: None });
    assert_eq!(z, Outcome::Failure(FailureKind::Status(0), "HTTP 0: x".to_string()));
    let big = classify(RawReply::Response { status: 65535, body: Ok(String::new()), rpc_error: None });
    assert_eq!(big, Outcome::Failure(FailureKind::Status(65535), "HTTP 65535".to_string()));
    let m = classify(RawReply::Response { status: 200, body: Err("cut".to_string()), rpc_error: None });
    assert_eq!(m, Outcome::Failure(FailureKind::Malformed, "cut".to_string()));
    let r = classify(RawReply::Response {
        status: 200,
        body: Ok("{}".to_string()),
        rpc_error: Some("method not found".to_string()),
    });
    assert_eq!(r, Outcome::Failure(FailureKind::Rpc, "method not found".to_string()));
    let k = classify(RawReply::Response { status: 299, body: Ok("{\"result\":1}".to_string()), rpc_error: None });
    assert_eq!(k, Outcome::Success("{\"result\":1}".to_string()));
}

#[test]
fn envelopes_compare_structurally() {
    assert!(single("a").same_as(&single("a")));
    assert!(!single("a").same_as(&single("b")));
    assert!(!call("a", None).same_as(&call("a", Some("[]"))));
    let b1 = Envelope::Batch(vec![call("a", None), call("b", None)]);
    let b2 = Envelope::Batch(vec![call("a", None)]);
    assert!(!b1.same_as(&b2));
    assert!(b1.same_as(&b1.clone()));
    assert!(!b1.same_as(&single("a")));
    assert_eq!(b1.calls(), 2);
}

#[test]
fn chain_ids_are_decoded() {
    assert_eq!(parse_chain_id(b"\"0x1\""), Some(1));
    assert_eq!(parse_chain_id(b"\"0xA4B1\""), Some(42161));
    assert_eq!(parse_chain_id(b"\"0xffffffffffffffff\""), Some(u64::MAX));
    assert_eq!(parse_chain_id(b"\"0x10000000000000000\""), None);
    assert_eq!(parse_chain_id(b"\"0x\""), None);
    assert_eq!(parse_chain_id(b"\"0xg1\""), None);
    assert_eq!(parse_chain_id(b"0x1"), None);
    assert_eq!(parse_chain_id(b"1"), None);
}
