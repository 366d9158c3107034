use mirrorcheck::mirror::MirrorRecord;
use mirrorcheck::outcome::{classify, is_reachable, outcome_code, status_flag, FetchResult, ProbeOutcome};
use mirrorcheck::probe::ProbeRun;
use mirrorcheck::text::decimal_string;

fn record(url: &str, domain: &str, country: &str) -> MirrorRecord {
    MirrorRecord {
        url: url.to_string(),
        domain_label: domain.to_string(),
        country: country.to_string(),
    }
}

#[test]
fn status_200_classifies_as_success() {
    let o = classify(&FetchResult::Status { code: 200 });
    assert_eq!(o, ProbeOutcome::Success { status_code: 200 });
    assert!(is_reachable(&o));
    assert_eq!(status_flag(&o), 1);
    assert_eq!(outcome_code(&o), Some(200));
}

#[test]
fn other_statuses_classify_as_http_errors() {
    let o = classify(&FetchResult::Status { code: 404 });
    assert_eq!(o, ProbeOutcome::HttpError { status_code: 404 });
    assert!(!is_reachable(&o));
    assert_eq!(status_flag(&o), 0);
    assert_eq!(outcome_code(&o), Some(404));
}

#[test]
fn transport_failures_carry_no_code() {
    let o = classify(&FetchResult::TransportFailure);
    assert_eq!(o, ProbeOutcome::TransportError);
    assert!(!is_reachable(&o));
    assert_eq!(status_flag(&o), 0);
    assert_eq!(outcome_code(&o), None);
}

#[test]
fn two_mirrors_one_reachable_one_timing_out() {
    let records = vec![
        record("http://mirror.eu/iso", "mirror.eu", "europe"),
        record("http://mirror.asia/iso", "mirror.asia", "asia"),
    ];
    let mut run = ProbeRun::new(records, None, "http://page/".to_string());
    run.submit_next();
    run.submit_next();
    assert!(run.try_begin());
    assert!(run.try_begin());
    run.complete(0, classify(&FetchResult::Status { code: 200 }));
    run.complete(1, classify(&FetchResult::TransportFailure));

    assert_eq!(run.counters.total, 2);
    assert_eq!(run.counters.succeeded, 1);
    assert_eq!(run.counters.failed, 1);
    assert_eq!(run.remaining(), 0);

    assert_eq!(run.report.entry_count(), 2);
    let eu = run.report.find_index(&"http://mirror.eu/iso".to_string()).unwrap();
    let eu_entry = run.report.entry_at(eu);
    assert_eq!(eu_entry.country, "europe");
    let eu_outcome = eu_entry.outcome.unwrap();
    assert_eq!(status_flag(&eu_outcome), 1);
    let eu_code = outcome_code(&eu_outcome).unwrap();
    assert_eq!(decimal_string(eu_code), "200");

    let asia = run.report.find_index(&"http://mirror.asia/iso".to_string()).unwrap();
    let asia_entry = run.report.entry_at(asia);
    assert_eq!(asia_entry.country, "asia");
    let asia_outcome = asia_entry.outcome.unwrap();
    assert_eq!(status_flag(&asia_outcome), 0);
    assert_eq!(outcome_code(&asia_outcome), None);
}

#[test]
fn concurrency_limit_gates_admission() {
    let records = vec![
        record("http://a/", "a", "europe"),
        record("http://b/", "b", "europe"),
    ];
    let mut run = ProbeRun::new(records, Some(1), "http://page/".to_string());
    run.submit_next();
    run.submit_next();
    assert!(run.try_begin());
    assert!(!run.try_begin());
    run.complete(0, classify(&FetchResult::Status { code: 200 }));
    assert!(run.try_begin());
    run.complete(1, classify(&FetchResult::Status { code: 503 }));
    assert_eq!(run.counters.succeeded, 1);
    assert_eq!(run.counters.failed, 1);
}

#[test]
fn duplicate_urls_collapse_to_one_entry() {
    let records = vec![
        record("http://same/", "first", "europe"),
        record("http://same/", "second", "asia"),
    ];
    let mut run = ProbeRun::new(records, None, "http://page/".to_string());
    run.submit_next();
    run.submit_next();
    assert_eq!(run.report.entry_count(), 1);
    let i = run.report.find_index(&"http://same/".to_string()).unwrap();
    assert_eq!(run.report.entry_at(i).domain_label, "second");
    assert_eq!(run.report.entry_at(i).country, "asia");
    assert!(run.report.entry_at(i).outcome.is_none());

    assert!(run.try_begin());
    assert!(run.try_begin());
    run.complete(0, classify(&FetchResult::Status { code: 200 }));
    run.complete(1, classify(&FetchResult::TransportFailure));
    assert_eq!(run.counters.succeeded + run.counters.failed, run.counters.total);
    assert_eq!(run.report.entry_count(), 1);
    assert_eq!(
        run.report.entry_at(0).outcome,
        Some(ProbeOutcome::TransportError)
    );
}

#[test]
fn placeholder_is_pending_until_the_probe_completes() {
    let records = vec![record("http://a/", "a", "europe")];
    let mut run = ProbeRun::new(records, None, "http://page/".to_string());
    run.submit_next();
    assert!(run.report.entry_at(0).outcome.is_none());
    assert_eq!(run.remaining(), 1);
    assert!(run.try_begin());
    run.complete(0, classify(&FetchResult::Status { code: 200 }));
    assert_eq!(
        run.report.entry_at(0).outcome,
        Some(ProbeOutcome::Success { status_code: 200 })
    );
    assert_eq!(run.remaining(), 0);
}
