use mirrorcheck::outcome::ProbeOutcome;
use mirrorcheck::report::Report;
use mirrorcheck::text::{decimal_string, is_space_char, join_with_spaces, trim_spaces};

#[test]
fn trims_surrounding_whitespace_only() {
    assert_eq!(trim_spaces("  mirror list \n\t"), "mirror list");
    assert_eq!(trim_spaces("plain"), "plain");
    assert_eq!(trim_spaces("   \n "), "");
    assert_eq!(trim_spaces(""), "");
    assert_eq!(trim_spaces("\u{a0}padded\u{2003}"), "padded");
}

#[test]
fn whitespace_characters_are_recognised() {
    assert!(is_space_char(' '));
    assert!(is_space_char('\n'));
    assert!(is_space_char('\u{2028}'));
    assert!(!is_space_char('x'));
    assert!(!is_space_char('0'));
}

#[test]
fn joins_fragments_with_single_spaces() {
    let parts: Vec<String> = vec!["a".to_string(), "b".to_string(), "c".to_string()];
    assert_eq!(join_with_spaces(&parts), "a b c");
    let one: Vec<String> = vec!["solo".to_string()];
    assert_eq!(join_with_spaces(&one), "solo");
    let none: Vec<String> = Vec::new();
    assert_eq!(join_with_spaces(&none), "");
}

#[test]
fn renders_status_codes_in_decimal() {
    assert_eq!(decimal_string(200), "200");
    assert_eq!(decimal_string(0), "0");
    assert_eq!(decimal_string(7), "7");
    assert_eq!(decimal_string(65535), "65535");
}

#[test]
fn report_keeps_first_insertion_order_and_overwrites_duplicates() {
    let mut report = Report::new("http://page/".to_string());
    assert_eq!(report.entry_count(), 0);
    report.upsert_placeholder(&"http://a/".to_string(), "a".to_string(), "europe".to_string());
    report.upsert_placeholder(&"http://b/".to_string(), "b".to_string(), "asia".to_string());
    report.set_outcome(&"http://a/".to_string(), ProbeOutcome::Success { status_code: 200 });
    report.upsert_placeholder(&"http://a/".to_string(), "a2".to_string(), "europe".to_string());

    assert_eq!(report.entry_count(), 2);
    assert_eq!(report.key_at(0).as_str(), "http://a/");
    assert_eq!(report.key_at(1).as_str(), "http://b/");
    let a = report.entry_at(0);
    assert_eq!(a.domain_label, "a2");
    assert!(a.outcome.is_none());
    assert_eq!(report.page_url, "http://page/");
}

#[test]
fn report_outcome_keeps_the_entry_labels() {
    let mut report = Report::new("http://page/".to_string());
    report.upsert_placeholder(&"http://a/".to_string(), "a".to_string(), "europe".to_string());
    report.set_outcome(&"http://a/".to_string(), ProbeOutcome::HttpError { status_code: 503 });
    let e = report.entry_at(0);
    assert_eq!(e.domain_label, "a");
    assert_eq!(e.country, "europe");
    assert_eq!(e.outcome, Some(ProbeOutcome::HttpError { status_code: 503 }));
    assert_eq!(report.find_index(&"http://missing/".to_string()), None);
}
