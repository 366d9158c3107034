use mirrorcheck::mirror::{parse_mirrors, MirrorRecord, SourceError};

const PAGE: &str = "<html><body><div id=\"download-mirrors\">\
<h5> Europe </h5>\
<ul><li><a href=\"http://mirror.eu/iso\">mirror.eu</a></li></ul>\
<h5>Asia</h5>\
<ul><li><a href=\"http://mirror.asia/iso\">mirror.asia</a></li></ul>\
</div></body></html>";

fn discover(page: &str, max_check: isize, excluded: &[&str], included: &[&str]) -> Vec<MirrorRecord> {
    let excluded: Vec<String> = excluded.iter().map(|s| s.to_string()).collect();
    let included: Vec<String> = included.iter().map(|s| s.to_string()).collect();
    parse_mirrors(page, max_check, &excluded, &included).expect("page has the container")
}

#[test]
fn discovers_both_sections_without_filters() {
    let records = discover(PAGE, -1, &[], &[]);
    assert_eq!(records.len(), 2);
    assert_eq!(records[0].url, "http://mirror.eu/iso");
    assert_eq!(records[0].domain_label, "mirror.eu");
    assert_eq!(records[0].country, "europe");
    assert_eq!(records[1].url, "http://mirror.asia/iso");
    assert_eq!(records[1].domain_label, "mirror.asia");
    assert_eq!(records[1].country, "asia");
}

#[test]
fn cap_of_one_returns_only_the_first_record() {
    let records = discover(PAGE, 1, &[], &[]);
    assert_eq!(records.len(), 1);
    assert_eq!(records[0].country, "europe");
}

#[test]
fn cap_of_zero_returns_no_records() {
    let records = discover(PAGE, 0, &[], &[]);
    assert!(records.is_empty());
}

#[test]
fn cap_beyond_the_candidates_returns_them_all() {
    let records = discover(PAGE, 17, &[], &[]);
    assert_eq!(records.len(), 2);
}

#[test]
fn included_countries_govern_and_excluded_is_ignored() {
    let records = discover(PAGE, -1, &["asia"], &["asia"]);
    assert_eq!(records.len(), 1);
    assert_eq!(records[0].country, "asia");
}

#[test]
fn excluded_country_is_dropped() {
    let records = discover(PAGE, -1, &["europe"], &[]);
    assert_eq!(records.len(), 1);
    assert_eq!(records[0].country, "asia");
    assert_eq!(records[0].url, "http://mirror.asia/iso");
}

#[test]
fn rerunning_discovery_yields_the_same_list() {
    let first = discover(PAGE, -1, &[], &[]);
    let second = discover(PAGE, -1, &[], &[]);
    assert_eq!(first, second);
}

#[test]
fn page_without_the_container_is_a_format_error() {
    let excluded: Vec<String> = Vec::new();
    let included: Vec<String> = Vec::new();
    let r = parse_mirrors("<html><body><p>nothing here</p></body></html>", -1, &excluded, &included);
    assert!(matches!(r, Err(SourceError::SourceFormatError)));
}

#[test]
fn link_without_href_yields_an_empty_url() {
    let page = "<div id=\"download-mirrors\"><h5>Europe</h5>\
<ul><li><a>bare link</a></li></ul></div>";
    let records = discover(page, -1, &[], &[]);
    assert_eq!(records.len(), 1);
    assert_eq!(records[0].url, "");
    assert_eq!(records[0].domain_label, "bare link");
}

#[test]
fn heading_text_is_joined_trimmed_and_lowercased() {
    let page = "<div id=\"download-mirrors\"><h5>  South America\n</h5>\
<ul><li><a href=\"http://m.sa/\">  m.sa  </a></li></ul></div>";
    let records = discover(page, -1, &[], &[]);
    assert_eq!(records.len(), 1);
    assert_eq!(records[0].country, "south america");
    assert_eq!(records[0].domain_label, "m.sa");
}

#[test]
fn uppercase_headings_lowercase_into_country_labels() {
    let page = "<div id=\"download-mirrors\"><h5>EUROPE</h5>\
<ul><li><a href=\"http://a/\">a</a></li></ul></div>";
    let records = discover(page, -1, &[], &[]);
    assert_eq!(records.len(), 1);
    assert_eq!(records[0].country, "europe");
    let filtered = discover(page, -1, &["europe"], &[]);
    assert!(filtered.is_empty());
}

#[test]
fn cap_stops_mid_section() {
    let page = "<div id=\"download-mirrors\"><h5>Europe</h5>\
<ul><li><a href=\"http://a/\">a</a></li><li><a href=\"http://b/\">b</a></li>\
<li><a href=\"http://c/\">c</a></li></ul></div>";
    let records = discover(page, 2, &[], &[]);
    assert_eq!(records.len(), 2);
    assert_eq!(records[0].url, "http://a/");
    assert_eq!(records[1].url, "http://b/");
}
