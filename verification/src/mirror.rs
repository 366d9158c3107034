//! Mirror discovery: reads the heading/link-list structure out of a
//! mirror-list page, derives one candidate record per link, and applies
//! the country filters and the discovery cap.

use vstd::prelude::*;

use scraper::{Html, Selector};

use crate::text::{joined, lower_of, lowercase, trim_spaces, trimmed, join_with_spaces};

verus! {

/// One link as found on the page: its `href` attribute, if present, and
/// its visible text nodes in document order.
#[derive(Clone, PartialEq, Eq, Debug)]
pub struct RawLink {
    pub href: Option<String>,
    pub texts: Vec<String>,
}

/// One heading/link-list couple of the page: the heading's text nodes and
/// the links of the list that follows it.
#[derive(Clone, PartialEq, Eq, Debug)]
pub struct RawSection {
    pub heading_texts: Vec<String>,
    pub links: Vec<RawLink>,
}

/// A discovered mirror: its URL, the visible label of the link, and the
/// lowercased country label of the section it stood in.
#[derive(Clone, PartialEq, Eq, Debug)]
pub struct MirrorRecord {
    pub url: String,
    pub domain_label: String,
    pub country: String,
}

pub struct RawLinkV {
    pub href: Option<Seq<char>>,
    pub texts: Seq<Seq<char>>,
}

pub struct RawSectionV {
    pub heading_texts: Seq<Seq<char>>,
    pub links: Seq<RawLinkV>,
}

pub struct MirrorRecordV {
    pub url: Seq<char>,
    pub domain_label: Seq<char>,
    pub country: Seq<char>,
}

impl View for RawLink {
    type V = RawLinkV;

    open spec fn view(&self) -> RawLinkV {
        RawLinkV {
            href: match self.href {
                Some(h) => Some(h@),
                None => None,
            },
            texts: self.texts@.map_values(|t: String| t@),
        }
    }
}

impl View for RawSection {
    type V = RawSectionV;

    open spec fn view(&self) -> RawSectionV {
        RawSectionV {
            heading_texts: self.heading_texts@.map_values(|t: String| t@),
            links: self.links@.map_values(|l: RawLink| l@),
        }
    }
}

impl View for MirrorRecord {
    type V = MirrorRecordV;

    open spec fn view(&self) -> MirrorRecordV {
        MirrorRecordV { url: self.url@, domain_label: self.domain_label@, country: self.country@ }
    }
}

pub open spec fn str_views(v: Seq<String>) -> Seq<Seq<char>> {
    v.map_values(|s: String| s@)
}

pub open spec fn section_views(v: Seq<RawSection>) -> Seq<RawSectionV> {
    v.map_values(|s: RawSection| s@)
}

pub open spec fn record_views(v: Seq<MirrorRecord>) -> Seq<MirrorRecordV> {
    v.map_values(|m: MirrorRecord| m@)
}

/// What the page scan yields for a document and three selectors: the
/// heading/list couples of the first matching container, or `None` when a
/// selector does not parse or no container matches.
pub uninterp spec fn page_sections(
    html: Seq<char>,
    container_sel: Seq<char>,
    group_sel: Seq<char>,
    link_sel: Seq<char>,
) -> Option<Seq<RawSectionV>>;

/// Relies on scraper (`Html::parse_document`, `Selector::parse`,
/// `Html::select`, `ElementRef::select`, `ElementRef::attr`,
/// `ElementRef::text`): parses the document, takes the first element that
/// matches `container_sel`, pairs the elements matching `group_sel` inside
/// it in document order as heading/list couples, and hands back each
/// heading's text nodes and each list link's `href` attribute and text
/// nodes. The result is a function of the four strings alone; `None` when
/// a selector does not parse or no container matches.
#[verifier::external_body]
fn scan_page(html: &str, container_sel: &str, group_sel: &str, link_sel: &str) -> (r: Option<
    Vec<RawSection>,
>)
    ensures
        match r {
            Some(secs) => page_sections(html@, container_sel@, group_sel@, link_sel@) == Some(
                section_views(secs@),
            ),
            None => page_sections(html@, container_sel@, group_sel@, link_sel@) is None,
        },
{
    let doc = Html::parse_document(html);
    let root = doc.select(&Selector::parse(container_sel).ok()?).next()?;
    let lsel = Selector::parse(link_sel).ok()?;
    let groups: Vec<_> = root.select(&Selector::parse(group_sel).ok()?).collect();
    Some(groups.chunks(2).filter_map(|p| match p {
        [h, l] => Some(RawSection {
            heading_texts: h.text().map(str::to_string).collect(),
            links: l.select(&lsel).map(|a| RawLink { href: a.attr("href").map(str::to_string), texts: a.text().map(str::to_string).collect() }).collect(),
        }),
        _ => None,
    }).collect())
}

/// The country label of a section: its heading text fragments joined,
/// trimmed of surrounding whitespace, and lowercased.
pub open spec fn section_country(s: RawSectionV) -> Seq<char> {
    lower_of(trimmed(joined(s.heading_texts)))
}

/// The candidate record of one link: the `href` text (empty when absent),
/// the link text joined and trimmed, and the section's country label.
pub open spec fn link_record(country: Seq<char>, l: RawLinkV) -> MirrorRecordV {
    MirrorRecordV {
        url: match l.href {
            Some(h) => h,
            None => Seq::empty(),
        },
        domain_label: trimmed(joined(l.texts)),
        country: country,
    }
}

/// All candidate records of one section, in link order.
pub open spec fn section_records(s: RawSectionV) -> Seq<MirrorRecordV> {
    s.links.map_values(|l: RawLinkV| link_record(section_country(s), l))
}

/// All candidate records of the page, in section and link order.
pub open spec fn candidates_of(secs: Seq<RawSectionV>) -> Seq<MirrorRecordV>
    decreases secs.len(),
{
    if secs.len() == 0 {
        Seq::empty()
    } else {
        candidates_of(secs.drop_last()) + section_records(secs.last())
    }
}

/// Whether a candidate's country label passes the filters: with a
/// non-empty included list only its members pass, and the excluded list is
/// ignored; otherwise everything outside the excluded list passes.
pub open spec fn country_passes(
    country: Seq<char>,
    included: Seq<Seq<char>>,
    excluded: Seq<Seq<char>>,
) -> bool {
    if included.len() > 0 {
        included.contains(country)
    } else {
        !excluded.contains(country)
    }
}

/// The candidates that pass the filters, in order.
pub open spec fn matching(
    cands: Seq<MirrorRecordV>,
    included: Seq<Seq<char>>,
    excluded: Seq<Seq<char>>,
) -> Seq<MirrorRecordV>
    decreases cands.len(),
{
    if cands.len() == 0 {
        Seq::empty()
    } else {
        let prefix = matching(cands.drop_last(), included, excluded);
        if country_passes(cands.last().country, included, excluded) {
            prefix.push(cands.last())
        } else {
            prefix
        }
    }
}

/// The discovery cap: `None` is no limit.
pub open spec fn cap_of(max_check: isize) -> Option<nat> {
    if max_check < 0 {
        None
    } else {
        Some(max_check as nat)
    }
}

pub open spec fn dec_cap(cap: Option<nat>) -> Option<nat> {
    match cap {
        None => None,
        Some(k) => Some((k - 1) as nat),
    }
}

/// What discovery selects: the passing candidates in source order, cut off
/// as soon as the cap is reached.
pub open spec fn selected(
    cands: Seq<MirrorRecordV>,
    cap: Option<nat>,
    included: Seq<Seq<char>>,
    excluded: Seq<Seq<char>>,
) -> Seq<MirrorRecordV>
    decreases cands.len(),
{
    if cap == Some(0nat) {
        Seq::empty()
    } else if cands.len() == 0 {
        Seq::empty()
    } else if country_passes(cands[0].country, included, excluded) {
        seq![cands[0]] + selected(cands.drop_first(), dec_cap(cap), included, excluded)
    } else {
        selected(cands.drop_first(), cap, included, excluded)
    }
}

/// Whether one of the strings has exactly this text.
fn contains_string(v: &Vec<String>, s: &String) -> (r: bool)
    ensures
        r == str_views(v@).contains(s@),
{
    let mut i: usize = 0;
    while i < v.len()
        invariant
            0 <= i <= v@.len(),
            forall|k: int| 0 <= k < i ==> str_views(v@)[k] != s@,
        decreases v@.len() - i,
    {
        if v[i] == *s {
            assert(str_views(v@)[i as int] == s@);
            return true;
        }
        i = i + 1;
    }
    proof {
        assert(forall|k: int| 0 <= k < str_views(v@).len() ==> str_views(v@)[k] != s@);
    }
    false
}

/// Flattens the page's sections into candidate records, deriving each
/// section's country label and each link's URL and domain label.
fn flatten_sections(sections: &Vec<RawSection>) -> (r: Vec<MirrorRecord>)
    ensures
        record_views(r@) == candidates_of(section_views(sections@)),
{
    let ghost secs = section_views(sections@);
    let mut out: Vec<MirrorRecord> = Vec::new();
    let mut i: usize = 0;
    while i < sections.len()
        invariant
            0 <= i <= sections@.len(),
            secs == section_views(sections@),
            record_views(out@) == candidates_of(secs.take(i as int)),
        decreases sections@.len() - i,
    {
        let sec = &sections[i];
        let joined_heading = join_with_spaces(&sec.heading_texts);
        let trimmed_heading = trim_spaces(joined_heading.as_str());
        let country = lowercase(trimmed_heading.as_str());
        proof {
            assert(country@ == section_country(secs[i as int]));
        }
        let mut j: usize = 0;
        while j < sec.links.len()
            invariant
                0 <= j <= sec.links@.len(),
                secs == section_views(sections@),
                0 <= i < sections@.len(),
                sec == &sections[i as int],
                country@ == section_country(secs[i as int]),
                record_views(out@) == candidates_of(secs.take(i as int)) + section_records(
                    secs[i as int],
                ).take(j as int),
            decreases sec.links@.len() - j,
        {
            let link = &sec.links[j];
            let url = match &link.href {
                Some(h) => h.clone(),
                None => String::new(),
            };
            let domain_label = trim_spaces(join_with_spaces(&link.texts).as_str());
            let rec = MirrorRecord { url, domain_label, country: country.clone() };
            proof {
                assert(secs[i as int].links[j as int] == link@);
                assert(section_records(secs[i as int])[j as int] == link_record(
                    section_country(secs[i as int]),
                    link@,
                ));
                assert(rec@ == section_records(secs[i as int])[j as int]);
            }
            let ghost prev = out@;
            out.push(rec);
            proof {
                assert(record_views(out@) =~= record_views(prev).push(rec@));
                assert(section_records(secs[i as int]).take(j + 1) =~= section_records(
                    secs[i as int],
                ).take(j as int).push(section_records(secs[i as int])[j as int]));
                assert(record_views(out@) =~= candidates_of(secs.take(i as int))
                    + section_records(secs[i as int]).take(j + 1));
            }
            j = j + 1;
        }
        proof {
            assert(section_records(secs[i as int]).take(sec.links@.len() as int)
                =~= section_records(secs[i as int]));
            assert(secs.take(i + 1).drop_last() =~= secs.take(i as int));
            assert(secs.take(i + 1).last() == secs[i as int]);
            assert(record_views(out@) == candidates_of(secs.take(i + 1)));
        }
        i = i + 1;
    }
    proof {
        assert(secs.take(sections@.len() as int) =~= secs);
    }
    out
}

/// Selects the passing candidates in order, stopping at the cap, as the
/// selection model says.
pub fn select_mirrors(
    candidates: Vec<MirrorRecord>,
    max_check: isize,
    excluded: &Vec<String>,
    included: &Vec<String>,
) -> (r: Vec<MirrorRecord>)
    ensures
        record_views(r@) == selected(
            record_views(candidates@),
            cap_of(max_check),
            str_views(included@),
            str_views(excluded@),
        ),
{
    let ghost cands = record_views(candidates@);
    let ghost cap0 = cap_of(max_check);
    let ghost incv = str_views(included@);
    let ghost excv = str_views(excluded@);
    let ghost target = selected(cands, cap0, incv, excv);
    let mut out: Vec<MirrorRecord> = Vec::new();
    let mut k: usize = 0;
    proof {
        assert(record_views(out@) =~= Seq::<MirrorRecordV>::empty());
        assert(cands.skip(0) =~= cands);
        assert(cap_left(cap0, 0nat) == cap0);
        assert(record_views(out@) + selected(cands.skip(0), cap_left(cap0, 0nat), incv, excv)
            =~= target);
    }
    while k < candidates.len()
        invariant
            0 <= k <= candidates@.len(),
            cands == record_views(candidates@),
            cap0 == cap_of(max_check),
            incv == str_views(included@),
            excv == str_views(excluded@),
            target == selected(cands, cap0, incv, excv),
            max_check >= 0 ==> out@.len() <= max_check as usize,
            record_views(out@) + selected(
                cands.skip(k as int),
                cap_left(cap0, out@.len() as nat),
                incv,
                excv,
            ) == target,
        decreases candidates@.len() - k,
    {
        let cand = &candidates[k];
        let pass = if included.len() > 0 {
            contains_string(included, &cand.country)
        } else {
            !contains_string(excluded, &cand.country)
        };
        proof {
            assert(pass == country_passes(cands[k as int].country, incv, excv));
            assert(cands.skip(k as int)[0] == cands[k as int]);
        }
        if pass {
            if max_check >= 0 && out.len() == max_check as usize {
                proof {
                    assert(cap_left(cap0, out@.len() as nat) == Some(0nat));
                    assert(selected(cands.skip(k as int), Some(0nat), incv, excv)
                        =~= Seq::<MirrorRecordV>::empty());
                    assert(record_views(out@) =~= target);
                }
                return out;
            }
            let copy = MirrorRecord {
                url: cand.url.clone(),
                domain_label: cand.domain_label.clone(),
                country: cand.country.clone(),
            };
            proof {
                assert(copy@ == cands[k as int]);
                assert(cap_left(cap0, out@.len() as nat) != Some(0nat));
                assert(cands.skip(k as int).drop_first() =~= cands.skip(k + 1));
                assert(selected(cands.skip(k as int), cap_left(cap0, out@.len() as nat), incv, excv)
                    == seq![cands[k as int]] + selected(
                    cands.skip(k + 1),
                    dec_cap(cap_left(cap0, out@.len() as nat)),
                    incv,
                    excv,
                ));
                assert(dec_cap(cap_left(cap0, out@.len() as nat)) == cap_left(
                    cap0,
                    (out@.len() + 1) as nat,
                ));
            }
            let ghost prev = out@;
            out.push(copy);
            proof {
                assert(record_views(out@) =~= record_views(prev).push(copy@));
                assert(record_views(out@) + selected(
                    cands.skip(k + 1),
                    cap_left(cap0, out@.len() as nat),
                    incv,
                    excv,
                ) =~= target);
            }
        } else {
            proof {
                assert(cands.skip(k as int).drop_first() =~= cands.skip(k + 1));
                assert(selected(cands.skip(k as int), cap_left(cap0, out@.len() as nat), incv, excv)
                    == selected(cands.skip(k + 1), cap_left(cap0, out@.len() as nat), incv, excv));
            }
        }
        k = k + 1;
    }
    proof {
        assert(cands.skip(cands.len() as int) =~= Seq::<MirrorRecordV>::empty());
        assert(selected(
            cands.skip(cands.len() as int),
            cap_left(cap0, out@.len() as nat),
            incv,
            excv,
        ) =~= Seq::<MirrorRecordV>::empty());
        assert(record_views(out@) =~= target);
    }
    out
}

/// The cap that remains after `taken` records were accepted.
pub open spec fn cap_left(cap: Option<nat>, taken: nat) -> Option<nat> {
    match cap {
        None => None,
        Some(k) => Some((k - taken) as nat),
    }
}

/// Errors of mirror discovery: the page could not be fetched, or its
/// expected container structure is absent.
#[derive(Clone, Copy, PartialEq, Eq, Structural, Debug)]
pub enum SourceError {
    SourceUnavailable,
    SourceFormatError,
}

/// What discovery yields on a page text, before filtering: the candidate
/// records of the mirror container, or `None` when the container structure
/// is absent.
pub open spec fn page_candidates(html: Seq<char>) -> Option<Seq<MirrorRecordV>> {
    match page_sections(html, "div#download-mirrors"@, "h5, ul"@, "a"@) {
        Some(secs) => Some(candidates_of(secs)),
        None => None,
    }
}

/// The full discovery model: candidates of the page, filtered and capped.
pub open spec fn discovery_model(
    html: Seq<char>,
    max_check: isize,
    excluded: Seq<Seq<char>>,
    included: Seq<Seq<char>>,
) -> Option<Seq<MirrorRecordV>> {
    match page_candidates(html) {
        Some(cands) => Some(selected(cands, cap_of(max_check), included, excluded)),
        None => None,
    }
}

/// Discovers the mirror records of a page text: reads the heading/list
/// structure, derives candidates, filters them by country and caps the
/// count. Fails exactly when the expected container structure is absent.
pub fn parse_mirrors(
    raw_html: &str,
    max_check: isize,
    excluded: &Vec<String>,
    included: &Vec<String>,
) -> (r: Result<Vec<MirrorRecord>, SourceError>)
    ensures
        match discovery_model(raw_html@, max_check, str_views(excluded@), str_views(included@)) {
            Some(model) => r matches Ok(recs) && record_views(recs@) == model,
            None => r matches Err(e) && e == SourceError::SourceFormatError,
        },
{
    match scan_page(raw_html, "div#download-mirrors", "h5, ul", "a") {
        Some(sections) => {
            let candidates = flatten_sections(&sections);
            Ok(select_mirrors(candidates, max_check, excluded, included))
        },
        None => Err(SourceError::SourceFormatError),
    }
}

/// Prepending one candidate prepends its contribution to the matching
/// list.
proof fn lemma_matching_cons(
    h: MirrorRecordV,
    rest: Seq<MirrorRecordV>,
    included: Seq<Seq<char>>,
    excluded: Seq<Seq<char>>,
)
    ensures
        matching(seq![h] + rest, included, excluded) == (if country_passes(
            h.country,
            included,
            excluded,
        ) {
            seq![h]
        } else {
            Seq::<MirrorRecordV>::empty()
        }) + matching(rest, included, excluded),
    decreases rest.len(),
{
    let c = seq![h] + rest;
    let lead: Seq<MirrorRecordV> = if country_passes(h.country, included, excluded) {
        seq![h]
    } else {
        Seq::empty()
    };
    if rest.len() == 0 {
        assert(c.drop_last() =~= Seq::<MirrorRecordV>::empty());
        assert(c.last() == h);
        assert(matching(rest, included, excluded) =~= Seq::<MirrorRecordV>::empty());
        assert(matching(c.drop_last(), included, excluded) =~= Seq::<MirrorRecordV>::empty());
        if country_passes(h.country, included, excluded) {
            assert(matching(c, included, excluded) == matching(
                c.drop_last(),
                included,
                excluded,
            ).push(h));
            assert(matching(c, included, excluded) =~= lead + matching(rest, included, excluded));
        } else {
            assert(matching(c, included, excluded) == matching(c.drop_last(), included, excluded));
            assert(matching(c, included, excluded) =~= lead + matching(rest, included, excluded));
        }
    } else {
        lemma_matching_cons(h, rest.drop_last(), included, excluded);
        assert(c.drop_last() =~= seq![h] + rest.drop_last());
        assert(c.last() == rest.last());
        if country_passes(rest.last().country, included, excluded) {
            assert(matching(rest, included, excluded) == matching(
                rest.drop_last(),
                included,
                excluded,
            ).push(rest.last()));
            assert(matching(c, included, excluded) =~= lead + matching(rest, included, excluded));
        } else {
            assert(matching(rest, included, excluded) == matching(
                rest.drop_last(),
                included,
                excluded,
            ));
            assert(matching(c, included, excluded) =~= lead + matching(rest, included, excluded));
        }
    }
}

/// Without a cap, discovery selects exactly the matching candidates, in
/// source order.
pub proof fn lemma_selected_unlimited(
    cands: Seq<MirrorRecordV>,
    included: Seq<Seq<char>>,
    excluded: Seq<Seq<char>>,
)
    ensures
        selected(cands, None, included, excluded) == matching(cands, included, excluded),
    decreases cands.len(),
{
    if cands.len() == 0 {
        assert(selected(cands, None, included, excluded) =~= matching(cands, included, excluded));
    } else {
        let rest = cands.drop_first();
        lemma_selected_unlimited(rest, included, excluded);
        lemma_matching_cons(cands[0], rest, included, excluded);
        assert(seq![cands[0]] + rest =~= cands);
        if country_passes(cands[0].country, included, excluded) {
            assert(selected(cands, None, included, excluded) =~= matching(
                cands,
                included,
                excluded,
            ));
        } else {
            assert(matching(cands, included, excluded) =~= matching(rest, included, excluded));
        }
    }
}

/// The smaller of two lengths.
pub open spec fn min_nat(a: nat, b: nat) -> nat {
    if a <= b {
        a
    } else {
        b
    }
}

/// The cap law: with a cap of `k`, discovery returns exactly the first
/// `min(k, all matching candidates)` of the matching list, preserving
/// source order.
pub proof fn lemma_selected_cap(
    cands: Seq<MirrorRecordV>,
    k: nat,
    included: Seq<Seq<char>>,
    excluded: Seq<Seq<char>>,
)
    ensures
        selected(cands, Some(k), included, excluded) == matching(cands, included, excluded).take(
            min_nat(k, matching(cands, included, excluded).len()) as int,
        ),
        selected(cands, Some(k), included, excluded).len() == min_nat(
            k,
            matching(cands, included, excluded).len(),
        ),
    decreases cands.len(),
{
    let m = matching(cands, included, excluded);
    if k == 0 {
        assert(selected(cands, Some(k), included, excluded) =~= m.take(0));
    } else if cands.len() == 0 {
        assert(selected(cands, Some(k), included, excluded) =~= m.take(
            min_nat(k, m.len()) as int,
        ));
    } else {
        let rest = cands.drop_first();
        let mr = matching(rest, included, excluded);
        lemma_matching_cons(cands[0], rest, included, excluded);
        assert(seq![cands[0]] + rest =~= cands);
        if country_passes(cands[0].country, included, excluded) {
            lemma_selected_cap(rest, (k - 1) as nat, included, excluded);
            assert(m == seq![cands[0]] + mr);
            assert(selected(cands, Some(k), included, excluded) == seq![cands[0]] + selected(
                rest,
                Some((k - 1) as nat),
                included,
                excluded,
            ));
            assert(selected(cands, Some(k), included, excluded) =~= m.take(
                min_nat(k, m.len()) as int,
            ));
        } else {
            lemma_selected_cap(rest, k, included, excluded);
            assert(m == mr);
        }
    }
}

/// With a non-empty include list, every discovered record's country label
/// is a member of that list, and the exclude list is ignored: any two
/// exclude lists select the same records.
pub proof fn lemma_included_governs(
    cands: Seq<MirrorRecordV>,
    cap: Option<nat>,
    included: Seq<Seq<char>>,
    excluded_a: Seq<Seq<char>>,
    excluded_b: Seq<Seq<char>>,
)
    requires
        included.len() > 0,
    ensures
        forall|i: int|
            0 <= i < selected(cands, cap, included, excluded_a).len() ==> included.contains(
                #[trigger] selected(cands, cap, included, excluded_a)[i].country,
            ),
        selected(cands, cap, included, excluded_a) == selected(cands, cap, included, excluded_b),
    decreases cands.len(),
{
    if cap == Some(0nat) || cands.len() == 0 {
    } else {
        let rest = cands.drop_first();
        if country_passes(cands[0].country, included, excluded_a) {
            lemma_included_governs(rest, dec_cap(cap), included, excluded_a, excluded_b);
            assert forall|i: int|
                0 <= i < selected(cands, cap, included, excluded_a).len() implies included.contains(
                #[trigger] selected(cands, cap, included, excluded_a)[i].country,
            ) by {
                if i == 0 {
                } else {
                    assert(selected(cands, cap, included, excluded_a)[i] == selected(
                        rest,
                        dec_cap(cap),
                        included,
                        excluded_a,
                    )[i - 1]);
                }
            }
        } else {
            lemma_included_governs(rest, cap, included, excluded_a, excluded_b);
        }
    }
}

/// With an empty include list, discovery without a cap returns exactly
/// the candidates whose country label is not excluded, in source order.
pub proof fn lemma_excluded_filters(
    cands: Seq<MirrorRecordV>,
    included: Seq<Seq<char>>,
    excluded: Seq<Seq<char>>,
)
    requires
        included.len() == 0,
    ensures
        selected(cands, None, included, excluded) == cands.filter(
            |r: MirrorRecordV| !excluded.contains(r.country),
        ),
    decreases cands.len(),
{
    lemma_selected_unlimited(cands, included, excluded);
    let pred = |r: MirrorRecordV| !excluded.contains(r.country);
    if cands.len() == 0 {
        assert(matching(cands, included, excluded) =~= cands.filter(pred));
    } else {
        lemma_excluded_filters(cands.drop_last(), included, excluded);
        lemma_selected_unlimited(cands.drop_last(), included, excluded);
        reveal(Seq::filter);
        assert(cands.filter(pred) == if pred(cands.last()) {
            cands.drop_last().filter(pred).push(cands.last())
        } else {
            cands.drop_last().filter(pred)
        });
        assert(country_passes(cands.last().country, included, excluded) == pred(cands.last()));
    }
}

/// Discovery is a function of the page text, the cap and the filters
/// alone: two runs against an unchanged page with identical filters
/// yield the same ordered record list.
pub proof fn lemma_discovery_deterministic(
    html: Seq<char>,
    max_check: isize,
    excluded: Seq<Seq<char>>,
    included: Seq<Seq<char>>,
    first: Seq<MirrorRecordV>,
    second: Seq<MirrorRecordV>,
)
    requires
        discovery_model(html, max_check, excluded, included) == Some(first),
        discovery_model(html, max_check, excluded, included) == Some(second),
    ensures
        first == second,
{
}

} // verus!
