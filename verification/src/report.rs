//! The aggregated result of a probing run: a mapping from mirror URL to
//! its entry, keyed once per URL, built in two phases — a placeholder is
//! inserted before the probe, the outcome is filled in after it.

use vstd::prelude::*;

use crate::mirror::str_views;
use crate::outcome::ProbeOutcome;

verus! {

/// One mirror's entry: its link label, its country label, and the probe
/// outcome once it is known.
#[derive(Clone, PartialEq, Eq, Debug)]
pub struct ReportEntry {
    pub domain_label: String,
    pub country: String,
    pub outcome: Option<ProbeOutcome>,
}

pub struct ReportEntryV {
    pub domain_label: Seq<char>,
    pub country: Seq<char>,
    pub outcome: Option<ProbeOutcome>,
}

impl View for ReportEntry {
    type V = ReportEntryV;

    open spec fn view(&self) -> ReportEntryV {
        ReportEntryV {
            domain_label: self.domain_label@,
            country: self.country@,
            outcome: self.outcome,
        }
    }
}

/// A fresh entry, outcome not yet known.
pub open spec fn placeholder_entry(domain_label: Seq<char>, country: Seq<char>) -> ReportEntryV {
    ReportEntryV { domain_label, country, outcome: None }
}

/// The index of the first key equal to `k`, or -1 when none is.
pub open spec fn find_key(keys: Seq<Seq<char>>, k: Seq<char>) -> int
    decreases keys.len(),
{
    if keys.len() == 0 {
        -1
    } else if keys[0] == k {
        0
    } else {
        let r = find_key(keys.drop_first(), k);
        if r < 0 {
            -1
        } else {
            r + 1
        }
    }
}

/// `find_key` lands exactly on the first match: scanning forward past
/// non-matches up to a match (or to the end) fixes its value.
pub proof fn lemma_find_key_at(keys: Seq<Seq<char>>, k: Seq<char>, i: int)
    requires
        0 <= i <= keys.len(),
        forall|j: int| 0 <= j < i ==> keys[j] != k,
        i < keys.len() ==> keys[i] == k,
    ensures
        find_key(keys, k) == if i == keys.len() {
            -1
        } else {
            i
        },
    decreases keys.len(),
{
    if keys.len() == 0 {
    } else if keys[0] == k {
        assert(i == 0);
    } else {
        assert(i >= 1);
        let rest = keys.drop_first();
        assert(forall|j: int| 0 <= j < i - 1 ==> rest[j] != k);
        lemma_find_key_at(rest, k, i - 1);
    }
}

/// Where `find_key` points, the key stands; where it is negative, the key
/// is absent.
pub proof fn lemma_find_key_props(keys: Seq<Seq<char>>, k: Seq<char>)
    ensures
        find_key(keys, k) >= 0 ==> find_key(keys, k) < keys.len() && keys[find_key(keys, k)] == k,
        find_key(keys, k) < 0 ==> forall|j: int| 0 <= j < keys.len() ==> keys[j] != k,
        find_key(keys, k) >= 0 ==> forall|j: int| 0 <= j < find_key(keys, k) ==> keys[j] != k,
    decreases keys.len(),
{
    if keys.len() == 0 {
    } else if keys[0] == k {
    } else {
        let rest = keys.drop_first();
        lemma_find_key_props(rest, k);
        assert(forall|j: int| 0 <= j < rest.len() ==> rest[j] == keys[j + 1]);
        if find_key(keys, k) < 0 {
            assert forall|j: int| 0 <= j < keys.len() implies keys[j] != k by {
                if j >= 1 {
                    assert(rest[j - 1] != k);
                }
            }
        } else {
            assert forall|j: int| 0 <= j < find_key(keys, k) implies keys[j] != k by {
                if j >= 1 {
                    assert(rest[j - 1] != k);
                }
            }
        }
    }
}

/// Appending a key leaves earlier finds alone and makes the new key
/// findable at the end.
pub proof fn lemma_find_key_push(keys: Seq<Seq<char>>, x: Seq<char>, k: Seq<char>)
    ensures
        find_key(keys.push(x), k) == if find_key(keys, k) >= 0 {
            find_key(keys, k)
        } else if x == k {
            keys.len() as int
        } else {
            -1
        },
    decreases keys.len(),
{
    if keys.len() == 0 {
        assert(keys.push(x)[0] == x);
        assert(keys.push(x).drop_first() =~= Seq::<Seq<char>>::empty());
        assert(find_key(keys.push(x).drop_first(), k) == -1);
        if x == k {
            assert(find_key(keys.push(x), k) == 0);
        } else {
            assert(keys.push(x)[0] != k);
            assert(find_key(keys.push(x), k) == -1);
        }
    } else {
        assert(keys.push(x)[0] == keys[0]);
        assert(keys.push(x).drop_first() =~= keys.drop_first().push(x));
        lemma_find_key_push(keys.drop_first(), x, k);
    }
}

/// The aggregated result: the page URL discovery ran against, and one
/// entry per probed mirror URL, in first-insertion order, each URL once.
pub struct Report {
    pub page_url: String,
    pub keys: Vec<String>,
    pub entries: Vec<ReportEntry>,
}

impl Report {
    /// The mirror URLs, in entry order.
    pub open spec fn keys_view(&self) -> Seq<Seq<char>> {
        str_views(self.keys@)
    }

    /// The entries, in entry order.
    pub open spec fn entry_views(&self) -> Seq<ReportEntryV> {
        self.entries@.map_values(|e: ReportEntry| e@)
    }

    /// Well-formed: one entry per key, and no URL keyed twice.
    pub open spec fn wf(&self) -> bool {
        &&& self.keys@.len() == self.entries@.len()
        &&& forall|i: int, j: int|
            0 <= i < j < self.keys@.len() ==> self.keys_view()[i] != self.keys_view()[j]
    }

    /// Whether a URL is keyed.
    pub open spec fn contains_url(&self, k: Seq<char>) -> bool {
        find_key(self.keys_view(), k) >= 0
    }

    /// An empty report for a page URL.
    pub fn new(page_url: String) -> (r: Report)
        ensures
            r.wf(),
            r.page_url@ == page_url@,
            r.keys@.len() == 0,
            r.entries@.len() == 0,
            r.keys_view() =~= Seq::<Seq<char>>::empty(),
            r.entry_views() =~= Seq::<ReportEntryV>::empty(),
    {
        let r = Report { page_url, keys: Vec::new(), entries: Vec::new() };
        proof {
            assert(r.keys_view() =~= Seq::<Seq<char>>::empty());
            assert(r.entry_views() =~= Seq::<ReportEntryV>::empty());
        }
        r
    }

    /// The index of a URL's entry, when it has one.
    pub fn find_index(&self, url: &String) -> (r: Option<usize>)
        ensures
            match r {
                Some(i) => find_key(self.keys_view(), url@) == i && i < self.keys@.len()
                    && self.keys_view()[i as int] == url@,
                None => find_key(self.keys_view(), url@) == -1,
            },
    {
        let mut i: usize = 0;
        while i < self.keys.len()
            invariant
                0 <= i <= self.keys@.len(),
                forall|j: int| 0 <= j < i ==> self.keys_view()[j] != url@,
            decreases self.keys@.len() - i,
        {
            if self.keys[i] == *url {
                proof {
                    assert(self.keys_view()[i as int] == url@);
                    lemma_find_key_at(self.keys_view(), url@, i as int);
                }
                return Some(i);
            }
            i = i + 1;
        }
        proof {
            lemma_find_key_at(self.keys_view(), url@, self.keys@.len() as int);
        }
        None
    }

    /// Inserts the placeholder entry for a URL: a new key goes to the end,
    /// an existing key keeps its place and its entry is replaced (last
    /// write wins).
    pub fn upsert_placeholder(&mut self, url: &String, domain_label: String, country: String)
        requires
            old(self).wf(),
        ensures
            final(self).wf(),
            final(self).page_url == old(self).page_url,
            ({
                let i = find_key(old(self).keys_view(), url@);
                let fresh = placeholder_entry(domain_label@, country@);
                if i >= 0 {
                    final(self).keys_view() == old(self).keys_view() && final(self).entry_views()
                        == old(self).entry_views().update(i, fresh)
                } else {
                    final(self).keys_view() == old(self).keys_view().push(url@)
                        && final(self).entry_views() == old(self).entry_views().push(fresh)
                }
            }),
    {
        let entry = ReportEntry { domain_label, country, outcome: None };
        let found = self.find_index(url);
        match found {
            Some(i) => {
                let ghost prev = self.entries@;
                self.entries.set(i, entry);
                proof {
                    assert(self.entry_views() =~= old(self).entry_views().update(
                        i as int,
                        placeholder_entry(
                            self.entries@[i as int].domain_label@,
                            self.entries@[i as int].country@,
                        ),
                    ));
                }
            },
            None => {
                self.keys.push(url.clone());
                self.entries.push(entry);
                proof {
                    assert(self.keys_view() =~= old(self).keys_view().push(url@));
                    assert(self.entry_views() =~= old(self).entry_views().push(
                        self.entries@.last()@,
                    ));
                    lemma_find_key_props(old(self).keys_view(), url@);
                    assert forall|i: int, j: int|
                        0 <= i < j < self.keys@.len() implies self.keys_view()[i]
                        != self.keys_view()[j] by {
                        if j < old(self).keys@.len() {
                        } else {
                            assert(self.keys_view()[j] == url@);
                            assert(self.keys_view()[i] == old(self).keys_view()[i]);
                        }
                    }
                }
            },
        }
    }

    /// Records the outcome of a probed URL on its entry, keeping the
    /// entry's labels and every other entry as they were.
    pub fn set_outcome(&mut self, url: &String, outcome: ProbeOutcome)
        requires
            old(self).wf(),
            old(self).contains_url(url@),
        ensures
            final(self).wf(),
            final(self).page_url == old(self).page_url,
            final(self).keys_view() == old(self).keys_view(),
            ({
                let i = find_key(old(self).keys_view(), url@);
                let was = old(self).entry_views()[i];
                final(self).entry_views() == old(self).entry_views().update(
                    i,
                    ReportEntryV {
                        domain_label: was.domain_label,
                        country: was.country,
                        outcome: Some(outcome),
                    },
                )
            }),
    {
        let found = self.find_index(url);
        match found {
            Some(i) => {
                let e = &self.entries[i];
                let updated = ReportEntry {
                    domain_label: e.domain_label.clone(),
                    country: e.country.clone(),
                    outcome: Some(outcome),
                };
                self.entries.set(i, updated);
                proof {
                    assert(self.entry_views() =~= old(self).entry_views().update(
                        i as int,
                        self.entries@[i as int]@,
                    ));
                }
            },
            None => {
                proof {
                    assert(false);
                }
            },
        }
    }

    /// How many mirrors are keyed.
    pub fn entry_count(&self) -> (r: usize)
        requires
            self.wf(),
        ensures
            r == self.keys@.len(),
    {
        self.keys.len()
    }

    /// The URL keyed at an index.
    pub fn key_at(&self, i: usize) -> (r: &String)
        requires
            self.wf(),
            i < self.keys@.len(),
        ensures
            r@ == self.keys_view()[i as int],
    {
        &self.keys[i]
    }

    /// The entry at an index.
    pub fn entry_at(&self, i: usize) -> (r: &ReportEntry)
        requires
            self.wf(),
            i < self.entries@.len(),
        ensures
            r@ == self.entry_views()[i as int],
    {
        &self.entries[i]
    }
}

} // verus!
