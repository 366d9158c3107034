//! Bookkeeping of a probing run: one task per discovered mirror, an
//! optional bound on how many probes are in flight at once, counters
//! incremented exactly once per completed task, and the two-phase result
//! report. The waiting itself (HTTP, admission) happens outside; every
//! decision and every state change is made here.

use vstd::prelude::*;

use crate::mirror::MirrorRecord;
use crate::outcome::{ProbeOutcome, is_success, is_reachable};
use crate::report::{Report, ReportEntryV, find_key, placeholder_entry, lemma_find_key_push};

verus! {

/// Progress of a run: how many probes succeeded, how many failed, and how
/// many mirrors there are in all. `total` is fixed when the run is built.
#[derive(Clone, Copy, PartialEq, Eq, Structural, Debug)]
pub struct ProgressCounters {
    pub succeeded: usize,
    pub failed: usize,
    pub total: usize,
}

/// The state of one probing run.
pub struct ProbeRun {
    pub records: Vec<MirrorRecord>,
    pub max_in_flight: Option<usize>,
    pub counters: ProgressCounters,
    pub report: Report,
    pub submitted: usize,
    pub started: usize,
}

impl ProbeRun {
    /// How many tasks have completed.
    pub open spec fn completed(&self) -> int {
        self.counters.succeeded + self.counters.failed
    }

    /// How many probes are in flight now.
    pub open spec fn in_flight(&self) -> int {
        self.started - self.completed()
    }

    /// The URL of one record.
    pub open spec fn url_at(&self, j: int) -> Seq<char> {
        self.records@[j].url@
    }

    /// The key at one report index is the URL of some submitted record.
    pub open spec fn key_covered(&self, i: int) -> bool {
        exists|j: int| 0 <= j < self.submitted && self.url_at(j) == self.report.keys_view()[i]
    }

    /// The run's invariant: counts are consistent, the in-flight count
    /// respects the limit, and the report keys are exactly the URLs of
    /// the submitted records, each keyed once.
    pub open spec fn inv(&self) -> bool {
        &&& self.counters.total == self.records@.len()
        &&& self.submitted <= self.records@.len()
        &&& self.started <= self.submitted
        &&& 0 <= self.completed() <= self.started
        &&& match self.max_in_flight {
            Some(c) => c >= 1 && self.in_flight() <= c,
            None => true,
        }
        &&& self.report.wf()
        &&& forall|j: int|
            0 <= j < self.submitted ==> self.report.contains_url(#[trigger] self.url_at(j))
        &&& forall|i: int|
            0 <= i < self.report.keys_view().len() ==> #[trigger] self.key_covered(i)
    }

    /// When records and report keys are unchanged and no submission was
    /// withdrawn, the key-coverage part of the invariant carries over.
    proof fn lemma_keys_covered_from(&self, pre: ProbeRun)
        requires
            pre.inv(),
            self.records@ == pre.records@,
            self.report.keys_view() == pre.report.keys_view(),
            self.submitted >= pre.submitted,
        ensures
            forall|i: int|
                0 <= i < self.report.keys_view().len() ==> #[trigger] self.key_covered(i),
            forall|j: int|
                0 <= j < pre.submitted ==> self.report.contains_url(#[trigger] self.url_at(j)),
    {
        assert forall|i: int|
            0 <= i < self.report.keys_view().len() implies #[trigger] self.key_covered(i) by {
            assert(pre.report.keys_view()[i] == self.report.keys_view()[i]);
            assert(pre.key_covered(i));
            let j0 = choose|j: int|
                0 <= j < pre.submitted && pre.url_at(j) == pre.report.keys_view()[i];
            assert(self.url_at(j0) == pre.url_at(j0));
            assert(0 <= j0 < self.submitted && self.url_at(j0) == self.report.keys_view()[i]);
        }
        assert forall|j: int| 0 <= j < pre.submitted implies self.report.contains_url(
            #[trigger] self.url_at(j),
        ) by {
            assert(pre.report.contains_url(pre.url_at(j)));
            assert(self.url_at(j) == pre.url_at(j));
        }
    }

    /// A fresh run over the discovered records: nothing submitted, nothing
    /// started, counters zero but for the fixed total, an empty report.
    pub fn new(records: Vec<MirrorRecord>, max_in_flight: Option<usize>, page_url: String) -> (r:
        ProbeRun)
        requires
            max_in_flight matches Some(c) ==> c >= 1,
        ensures
            r.inv(),
            r.records@ == records@,
            r.max_in_flight == max_in_flight,
            r.counters.succeeded == 0,
            r.counters.failed == 0,
            r.counters.total == records@.len(),
            r.submitted == 0,
            r.started == 0,
            r.report.page_url@ == page_url@,
            r.report.keys_view().len() == 0,
    {
        let total = records.len();
        let report = Report::new(page_url);
        ProbeRun {
            records,
            max_in_flight,
            counters: ProgressCounters { succeeded: 0, failed: 0, total },
            report,
            submitted: 0,
            started: 0,
        }
    }

    /// Submits the next record: its placeholder entry goes into the
    /// report before any probe of it starts; a duplicate URL keeps its
    /// place and is overwritten.
    pub fn submit_next(&mut self)
        requires
            old(self).inv(),
            old(self).submitted < old(self).records@.len(),
        ensures
            final(self).inv(),
            final(self).submitted == old(self).submitted + 1,
            final(self).records@ == old(self).records@,
            final(self).counters == old(self).counters,
            final(self).started == old(self).started,
            final(self).max_in_flight == old(self).max_in_flight,
            final(self).report.page_url == old(self).report.page_url,
            ({
                let rec = old(self).records@[old(self).submitted as int]@;
                let i = find_key(old(self).report.keys_view(), rec.url);
                let fresh = placeholder_entry(rec.domain_label, rec.country);
                if i >= 0 {
                    final(self).report.keys_view() == old(self).report.keys_view()
                        && final(self).report.entry_views()
                        == old(self).report.entry_views().update(i, fresh)
                } else {
                    final(self).report.keys_view() == old(self).report.keys_view().push(rec.url)
                        && final(self).report.entry_views() == old(self).report.entry_views().push(
                        fresh,
                    )
                }
            }),
    {
        let idx = self.submitted;
        let url = self.records[idx].url.clone();
        let domain_label = self.records[idx].domain_label.clone();
        let country = self.records[idx].country.clone();
        self.report.upsert_placeholder(&url, domain_label, country);
        self.submitted = idx + 1;
        proof {
            let u = old(self).url_at(old(self).submitted as int);
            let oldkeys = old(self).report.keys_view();
            assert forall|j: int|
                0 <= j < self.submitted implies self.report.contains_url(
                #[trigger] self.url_at(j),
            ) by {
                if find_key(oldkeys, u) >= 0 {
                    if j == old(self).submitted {
                        assert(self.url_at(j) == u);
                    } else {
                        assert(old(self).report.contains_url(old(self).url_at(j)));
                    }
                } else {
                    lemma_find_key_push(oldkeys, u, self.url_at(j));
                    if j == old(self).submitted {
                        assert(self.url_at(j) == u);
                    } else {
                        assert(old(self).report.contains_url(old(self).url_at(j)));
                    }
                }
            }
            assert forall|i: int|
                0 <= i < self.report.keys_view().len() implies #[trigger] self.key_covered(
                i,
            ) by {
                if i < oldkeys.len() {
                    assert(self.report.keys_view()[i] == oldkeys[i]);
                    assert(old(self).key_covered(i));
                    let j0 = choose|j: int|
                        0 <= j < old(self).submitted && old(self).url_at(j) == oldkeys[i];
                    assert(self.url_at(j0) == old(self).url_at(j0));
                    assert(0 <= j0 < self.submitted && self.url_at(j0)
                        == self.report.keys_view()[i]);
                } else {
                    assert(self.report.keys_view()[i] == u);
                    assert(self.url_at(old(self).submitted as int)
                        == self.report.keys_view()[i]);
                }
            }
        }
    }

    /// The admission decision for one submitted task: without a limit it
    /// may always start; with a limit it may start exactly when fewer
    /// probes are in flight than the limit allows.
    pub fn try_begin(&mut self) -> (r: bool)
        requires
            old(self).inv(),
            old(self).started < old(self).submitted,
        ensures
            final(self).inv(),
            r == (match old(self).max_in_flight {
                None => true,
                Some(c) => old(self).in_flight() < c,
            }),
            r ==> final(self).started == old(self).started + 1,
            !r ==> final(self).started == old(self).started,
            final(self).records@ == old(self).records@,
            final(self).counters == old(self).counters,
            final(self).submitted == old(self).submitted,
            final(self).max_in_flight == old(self).max_in_flight,
            final(self).report == old(self).report,
    {
        let may_start: bool = match self.max_in_flight {
            None => true,
            Some(limit) => {
                let done = self.counters.succeeded + self.counters.failed;
                self.started - done < limit
            },
        };
        if may_start {
            self.started = self.started + 1;
        }
        proof {
            self.lemma_keys_covered_from(*old(self));
        }
        may_start
    }

    /// Books the outcome of one probed record: exactly one counter is
    /// incremented — `succeeded` for a reachable outcome, `failed` for
    /// any other — and the record's report entry gets the outcome.
    pub fn complete(&mut self, index: usize, outcome: ProbeOutcome)
        requires
            old(self).inv(),
            index < old(self).submitted,
            old(self).completed() < old(self).started,
        ensures
            final(self).inv(),
            final(self).records@ == old(self).records@,
            final(self).submitted == old(self).submitted,
            final(self).started == old(self).started,
            final(self).max_in_flight == old(self).max_in_flight,
            final(self).counters.total == old(self).counters.total,
            is_success(outcome) ==> final(self).counters.succeeded == old(self).counters.succeeded
                + 1 && final(self).counters.failed == old(self).counters.failed,
            !is_success(outcome) ==> final(self).counters.failed == old(self).counters.failed + 1
                && final(self).counters.succeeded == old(self).counters.succeeded,
            final(self).report.page_url == old(self).report.page_url,
            final(self).report.keys_view() == old(self).report.keys_view(),
            ({
                let u = old(self).url_at(index as int);
                let i = find_key(old(self).report.keys_view(), u);
                let was = old(self).report.entry_views()[i];
                final(self).report.entry_views() == old(self).report.entry_views().update(
                    i,
                    ReportEntryV {
                        domain_label: was.domain_label,
                        country: was.country,
                        outcome: Some(outcome),
                    },
                )
            }),
    {
        proof {
            assert(old(self).report.contains_url(old(self).url_at(index as int)));
        }
        let url = self.records[index].url.clone();
        if is_reachable(&outcome) {
            self.counters.succeeded = self.counters.succeeded + 1;
        } else {
            self.counters.failed = self.counters.failed + 1;
        }
        self.report.set_outcome(&url, outcome);
        proof {
            assert forall|j: int|
                0 <= j < self.submitted implies self.report.contains_url(
                #[trigger] self.url_at(j),
            ) by {
                assert(old(self).report.contains_url(old(self).url_at(j)));
            }
            self.lemma_keys_covered_from(*old(self));
        }
    }

    /// How many mirrors are still unaccounted for.
    pub fn remaining(&self) -> (r: usize)
        requires
            self.inv(),
            self.submitted == self.records@.len(),
        ensures
            r == self.counters.total - self.completed(),
    {
        self.counters.total - (self.counters.succeeded + self.counters.failed)
    }
}

/// At every reachable state of a run, no more probes are accounted for
/// than mirrors exist: `succeeded + failed` never exceeds the total.
pub proof fn lemma_counters_bounded(run: ProbeRun)
    requires
        run.inv(),
    ensures
        run.counters.succeeded + run.counters.failed <= run.counters.total,
{
}

/// With a concurrency limit, never more probes are in flight than the
/// limit allows, in every reachable state of a run.
pub proof fn lemma_in_flight_bounded(run: ProbeRun, c: usize)
    requires
        run.inv(),
        run.max_in_flight == Some(c),
    ensures
        run.in_flight() <= c,
{
}

/// When every submitted task has completed, the counters add up to the
/// total, which is the number of discovered records, and every record's
/// URL is keyed in the report exactly once — duplicates collapsed, no
/// key from anywhere else.
pub proof fn lemma_final_accounting(run: ProbeRun)
    requires
        run.inv(),
        run.submitted == run.records@.len(),
        run.completed() == run.submitted as int,
    ensures
        run.counters.succeeded + run.counters.failed == run.counters.total,
        run.counters.total == run.records@.len(),
        forall|j: int|
            0 <= j < run.records@.len() ==> run.report.contains_url(#[trigger] run.url_at(j)),
        forall|i1: int, i2: int|
            0 <= i1 < i2 < run.report.keys_view().len() ==> run.report.keys_view()[i1]
                != run.report.keys_view()[i2],
        forall|i: int|
            0 <= i < run.report.keys_view().len() ==> #[trigger] run.key_covered(i),
{
}

} // verus!
