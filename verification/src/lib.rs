//! Verified core of a download-mirror reachability checker.
//!
//! The library discovers mirror records from the markup of a mirror-list
//! page, filters them by country and by an optional cap, and drives the
//! bookkeeping of a concurrent probing run: progress counters, a keyed
//! result report, and the classification of each probe's outcome.
//! Fetching pages, issuing probes and writing the report file are left to
//! the surrounding program; every decision about what those produce and
//! how it is accounted for is made — and proved — here.

pub mod mirror;
pub mod outcome;
pub mod probe;
pub mod report;
pub mod text;
