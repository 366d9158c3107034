//! Probe outcomes: what one HTTP GET against a mirror produced, and how
//! it is classified and counted.

use vstd::prelude::*;

verus! {

/// The classified result of one probe. Only a response with status 200
/// counts as reachable; any other received status keeps its code for
/// diagnostics; a transport failure carries no code.
#[derive(Clone, Copy, PartialEq, Eq, Structural, Debug)]
pub enum ProbeOutcome {
    Success { status_code: u16 },
    HttpError { status_code: u16 },
    TransportError,
}

/// What the HTTP layer handed back for one probe: a response with a
/// status code, or a transport-level failure (connection, TLS, timeout).
#[derive(Clone, Copy, PartialEq, Eq, Structural, Debug)]
pub enum FetchResult {
    Status { code: u16 },
    TransportFailure,
}

/// Classification of a fetch result: status 200 is `Success`, any other
/// received status is `HttpError` with that code, a transport failure is
/// `TransportError`.
pub open spec fn classified(r: FetchResult) -> ProbeOutcome {
    match r {
        FetchResult::Status { code } => if code == 200 {
            ProbeOutcome::Success { status_code: code }
        } else {
            ProbeOutcome::HttpError { status_code: code }
        },
        FetchResult::TransportFailure => ProbeOutcome::TransportError,
    }
}

/// Whether an outcome counts as reachable.
pub open spec fn is_success(o: ProbeOutcome) -> bool {
    o is Success
}

/// Classifies a fetch result, as the classification model says.
pub fn classify(r: &FetchResult) -> (o: ProbeOutcome)
    ensures
        o == classified(*r),
{
    match r {
        FetchResult::Status { code } => {
            if *code == 200 {
                ProbeOutcome::Success { status_code: *code }
            } else {
                ProbeOutcome::HttpError { status_code: *code }
            }
        },
        FetchResult::TransportFailure => ProbeOutcome::TransportError,
    }
}

/// Whether the outcome is a reachable one.
pub fn is_reachable(o: &ProbeOutcome) -> (r: bool)
    ensures
        r == is_success(*o),
{
    match o {
        ProbeOutcome::Success { .. } => true,
        _ => false,
    }
}

/// The `status` flag of the report: 1 for a reachable mirror, 0 otherwise.
pub fn status_flag(o: &ProbeOutcome) -> (r: u8)
    ensures
        r == (if is_success(*o) {
            1u8
        } else {
            0u8
        }),
{
    match o {
        ProbeOutcome::Success { .. } => 1,
        _ => 0,
    }
}

/// The status code the outcome carries: present exactly when a response
/// was received.
pub fn outcome_code(o: &ProbeOutcome) -> (r: Option<u16>)
    ensures
        match *o {
            ProbeOutcome::Success { status_code } => r == Some(status_code),
            ProbeOutcome::HttpError { status_code } => r == Some(status_code),
            ProbeOutcome::TransportError => r is None,
        },
{
    match o {
        ProbeOutcome::Success { status_code } => Some(*status_code),
        ProbeOutcome::HttpError { status_code } => Some(*status_code),
        ProbeOutcome::TransportError => None,
    }
}

} // verus!
