//! Probe outcomes: what one bounded-time connect attempt against a
//! (target, port) pair established.
use vstd::prelude::*;

verus! {

/// The outcome of one probe. A definite connection error and an
/// elapsed deadline are deliberately not distinguished: both mean "not
/// open".
#[derive(Clone, Copy, Debug, PartialEq, Eq, Structural)]
pub enum ProbeOutcome {
    Open,
    ClosedOrFiltered,
}

/// Classify one probe: the port is open exactly when the connect
/// attempt finished before the deadline and the handshake succeeded.
/// Every other outcome — refusal, unreachability, or the deadline
/// firing first — folds into `ClosedOrFiltered`.
pub fn classify_probe(finished_in_time: bool, connect_ok: bool) -> (r: ProbeOutcome)
    ensures
        r == ProbeOutcome::Open <==> (finished_in_time && connect_ok),
{
    if finished_in_time && connect_ok {
        ProbeOutcome::Open
    } else {
        ProbeOutcome::ClosedOrFiltered
    }
}

} // verus!
