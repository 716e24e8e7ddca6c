//! Signals that callbacks raise for the run around them.

use vstd::prelude::*;

use crate::error::SimError;

verus! {

/// A pending request to stop, and the first fault that a callback could not
/// return.
#[derive(Debug)]
pub struct RunSignals<F> {
    pub stop_requested: bool,
    pub runtime_fault: Option<SimError<F>>,
}

impl<F> RunSignals<F> {
    pub fn new() -> (r: Self)
        ensures
            !r.stop_requested,
            r.runtime_fault is None,
    {
        RunSignals { stop_requested: false, runtime_fault: None }
    }
}

/// Asks the running simulation to stop at its next checkpoint.
pub fn request_stop<F>(signals: &mut RunSignals<F>)
    ensures
        final(signals).stop_requested,
        final(signals).runtime_fault == old(signals).runtime_fault,
{
    signals.stop_requested = true;
}

/// Reads and clears the request to stop.
pub fn take_stop_requested<F>(signals: &mut RunSignals<F>) -> (r: bool)
    ensures
        r == old(signals).stop_requested,
        !final(signals).stop_requested,
        final(signals).runtime_fault == old(signals).runtime_fault,
{
    let r: bool = signals.stop_requested;
    signals.stop_requested = false;
    r
}

/// Clears what an earlier run has left.
pub fn clear_stop_requested<F>(signals: &mut RunSignals<F>)
    ensures
        !final(signals).stop_requested,
        final(signals).runtime_fault is None,
{
    signals.stop_requested = false;
    signals.runtime_fault = None;
}

/// Records a fault and asks the run to stop; the first fault stays.
pub fn record_runtime_fault<F>(signals: &mut RunSignals<F>, err: SimError<F>)
    ensures
        final(signals).stop_requested,
        final(signals).runtime_fault == (match old(signals).runtime_fault {
            Some(first) => Some(first),
            None => Some(err),
        }),
{
    if signals.runtime_fault.is_none() {
        signals.runtime_fault = Some(err);
    }
    request_stop(signals);
}

/// Takes the recorded fault.
pub fn take_runtime_fault<F>(signals: &mut RunSignals<F>) -> (r: Option<SimError<F>>)
    ensures
        r == old(signals).runtime_fault,
        final(signals).runtime_fault is None,
        final(signals).stop_requested == old(signals).stop_requested,
{
    signals.runtime_fault.take()
}

} // verus!
