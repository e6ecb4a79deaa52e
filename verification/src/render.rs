//! The render thread's integer bookkeeping: how it follows a change of the
//! output's delay, and how it counts underruns while draining its ring.

use vstd::prelude::*;

verus! {

/// What a render thread does when the delay asked of it differs from the
/// one it applies.
#[derive(Debug, Clone, Copy, PartialEq, Eq, Structural)]
pub enum DelayStep {
    /// The delay is unchanged.
    Keep,
    /// More head-start: re-prime, rendering silence until the ring refills.
    Reprime,
    /// Less head-start: discard this many milliseconds of the ring at once.
    Drop(u32),
}

/// Decides how to move from the applied delay to the requested one. Either
/// way the drift loop starts over after a change.
pub fn delay_step(applied_ms: u32, requested_ms: u32) -> (step: DelayStep)
    ensures
        requested_ms == applied_ms ==> step == DelayStep::Keep,
        requested_ms > applied_ms ==> step == DelayStep::Reprime,
        requested_ms < applied_ms ==> step == DelayStep::Drop((applied_ms - requested_ms) as u32),
{
    if requested_ms == applied_ms {
        DelayStep::Keep
    } else if requested_ms > applied_ms {
        DelayStep::Reprime
    } else {
        DelayStep::Drop(applied_ms - requested_ms)
    }
}

/// After popping `got` of the `wanted` samples of one chunk: a primed
/// thread that came up short counts an underrun, and one that got nothing
/// at all must prime again. The shortfall is filled with silence.
pub fn after_pop(primed: bool, got: usize, wanted: usize) -> (r: (bool, bool))
    ensures
        r.1 == (primed && got < wanted),
        r.0 == (primed && !(got < wanted && got == 0)),
{
    if got < wanted && primed {
        (got != 0, true)
    } else {
        (primed, false)
    }
}

} // verus!
