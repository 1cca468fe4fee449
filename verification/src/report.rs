//! The progress reporter's decision logic. A single display task consumes
//! a stream of these events while hash-verification workers run; each event
//! advances the processed count and decides whether the display loop ends.

use vstd::prelude::*;

verus! {

/// One event on the hash verifier's progress stream.
pub enum HashingUpdate {
    /// One original's whole group was processed.
    Completed,
    /// Nothing finished, but the display line should be repainted (a
    /// mismatch was just found).
    Refresh,
    /// All workers are done; the display loop must end.
    Done,
}

/// Folds one event into the display state: the count of processed groups
/// after the event, and whether the display loop stops.
pub fn report_step(processed: usize, update: &HashingUpdate) -> (r: (usize, bool))
    requires
        processed < usize::MAX,
    ensures
        r.0 == (match *update {
            HashingUpdate::Completed => processed + 1,
            _ => processed as int,
        }),
        r.1 == (*update is Done),
{
    match update {
        HashingUpdate::Completed => (processed + 1, false),
        HashingUpdate::Refresh => (processed, false),
        HashingUpdate::Done => (processed, true),
    }
}

} // verus!
