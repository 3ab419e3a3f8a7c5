//! Failure composition for the run pipeline.
//!
//! The pipeline runs strictly in sequence: execute the wrapped command,
//! optionally persist a job record, then send a notification. A persistence
//! failure is recorded but does not stop the notification stage; the final
//! process exit status must still reflect it.
use vstd::prelude::*;

verus! {

/// Outcome of the optional persistence stage.
#[derive(Clone, Copy, Debug, PartialEq, Eq, Structural)]
pub enum PersistOutcome {
    /// No database path was supplied, so no append was attempted.
    Skipped,
    /// The job record was appended successfully.
    Saved,
    /// The append failed; the pipeline still went on to notify.
    Failed,
}

/// The process exit code that reflects both independent stage outcomes:
/// zero exactly when the persistence stage (if attempted) and the
/// notification stage both succeeded.
pub fn final_exit_code(persist: PersistOutcome, mail_sent: bool) -> (r: i32)
    ensures
        r == 0 <==> (persist != PersistOutcome::Failed && mail_sent),
        r == 0 || r == 1,
{
    if persist == PersistOutcome::Failed || !mail_sent {
        1
    } else {
        0
    }
}

} // verus!
