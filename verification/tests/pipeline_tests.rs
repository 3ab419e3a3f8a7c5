use poomas::pipeline::{final_exit_code, PersistOutcome};

#[test]
fn store_failure_alone_is_a_failed_run() {
    assert_ne!(final_exit_code(PersistOutcome::Failed, true), 0);
}

#[test]
fn mail_failure_alone_is_a_failed_run() {
    assert_ne!(final_exit_code(PersistOutcome::Saved, false), 0);
    assert_ne!(final_exit_code(PersistOutcome::Skipped, false), 0);
}

#[test]
fn both_failures_still_fail() {
    assert_ne!(final_exit_code(PersistOutcome::Failed, false), 0);
}

#[test]
fn success_needs_every_attempted_stage() {
    assert_eq!(final_exit_code(PersistOutcome::Saved, true), 0);
    assert_eq!(final_exit_code(PersistOutcome::Skipped, true), 0);
}
