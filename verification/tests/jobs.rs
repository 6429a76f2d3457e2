use meetings::jobs::{CancelFlag, MeetingJobs};

#[test]
fn a_registered_job_can_be_cancelled() {
    let mut jobs = MeetingJobs::default();
    let flag = jobs.register("a");
    assert!(!jobs.is_cancelled(flag));
    assert!(jobs.cancel("a"));
    assert!(jobs.is_cancelled(flag));
    assert!(jobs.cancel("a"));
    assert!(jobs.is_cancelled(flag));
}

#[test]
fn an_unknown_job_cannot_be_cancelled() {
    let mut jobs = MeetingJobs::new();
    assert!(!jobs.cancel("a"));
    let flag = jobs.register("b");
    assert!(!jobs.cancel("a"));
    assert!(!jobs.is_cancelled(flag));
}

#[test]
fn a_job_that_is_done_cannot_be_cancelled() {
    let mut jobs = MeetingJobs::new();
    let flag = jobs.register("a");
    jobs.done("a");
    assert!(!jobs.cancel("a"));
    assert!(!jobs.is_cancelled(flag));
    jobs.done("a");
    jobs.done("never");
}

#[test]
fn a_flag_outlives_its_job() {
    let mut jobs = MeetingJobs::new();
    let flag = jobs.register("a");
    jobs.cancel("a");
    jobs.done("a");
    assert!(jobs.is_cancelled(flag));
}

#[test]
fn registering_again_replaces_the_flag() {
    let mut jobs = MeetingJobs::new();
    let old = jobs.register("a");
    let new = jobs.register("a");
    assert_ne!(old, new);
    assert!(jobs.cancel("a"));
    assert!(!jobs.is_cancelled(old));
    assert!(jobs.is_cancelled(new));
}

#[test]
fn jobs_do_not_affect_each_other() {
    let mut jobs = MeetingJobs::new();
    let a = jobs.register("a");
    let b = jobs.register("b");
    assert!(jobs.cancel("b"));
    assert!(!jobs.is_cancelled(a));
    assert!(jobs.is_cancelled(b));
    jobs.done("b");
    assert!(jobs.cancel("a"));
    assert!(jobs.is_cancelled(a));
}

#[test]
fn an_unknown_flag_is_not_set() {
    assert!(!MeetingJobs::new().is_cancelled(CancelFlag { slot: 3 }));
}
