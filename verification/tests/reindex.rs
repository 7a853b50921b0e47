use petrel_mime::reindex::{
    CheckpointOutcome, CheckpointRetry, CheckpointStep, RemainderWalk, SliceOutcome,
    StartupPass, StartupStep, WalkStep, STARTUP_SLICES,
};

#[test]
fn the_startup_pass_takes_four_slices_and_hands_over() {
    let mut pass = StartupPass::new();
    let mut slices = 0;
    while pass.wants_slice() {
        let step = pass.step(SliceOutcome::Ran { rewritten: 3, finished: false });
        assert_eq!(step, StartupStep::Pause);
        slices += 1;
    }
    assert_eq!(slices, STARTUP_SLICES);
    assert_eq!(pass.hand_over(), Some(12));
}

#[test]
fn a_startup_pass_that_rewrote_nothing_hands_over_quietly() {
    let mut pass = StartupPass::new();
    while pass.wants_slice() {
        pass.step(SliceOutcome::Ran { rewritten: 0, finished: false });
    }
    assert_eq!(pass.hand_over(), None);
}

#[test]
fn a_small_mailbox_finishes_during_startup() {
    let mut pass = StartupPass::new();
    assert_eq!(
        pass.step(SliceOutcome::Ran { rewritten: 5, finished: false }),
        StartupStep::Pause
    );
    assert_eq!(
        pass.step(SliceOutcome::Ran { rewritten: 2, finished: true }),
        StartupStep::Finish { rewritten: 7, announce: true }
    );
}

#[test]
fn a_stop_or_a_failure_abandons_the_startup_pass() {
    let mut pass = StartupPass::new();
    assert_eq!(pass.step(SliceOutcome::Stopped), StartupStep::Abandon);
    assert_eq!(pass.step(SliceOutcome::Failed), StartupStep::Abandon);
    assert!(pass.wants_slice());
}

#[test]
fn the_walk_checkpoints_every_two_thousand_rewritten_rows() {
    let mut walk = RemainderWalk::new();
    let mut checkpoints = 0;
    for _ in 0..10 {
        match walk.step(SliceOutcome::Ran { rewritten: 250, finished: false }) {
            WalkStep::Continue { checkpoint, nap_ms } => {
                assert_eq!(nap_ms, 200);
                if checkpoint {
                    checkpoints += 1;
                }
            }
            other => panic!("unexpected {other:?}"),
        }
    }
    assert_eq!(checkpoints, 1);
}

#[test]
fn an_idle_slice_naps_briefly() {
    let mut walk = RemainderWalk::new();
    assert_eq!(
        walk.step(SliceOutcome::Ran { rewritten: 0, finished: false }),
        WalkStep::Continue { checkpoint: false, nap_ms: 50 }
    );
}

#[test]
fn the_walk_finishes_with_the_saturated_total() {
    let mut walk = RemainderWalk::new();
    walk.step(SliceOutcome::Ran { rewritten: usize::MAX, finished: false });
    assert_eq!(
        walk.step(SliceOutcome::Ran { rewritten: 1, finished: true }),
        WalkStep::Finish { rewritten: usize::MAX, announce: true }
    );
    let mut quiet = RemainderWalk::new();
    assert_eq!(
        quiet.step(SliceOutcome::Ran { rewritten: 0, finished: true }),
        WalkStep::Finish { rewritten: 0, announce: false }
    );
    assert_eq!(quiet.step(SliceOutcome::Stopped), WalkStep::Abandon);
}

#[test]
fn a_busy_log_is_retried_twenty_times_at_most() {
    let mut retry = CheckpointRetry::new();
    let mut attempts = 0;
    while retry.may_attempt() {
        assert_eq!(retry.step(CheckpointOutcome::Busy), CheckpointStep::Wait);
        attempts += 1;
    }
    assert_eq!(attempts, 20);
    let mut once = CheckpointRetry::new();
    assert_eq!(once.step(CheckpointOutcome::Done), CheckpointStep::Report);
    assert_eq!(once.step(CheckpointOutcome::Failed), CheckpointStep::Report);
}
