//! The decisions of re-extraction after an extractor change, kept apart
//! from the store, the clock and the async runtime that carry them out.
//!
//! A few newest-first slices at startup repair what is on screen and then
//! hand over, so that receiving mail does not wait behind a walk of the
//! whole mailbox; the rest is walked in the background, napping between
//! slices and checkpointing the write-ahead log as it goes. The caller
//! performs each step and reports back what happened.

use vstd::prelude::*;

verus! {

/// Rows re-extracted per slice.
pub const SLICE: usize = 250;

/// Slices the startup pass takes before handing over: a thousand newest
/// rows, enough for the inbox and not enough to delay the first probe.
pub const STARTUP_SLICES: usize = 4;

/// Rows rewritten between write-ahead-log checkpoints in the background.
pub const CHECKPOINT_EVERY: usize = 2000;

/// Attempts at a checkpoint while the log is busy.
pub const CHECKPOINT_ATTEMPTS: usize = 20;

/// What came of asking for one slice of re-extraction.
#[derive(Clone, Copy, Debug, PartialEq, Eq, Structural)]
pub enum SliceOutcome {
    /// The stop signal was up, so no slice was taken.
    Stopped,
    /// The store could not be locked or the slice failed.
    Failed,
    /// A slice ran; `finished` says the whole mailbox is now done.
    Ran { rewritten: usize, finished: bool },
}

/// What the caller does next during the startup pass.
#[derive(Clone, Copy, Debug, PartialEq, Eq, Structural)]
pub enum StartupStep {
    /// Stop here; the mailbox is not known to be done.
    Abandon,
    /// The whole mailbox is done: finish (announcing, bumping the
    /// extraction generation and checkpointing when `announce`), then report
    /// that there is nothing left to spawn.
    Finish { rewritten: usize, announce: bool },
    /// Nap briefly before the next slice.
    Pause,
}

/// What the startup pass makes of one more outcome, from `slices` taken and
/// `rows` rewritten: its new slice count and row count, and its decision. A
/// stop or a failure abandons the pass and leaves it as it was; a slice
/// that ran is counted, its rows added (held at `usize::MAX`), and the pass
/// finishes when the mailbox is done and pauses otherwise.
pub open spec fn startup_next(slices: nat, rows: nat, outcome: SliceOutcome) -> (nat, nat, StartupStep) {
    match outcome {
        SliceOutcome::Stopped | SliceOutcome::Failed => (slices, rows, StartupStep::Abandon),
        SliceOutcome::Ran { rewritten, finished } => {
            let total = saturating_sum(rows, rewritten as nat);
            (
                slices + 1,
                total,
                if finished {
                    StartupStep::Finish { rewritten: total as usize, announce: total > 0 }
                } else {
                    StartupStep::Pause
                },
            )
        },
    }
}

/// The startup pass: how many slices it has taken and how many rows they
/// rewrote.
pub struct StartupPass {
    slices: usize,
    rewritten: usize,
}

impl StartupPass {
    pub closed spec fn slices_taken(&self) -> nat {
        self.slices as nat
    }

    pub closed spec fn rewritten_so_far(&self) -> nat {
        self.rewritten as nat
    }

    pub fn new() -> (pass: Self)
        ensures
            pass.slices_taken() == 0,
            pass.rewritten_so_far() == 0,
    {
        StartupPass { slices: 0, rewritten: 0 }
    }

    /// Whether another slice is due before handing over.
    pub fn wants_slice(&self) -> (r: bool)
        ensures
            r == (self.slices_taken() < STARTUP_SLICES),
    {
        self.slices < STARTUP_SLICES
    }

    /// Decides what follows a slice; the count of rewritten rows saturates.
    pub fn step(&mut self, outcome: SliceOutcome) -> (step: StartupStep)
        requires
            old(self).slices_taken() < STARTUP_SLICES,
        ensures
            (final(self).slices_taken(), final(self).rewritten_so_far(), step) == startup_next(
                old(self).slices_taken(),
                old(self).rewritten_so_far(),
                outcome,
            ),
    {
        match outcome {
            SliceOutcome::Stopped | SliceOutcome::Failed => StartupStep::Abandon,
            SliceOutcome::Ran { rewritten, finished } => {
                self.slices = self.slices + 1;
                self.rewritten = self.rewritten.saturating_add(rewritten);
                if finished {
                    StartupStep::Finish { rewritten: self.rewritten, announce: self.rewritten > 0 }
                } else {
                    StartupStep::Pause
                }
            },
        }
    }

    /// After the last startup slice: the rows rewritten, when there were
    /// any, for the caller to announce and bump the extraction generation
    /// for; the rest of the mailbox continues in the background.
    pub fn hand_over(&self) -> (r: Option<usize>)
        ensures
            r == if self.rewritten_so_far() > 0 {
                Some(self.rewritten_so_far() as usize)
            } else {
                None
            },
    {
        if self.rewritten > 0 {
            Some(self.rewritten)
        } else {
            None
        }
    }
}

/// `a + b`, held at `usize::MAX`.
pub open spec fn saturating_sum(a: nat, b: nat) -> nat {
    if a + b > usize::MAX {
        usize::MAX as nat
    } else {
        a + b
    }
}

/// What the caller does next during the background walk.
#[derive(Clone, Copy, Debug, PartialEq, Eq, Structural)]
pub enum WalkStep {
    /// Stop here.
    Abandon,
    /// The whole mailbox is done: finish as for the startup pass.
    Finish { rewritten: usize, announce: bool },
    /// Checkpoint the log first when `checkpoint`, then nap `nap_ms`
    /// milliseconds (or until stopped) before the next slice.
    Continue { checkpoint: bool, nap_ms: u64 },
}

/// What the background walk makes of one more outcome, from `rows`
/// rewritten in all and `since` rewritten since the last checkpoint: its new
/// counts and its decision. A stop or a failure abandons the walk and leaves
/// it as it was. A slice that ran adds its rows (held at `usize::MAX`); when
/// the mailbox is done the walk finishes, and otherwise it continues, with a
/// checkpoint due (and the count since the last one reset) once that count
/// reaches `CHECKPOINT_EVERY`, and a longer nap after a slice that wrote
/// something, to leave the lock to the listing.
pub open spec fn walk_next(rows: nat, since: nat, outcome: SliceOutcome) -> (nat, nat, WalkStep) {
    match outcome {
        SliceOutcome::Stopped | SliceOutcome::Failed => (rows, since, WalkStep::Abandon),
        SliceOutcome::Ran { rewritten, finished } => {
            let total = saturating_sum(rows, rewritten as nat);
            let since_now = saturating_sum(since, rewritten as nat);
            if finished {
                (total, since, WalkStep::Finish { rewritten: total as usize, announce: total > 0 })
            } else {
                let due = since_now >= CHECKPOINT_EVERY;
                (
                    total,
                    if due {
                        0
                    } else {
                        since_now
                    },
                    WalkStep::Continue {
                        checkpoint: due,
                        nap_ms: if rewritten > 0 {
                            200
                        } else {
                            50
                        },
                    },
                )
            }
        },
    }
}

/// The background walk: rows rewritten in all, and since the last
/// checkpoint.
pub struct RemainderWalk {
    rewritten: usize,
    since_checkpoint: usize,
}

impl RemainderWalk {
    pub closed spec fn rewritten_so_far(&self) -> nat {
        self.rewritten as nat
    }

    pub closed spec fn since_checkpoint(&self) -> nat {
        self.since_checkpoint as nat
    }

    pub fn new() -> (walk: Self)
        ensures
            walk.rewritten_so_far() == 0,
            walk.since_checkpoint() == 0,
    {
        RemainderWalk { rewritten: 0, since_checkpoint: 0 }
    }

    /// Decides what follows a slice. A checkpoint falls due once enough rows
    /// have been rewritten since the last one; the nap is longer after a
    /// slice that wrote something, to leave the lock to the listing.
    pub fn step(&mut self, outcome: SliceOutcome) -> (step: WalkStep)
        ensures
            (final(self).rewritten_so_far(), final(self).since_checkpoint(), step) == walk_next(
                old(self).rewritten_so_far(),
                old(self).since_checkpoint(),
                outcome,
            ),
    {
        match outcome {
            SliceOutcome::Stopped | SliceOutcome::Failed => WalkStep::Abandon,
            SliceOutcome::Ran { rewritten, finished } => {
                self.rewritten = self.rewritten.saturating_add(rewritten);
                if finished {
                    return WalkStep::Finish {
                        rewritten: self.rewritten,
                        announce: self.rewritten > 0,
                    };
                }
                self.since_checkpoint = self.since_checkpoint.saturating_add(rewritten);
                let checkpoint = self.since_checkpoint >= CHECKPOINT_EVERY;
                if checkpoint {
                    self.since_checkpoint = 0;
                }
                let nap_ms: u64 = if rewritten > 0 {
                    200
                } else {
                    50
                };
                WalkStep::Continue { checkpoint, nap_ms }
            },
        }
    }
}

/// The rows a slice outcome rewrote: none unless the slice ran.
pub open spec fn rows_of(outcome: SliceOutcome) -> nat {
    match outcome {
        SliceOutcome::Ran { rewritten, .. } => rewritten as nat,
        _ => 0,
    }
}

/// The rows these outcomes rewrote, added up without limit.
pub open spec fn rows_sum(outcomes: Seq<SliceOutcome>) -> nat
    decreases outcomes.len(),
{
    if outcomes.len() == 0 {
        0
    } else {
        rows_of(outcomes[0]) + rows_sum(outcomes.drop_first())
    }
}

/// A count held at `usize::MAX`.
pub open spec fn capped(n: nat) -> nat {
    if n > usize::MAX {
        usize::MAX as nat
    } else {
        n
    }
}

/// The startup pass offered these outcomes in turn, as its caller drives
/// it: a slice is asked for while fewer than `STARTUP_SLICES` are taken, and
/// the first decision that is not a pause ends the pass. The decisions
/// made, and the rows counted at the end.
pub open spec fn startup_run(slices: nat, rows: nat, outcomes: Seq<SliceOutcome>) -> (
    Seq<StartupStep>,
    nat,
)
    decreases outcomes.len(),
{
    if outcomes.len() == 0 || slices >= STARTUP_SLICES {
        (Seq::empty(), rows)
    } else {
        let next = startup_next(slices, rows, outcomes[0]);
        if next.2 is Pause {
            let rest = startup_run(next.0, next.1, outcomes.drop_first());
            (seq![next.2] + rest.0, rest.1)
        } else {
            (seq![next.2], next.1)
        }
    }
}

/// The pass has run its course: it abandoned, finished, or took its last
/// slice.
pub open spec fn startup_complete(outcomes: Seq<SliceOutcome>) -> bool {
    let ds = startup_run(0, 0, outcomes).0;
    ds.len() > 0 && (!(ds.last() is Pause) || ds.len() == STARTUP_SLICES)
}

/// Whether the pass leads its caller to bump the extraction generation: by
/// finishing with an announcement, or by handing over, after its last
/// slice, rows it rewrote.
pub open spec fn startup_bumps(outcomes: Seq<SliceOutcome>) -> bool {
    let (ds, rows) = startup_run(0, 0, outcomes);
    if ds.len() == 0 {
        false
    } else {
        match ds.last() {
            StartupStep::Finish { announce, .. } => announce,
            StartupStep::Pause => rows > 0,
            StartupStep::Abandon => false,
        }
    }
}

proof fn lemma_saturating_sums_cap(a: nat, b: nat, c: nat)
    requires
        a <= usize::MAX,
    ensures
        capped(saturating_sum(a, b) + c) == capped(a + b + c),
        saturating_sum(a, b) == capped(a + b),
{
}

proof fn lemma_startup_run(slices: nat, rows: nat, outcomes: Seq<SliceOutcome>)
    requires
        rows <= usize::MAX,
    ensures
        startup_run(slices, rows, outcomes).0.len() <= outcomes.len(),
        slices <= STARTUP_SLICES ==> startup_run(slices, rows, outcomes).0.len() <= STARTUP_SLICES
            - slices,
        forall|i: int|
            0 <= i < startup_run(slices, rows, outcomes).0.len() - 1 ==> (#[trigger] startup_run(
                slices,
                rows,
                outcomes,
            ).0[i]) is Pause && outcomes[i] is Ran,
        startup_run(slices, rows, outcomes).1 == capped(
            rows + rows_sum(outcomes.take(startup_run(slices, rows, outcomes).0.len() as int)),
        ),
        startup_run(slices, rows, outcomes).1 <= usize::MAX,
        startup_run(slices, rows, outcomes).0.len() > 0 ==> (startup_run(
            slices,
            rows,
            outcomes,
        ).0.last() is Abandon <==> !(outcomes[startup_run(slices, rows, outcomes).0.len()
            - 1] is Ran)),
        startup_run(slices, rows, outcomes).0.len() > 0 ==> (startup_run(
            slices,
            rows,
            outcomes,
        ).0.last() matches StartupStep::Finish { rewritten, announce } ==> rewritten == startup_run(
            slices,
            rows,
            outcomes,
        ).1 && announce == (startup_run(slices, rows, outcomes).1 > 0)),
    decreases outcomes.len(),
{
    let (ds, r) = startup_run(slices, rows, outcomes);
    if outcomes.len() == 0 || slices >= STARTUP_SLICES {
        assert(outcomes.take(0) =~= Seq::<SliceOutcome>::empty());
    } else {
        let next = startup_next(slices, rows, outcomes[0]);
        lemma_saturating_sums_cap(rows, rows_of(outcomes[0]), 0);
        if next.2 is Pause {
            let tail = outcomes.drop_first();
            lemma_startup_run(next.0, next.1, tail);
            let rest = startup_run(next.0, next.1, tail);
            assert(ds == seq![next.2] + rest.0);
            assert(outcomes.take(ds.len() as int).drop_first() =~= tail.take(rest.0.len() as int));
            lemma_saturating_sums_cap(rows, rows_of(outcomes[0]), rows_sum(tail.take(rest.0.len() as int)));
            assert forall|i: int| 0 <= i < ds.len() - 1 implies outcomes[i] is Ran by {
                if i > 0 {
                    assert(rest.0[i - 1] is Pause);
                    assert(outcomes[i] == tail[i - 1]);
                }
            }
            let pre = outcomes.take(ds.len() as int);
            assert(pre[0] == outcomes[0]);
            assert(rows_sum(pre) == rows_of(outcomes[0]) + rows_sum(pre.drop_first()));
            if rest.0.len() > 0 {
                assert(ds.last() == rest.0.last());
                assert(outcomes[ds.len() - 1] == tail[rest.0.len() - 1]);
            }
        } else {
            let one = outcomes.take(1);
            assert(one[0] == outcomes[0]);
            assert(one.drop_first() =~= Seq::<SliceOutcome>::empty());
            assert(rows_sum(one) == rows_of(outcomes[0]) + rows_sum(one.drop_first()));
            assert(ds.len() == 1);
        }
    }
}

/// The startup pass takes at most `STARTUP_SLICES` slices and decides
/// nothing after it abandons or finishes; the rows it counts are the rows
/// its slices rewrote, held at `usize::MAX`; and, once it has run its
/// course, it leads to a bump of the extraction generation exactly when no
/// slice failed or was stopped and some slice rewrote a row.
pub proof fn law_startup_pass(outcomes: Seq<SliceOutcome>)
    ensures
        startup_run(0, 0, outcomes).0.len() <= STARTUP_SLICES,
        forall|i: int|
            0 <= i < startup_run(0, 0, outcomes).0.len() - 1 ==> (#[trigger] startup_run(
                0,
                0,
                outcomes,
            ).0[i]) is Pause,
        startup_run(0, 0, outcomes).1 == capped(
            rows_sum(outcomes.take(startup_run(0, 0, outcomes).0.len() as int)),
        ),
        startup_complete(outcomes) ==> (startup_bumps(outcomes) <==> (!(startup_run(
            0,
            0,
            outcomes,
        ).0.last() is Abandon) && rows_sum(outcomes.take(startup_run(0, 0, outcomes).0.len() as int))
            > 0)),
{
    lemma_startup_run(0, 0, outcomes);
}

/// The background walk offered these outcomes in turn, as its caller drives
/// it: the first decision that is not to continue ends it. The decisions
/// made, and the counts of rows in all and since the last checkpoint at the
/// end.
pub open spec fn walk_run(rows: nat, since: nat, outcomes: Seq<SliceOutcome>) -> (
    Seq<WalkStep>,
    nat,
    nat,
)
    decreases outcomes.len(),
{
    if outcomes.len() == 0 {
        (Seq::empty(), rows, since)
    } else {
        let next = walk_next(rows, since, outcomes[0]);
        if next.2 is Continue {
            let rest = walk_run(next.0, next.1, outcomes.drop_first());
            (seq![next.2] + rest.0, rest.1, rest.2)
        } else {
            (seq![next.2], next.0, next.1)
        }
    }
}

proof fn lemma_walk_run(rows: nat, since: nat, outcomes: Seq<SliceOutcome>)
    requires
        rows <= usize::MAX,
        since < CHECKPOINT_EVERY,
    ensures
        walk_run(rows, since, outcomes).0.len() <= outcomes.len(),
        forall|i: int|
            0 <= i < walk_run(rows, since, outcomes).0.len() - 1 ==> (#[trigger] walk_run(
                rows,
                since,
                outcomes,
            ).0[i]) is Continue,
        walk_run(rows, since, outcomes).0.len() < outcomes.len() ==> walk_run(
            rows,
            since,
            outcomes,
        ).0.len() > 0 && !(walk_run(rows, since, outcomes).0.last() is Continue),
        walk_run(rows, since, outcomes).1 == capped(
            rows + rows_sum(outcomes.take(walk_run(rows, since, outcomes).0.len() as int)),
        ),
        walk_run(rows, since, outcomes).1 <= usize::MAX,
        walk_run(rows, since, outcomes).2 < CHECKPOINT_EVERY,
        walk_run(rows, since, outcomes).0.len() > 0 ==> (walk_run(
            rows,
            since,
            outcomes,
        ).0.last() matches WalkStep::Finish { rewritten, announce } ==> rewritten == walk_run(
            rows,
            since,
            outcomes,
        ).1 && announce == (walk_run(rows, since, outcomes).1 > 0)),
    decreases outcomes.len(),
{
    let (ds, r, s) = walk_run(rows, since, outcomes);
    if outcomes.len() == 0 {
        assert(outcomes.take(0) =~= Seq::<SliceOutcome>::empty());
    } else {
        let next = walk_next(rows, since, outcomes[0]);
        lemma_saturating_sums_cap(rows, rows_of(outcomes[0]), 0);
        if next.2 is Continue {
            let tail = outcomes.drop_first();
            lemma_walk_run(next.0, next.1, tail);
            let rest = walk_run(next.0, next.1, tail);
            assert(ds == seq![next.2] + rest.0);
            assert(outcomes.take(ds.len() as int).drop_first() =~= tail.take(rest.0.len() as int));
            lemma_saturating_sums_cap(rows, rows_of(outcomes[0]), rows_sum(tail.take(rest.0.len() as int)));
            let pre = outcomes.take(ds.len() as int);
            assert(pre[0] == outcomes[0]);
            assert(rows_sum(pre) == rows_of(outcomes[0]) + rows_sum(pre.drop_first()));
            if rest.0.len() > 0 {
                assert(ds.last() == rest.0.last());
            }
        } else {
            let one = outcomes.take(1);
            assert(one[0] == outcomes[0]);
            assert(one.drop_first() =~= Seq::<SliceOutcome>::empty());
            assert(rows_sum(one) == rows_of(outcomes[0]) + rows_sum(one.drop_first()));
            assert(ds.len() == 1);
        }
    }
}

proof fn lemma_walk_prefix(rows: nat, since: nat, outcomes: Seq<SliceOutcome>, k: int)
    requires
        0 <= k < walk_run(rows, since, outcomes).0.len(),
    ensures
        k < outcomes.len(),
        walk_run(rows, since, outcomes).0[k] == walk_next(
            walk_run(rows, since, outcomes.take(k)).1,
            walk_run(rows, since, outcomes.take(k)).2,
            outcomes[k],
        ).2,
    decreases k,
{
    let ds = walk_run(rows, since, outcomes).0;
    let next = walk_next(rows, since, outcomes[0]);
    if k == 0 {
        assert(outcomes.take(0) =~= Seq::<SliceOutcome>::empty());
    } else {
        assert(next.2 is Continue);
        let tail = outcomes.drop_first();
        let rest = walk_run(next.0, next.1, tail);
        assert(ds == seq![next.2] + rest.0);
        lemma_walk_prefix(next.0, next.1, tail, k - 1);
        let pre = outcomes.take(k);
        assert(pre[0] == outcomes[0]);
        assert(pre.drop_first() =~= tail.take(k - 1));
        assert(tail[k - 1] == outcomes[k]);
    }
}

/// The background walk decides nothing after it abandons or finishes, and
/// stops early only there; the rows it counts, and finishes with, are the
/// rows its slices rewrote, held at `usize::MAX`; the count since the last
/// checkpoint stays below `CHECKPOINT_EVERY`; and after each slice a
/// checkpoint is due exactly when that count, with the slice's rows, reaches
/// `CHECKPOINT_EVERY`.
pub proof fn law_background_walk(outcomes: Seq<SliceOutcome>)
    ensures
        walk_run(0, 0, outcomes).0.len() <= outcomes.len(),
        forall|i: int|
            0 <= i < walk_run(0, 0, outcomes).0.len() - 1 ==> (#[trigger] walk_run(
                0,
                0,
                outcomes,
            ).0[i]) is Continue,
        walk_run(0, 0, outcomes).0.len() < outcomes.len() ==> !(walk_run(0, 0, outcomes).0.last() is Continue),
        walk_run(0, 0, outcomes).1 == capped(
            rows_sum(outcomes.take(walk_run(0, 0, outcomes).0.len() as int)),
        ),
        walk_run(0, 0, outcomes).2 < CHECKPOINT_EVERY,
        walk_run(0, 0, outcomes).0.len() > 0 ==> (walk_run(0, 0, outcomes).0.last() matches WalkStep::Finish {
            rewritten,
            announce,
        } ==> rewritten == walk_run(0, 0, outcomes).1 && announce == (walk_run(0, 0, outcomes).1 > 0)),
        forall|i: int|
            0 <= i < walk_run(0, 0, outcomes).0.len() ==> ((#[trigger] walk_run(0, 0, outcomes).0[i]) matches WalkStep::Continue {
                checkpoint,
                ..
            } ==> (checkpoint <==> saturating_sum(
                walk_run(0, 0, outcomes.take(i)).2,
                rows_of(outcomes[i]),
            ) >= CHECKPOINT_EVERY)),
{
    lemma_walk_run(0, 0, outcomes);
    assert forall|i: int|
        0 <= i < walk_run(0, 0, outcomes).0.len() implies ((#[trigger] walk_run(0, 0, outcomes).0[i]) matches WalkStep::Continue {
            checkpoint,
            ..
        } ==> (checkpoint <==> saturating_sum(
            walk_run(0, 0, outcomes.take(i)).2,
            rows_of(outcomes[i]),
        ) >= CHECKPOINT_EVERY)) by {
        lemma_walk_prefix(0, 0, outcomes, i);
    }
}

/// What came of one attempt at a log checkpoint.
#[derive(Clone, Copy, Debug, PartialEq, Eq, Structural)]
pub enum CheckpointOutcome {
    /// Another connection held the log; nothing was truncated.
    Busy,
    /// The checkpoint ran.
    Done,
    /// The checkpoint reported an error.
    Failed,
}

/// What the caller does after an attempt.
#[derive(Clone, Copy, Debug, PartialEq, Eq, Structural)]
pub enum CheckpointStep {
    /// Wait 250 milliseconds; try again if attempts are left.
    Wait,
    /// Report the result and stop.
    Report,
}

/// Attempts at a checkpoint, up to `CHECKPOINT_ATTEMPTS`.
pub struct CheckpointRetry {
    attempts: usize,
}

impl CheckpointRetry {
    pub closed spec fn attempts(&self) -> nat {
        self.attempts as nat
    }

    pub fn new() -> (retry: Self)
        ensures
            retry.attempts() == 0,
    {
        CheckpointRetry { attempts: 0 }
    }

    /// Whether another attempt is allowed.
    pub fn may_attempt(&self) -> (r: bool)
        ensures
            r == (self.attempts() < CHECKPOINT_ATTEMPTS),
    {
        self.attempts < CHECKPOINT_ATTEMPTS
    }

    /// Decides what follows an attempt: a busy log is waited on, anything
    /// else is reported.
    pub fn step(&mut self, outcome: CheckpointOutcome) -> (step: CheckpointStep)
        requires
            old(self).attempts() < CHECKPOINT_ATTEMPTS,
        ensures
            final(self).attempts() == old(self).attempts() + 1,
            step == if outcome == CheckpointOutcome::Busy {
                CheckpointStep::Wait
            } else {
                CheckpointStep::Report
            },
    {
        self.attempts = self.attempts + 1;
        match outcome {
            CheckpointOutcome::Busy => CheckpointStep::Wait,
            _ => CheckpointStep::Report,
        }
    }
}

} // verus!
