//! Small decision state machines: the hold-to-latch alert of the edge
//! detector, early stopping of network training, and the firmware's logging
//! schedule. Each takes the outcome of a floating-point comparison made by its
//! caller as a plain boolean event.

use vstd::prelude::*;

verus! {

/// Length of the run of `value` at the end of `h`.
pub open spec fn trailing_run(h: Seq<bool>, value: bool) -> nat
    decreases h.len(),
{
    if h.len() == 0 {
        0
    } else if h.last() == value {
        trailing_run(h.drop_last(), value) + 1
    } else {
        0
    }
}

/// State of an alert latch: the hold length, the count of consecutive
/// over-threshold frames (saturating), and whether the alert is latched.
pub struct LatchState {
    pub hold: u32,
    pub over_count: u32,
    pub alerting: bool,
}

/// One frame of the latch: an over-threshold frame extends the count and
/// latches the alert once the count reaches `hold`; any other frame clears
/// both.
pub open spec fn latch_step(s: LatchState, over: bool) -> LatchState {
    if over {
        let c = if s.over_count == u32::MAX { u32::MAX } else { (s.over_count + 1) as u32 };
        LatchState { hold: s.hold, over_count: c, alerting: if c >= s.hold { true } else { s.alerting } }
    } else {
        LatchState { hold: s.hold, over_count: 0, alerting: false }
    }
}

/// The latch state after the frames `h`, starting fresh with hold `hold`.
pub open spec fn latch_run(hold: u32, h: Seq<bool>) -> LatchState
    decreases h.len(),
{
    if h.len() == 0 {
        LatchState { hold, over_count: 0, alerting: false }
    } else {
        latch_step(latch_run(hold, h.drop_last()), h.last())
    }
}

/// Hold-to-latch alert: raises once the caller's smoothed confidence has held
/// at or above threshold for `hold` consecutive frames; a single frame below
/// clears the alert and resets the count.
pub struct AlertLatch {
    hold: u32,
    over_count: u32,
    alerting: bool,
}

impl View for AlertLatch {
    type V = LatchState;

    closed spec fn view(&self) -> LatchState {
        LatchState { hold: self.hold, over_count: self.over_count, alerting: self.alerting }
    }
}

impl AlertLatch {
    /// A fresh latch; a hold of 0 is raised to 1.
    pub fn new(hold: u32) -> (r: Self)
        ensures
            r@ == (LatchState { hold: if hold == 0 { 1 } else { hold }, over_count: 0, alerting: false }),
    {
        AlertLatch { hold: if hold == 0 { 1 } else { hold }, over_count: 0, alerting: false }
    }

    /// Feed whether this frame was at or above threshold; returns whether the
    /// alert is latched afterwards.
    pub fn update(&mut self, over: bool) -> (r: bool)
        ensures
            final(self)@ == latch_step(old(self)@, over),
            r == final(self)@.alerting,
    {
        if over {
            self.over_count = self.over_count.saturating_add(1);
            if self.over_count >= self.hold {
                self.alerting = true;
            }
        } else {
            self.over_count = 0;
            self.alerting = false;
        }
        self.alerting
    }

    /// Whether the alert is latched.
    pub fn is_alerting(&self) -> (r: bool)
        ensures
            r == self@.alerting,
    {
        self.alerting
    }

    /// Consecutive over-threshold frames seen so far (saturating).
    pub fn over_count(&self) -> (r: u32)
        ensures
            r == self@.over_count,
    {
        self.over_count
    }

    /// Forget all frames: back to the state of a fresh latch.
    pub fn reset(&mut self)
        ensures
            final(self)@ == (LatchState { hold: old(self)@.hold, over_count: 0, alerting: false }),
    {
        self.over_count = 0;
        self.alerting = false;
    }
}

/// Law: after any sequence of frames from a fresh latch with hold `hold >= 1`,
/// the count is the length of the trailing run of over-threshold frames
/// (saturating at `u32::MAX`), and the alert is latched exactly when that run
/// has reached `hold`.
pub proof fn lemma_latch_tracks_trailing_run(hold: u32, h: Seq<bool>)
    requires
        hold >= 1,
    ensures
        latch_run(hold, h).hold == hold,
        latch_run(hold, h).over_count == (if trailing_run(h, true) >= u32::MAX {
            u32::MAX as nat
        } else {
            trailing_run(h, true)
        }),
        latch_run(hold, h).alerting == (latch_run(hold, h).over_count >= hold),
    decreases h.len(),
{
    if h.len() > 0 {
        lemma_latch_tracks_trailing_run(hold, h.drop_last());
    }
}

/// What the training loop does after an epoch.
#[derive(Clone, Copy, Debug, PartialEq, Eq, Structural)]
pub enum EpochAction {
    /// Validation improved: remember these weights as the best so far.
    Checkpoint,
    /// No improvement, patience not yet exhausted: keep training.
    Continue,
    /// Patience exhausted: stop and restore the best weights.
    Stop,
}

/// State of early stopping: the patience, epochs since the last improvement,
/// and the (1-based) epoch that gave the best validation loss.
pub struct StopState {
    pub patience: usize,
    pub since_improve: usize,
    pub best_epoch: usize,
}

/// Early stopping on validation loss: every epoch the caller reports whether
/// the validation loss improved; training stops once `patience` epochs in a
/// row have not improved.
pub struct EarlyStop {
    patience: usize,
    since_improve: usize,
    best_epoch: usize,
}

impl View for EarlyStop {
    type V = StopState;

    closed spec fn view(&self) -> StopState {
        StopState {
            patience: self.patience,
            since_improve: self.since_improve,
            best_epoch: self.best_epoch,
        }
    }
}

/// The decision after an epoch and the state it leaves.
pub open spec fn stop_step(s: StopState, epoch: nat, improved: bool) -> (StopState, EpochAction) {
    if improved {
        (
            StopState { patience: s.patience, since_improve: 0, best_epoch: (epoch + 1) as usize },
            EpochAction::Checkpoint,
        )
    } else {
        let since = (s.since_improve + 1) as usize;
        (
            StopState { patience: s.patience, since_improve: since, best_epoch: s.best_epoch },
            if since >= s.patience {
                EpochAction::Stop
            } else {
                EpochAction::Continue
            },
        )
    }
}

impl EarlyStop {
    /// Fresh early-stopping state: no epoch yet, best epoch 0.
    pub fn new(patience: usize) -> (r: Self)
        ensures
            r@ == (StopState { patience, since_improve: 0, best_epoch: 0 }),
    {
        EarlyStop { patience, since_improve: 0, best_epoch: 0 }
    }

    /// Record the outcome of epoch `epoch` (0-based).
    pub fn end_epoch(&mut self, epoch: usize, improved: bool) -> (r: EpochAction)
        requires
            epoch < usize::MAX,
            old(self)@.since_improve < usize::MAX,
        ensures
            (final(self)@, r) == stop_step(old(self)@, epoch as nat, improved),
    {
        if improved {
            self.best_epoch = epoch + 1;
            self.since_improve = 0;
            EpochAction::Checkpoint
        } else {
            self.since_improve = self.since_improve + 1;
            if self.since_improve >= self.patience {
                EpochAction::Stop
            } else {
                EpochAction::Continue
            }
        }
    }

    /// Epochs since the validation loss last improved.
    pub fn since_improve(&self) -> (r: usize)
        ensures
            r == self@.since_improve,
    {
        self.since_improve
    }

    /// The (1-based) epoch with the best validation loss, or 0 if none improved.
    pub fn best_epoch(&self) -> (r: usize)
        ensures
            r == self@.best_epoch,
    {
        self.best_epoch
    }
}

/// The early-stopping state after the epoch outcomes `h` (epoch `k` is `h[k]`).
pub open spec fn stop_run(patience: usize, h: Seq<bool>) -> StopState
    decreases h.len(),
{
    if h.len() == 0 {
        StopState { patience, since_improve: 0, best_epoch: 0 }
    } else {
        stop_step(stop_run(patience, h.drop_last()), (h.len() - 1) as nat, h.last()).0
    }
}

/// Law: after any sequence of epoch outcomes, the count of epochs since the
/// last improvement is the length of the trailing run of non-improving epochs,
/// so training stops exactly at the `patience`-th non-improving epoch in a row.
pub proof fn lemma_early_stop_counts_trailing_run(patience: usize, h: Seq<bool>)
    requires
        h.len() < usize::MAX,
    ensures
        stop_run(patience, h).since_improve == trailing_run(h, false),
        stop_run(patience, h).patience == patience,
    decreases h.len(),
{
    if h.len() > 0 {
        lemma_early_stop_counts_trailing_run(patience, h.drop_last());
        lemma_trailing_run_bounded(h.drop_last(), false);
    }
}

/// Law: an improving epoch is always checkpointed — whatever came before, it
/// yields `Checkpoint`, records itself (1-based) as the best epoch and resets
/// the count of epochs without improvement.
pub proof fn lemma_improvement_checkpoints(s: StopState, epoch: nat)
    requires
        epoch < usize::MAX,
    ensures
        stop_step(s, epoch, true).1 == EpochAction::Checkpoint,
        stop_step(s, epoch, true).0.best_epoch == epoch + 1,
        stop_step(s, epoch, true).0.since_improve == 0,
        stop_step(s, epoch, true).0.patience == s.patience,
{
}

/// Law: after any sequence of epoch outcomes (epoch `k` is `h[k]`), the best
/// epoch is 0 exactly when no epoch improved, and otherwise it is one past the
/// last improving epoch: that epoch improved and none after it did.
pub proof fn lemma_best_epoch_is_last_improvement(patience: usize, h: Seq<bool>)
    requires
        h.len() < usize::MAX,
    ensures
        (stop_run(patience, h).best_epoch == 0) <==> (forall|k: int| 0 <= k < h.len() ==> !h[k]),
        stop_run(patience, h).best_epoch <= h.len(),
        stop_run(patience, h).best_epoch > 0 ==> h[stop_run(patience, h).best_epoch - 1],
        forall|k: int|
            stop_run(patience, h).best_epoch <= k < h.len() ==> !#[trigger] h[k],
    decreases h.len(),
{
    if h.len() > 0 {
        let t = h.drop_last();
        lemma_best_epoch_is_last_improvement(patience, t);
        assert forall|k: int| 0 <= k < t.len() implies t[k] == h[k] by {}
        if !h.last() {
            let b = stop_run(patience, h).best_epoch;
            assert(b == stop_run(patience, t).best_epoch);
            assert forall|k: int| b <= k < h.len() implies !#[trigger] h[k] by {
                if k < t.len() {
                    assert(t[k] == h[k]);
                }
            }
            if b == 0 {
                assert forall|k: int| 0 <= k < h.len() implies !h[k] by {
                    if k < t.len() {
                        assert(t[k] == h[k]);
                        assert(!t[k]);
                    }
                }
            } else {
                assert(t[b - 1] == h[b - 1]);
            }
        } else {
            assert(h[h.len() - 1]);
        }
    }
}

/// A trailing run is no longer than the sequence.
pub proof fn lemma_trailing_run_bounded(h: Seq<bool>, value: bool)
    ensures
        trailing_run(h, value) <= h.len(),
    decreases h.len(),
{
    if h.len() > 0 {
        lemma_trailing_run_bounded(h.drop_last(), value);
    }
}

/// What the firmware logs after a frame.
#[derive(Clone, Copy, Debug, PartialEq, Eq, Structural)]
pub enum LogEvent {
    /// The alert just latched.
    Alert,
    /// The alert just cleared.
    Clear,
    /// Periodic status line.
    Status,
    /// Nothing to log.
    Quiet,
}

/// Frames per second of audio at 16 kHz and 1024-sample frames (about 16);
/// the firmware logs its status and switches demo phase at this period.
pub const FRAMES_PER_PERIOD: u32 = 16;

/// The firmware's log decision: log on alert edges, else periodically.
pub fn firmware_log_event(alerting: bool, was_alerting: bool, tick: u32) -> (r: LogEvent)
    ensures
        r == (if alerting && !was_alerting {
            LogEvent::Alert
        } else if !alerting && was_alerting {
            LogEvent::Clear
        } else if tick % FRAMES_PER_PERIOD == 0 {
            LogEvent::Status
        } else {
            LogEvent::Quiet
        }),
{
    if alerting && !was_alerting {
        LogEvent::Alert
    } else if !alerting && was_alerting {
        LogEvent::Clear
    } else if tick % FRAMES_PER_PERIOD == 0 {
        LogEvent::Status
    } else {
        LogEvent::Quiet
    }
}

/// Whether demo frame `tick` falls in a drone-like phase: phases alternate
/// every [`FRAMES_PER_PERIOD`] frames, starting with a drone phase.
pub fn firmware_drone_phase(tick: u32) -> (r: bool)
    ensures
        r == ((tick / FRAMES_PER_PERIOD) % 2 == 0),
{
    (tick / FRAMES_PER_PERIOD) % 2 == 0
}

} // verus!
