//! The life of one capture or playback run: stopping, starting, and who may do either.
//!
//! One field, `stop_state`, says whether a run is to stop. An external stop is stored
//! unconditionally, immediately before the worker is joined; a stop that a callback issues
//! on one of the run's own threads only ever replaces `STOP_NONE`, and taking it back only
//! ever replaces that thread's own mark. So an external stop, once stored, stands until the
//! join has returned, and no join waits forever.

use vstd::prelude::*;

verus! {

/// `start_state`: startup in progress.
pub const ST_STARTING: u8 = 1;

/// `start_state`: the hot loop is running.
pub const ST_RUNNING: u8 = 2;

/// `start_state`: startup failed.
pub const ST_FAILED: u8 = 3;

/// `stop_state`: no stop pending.
pub const STOP_NONE: i64 = 0;

/// `stop_state`: authoritative external stop. A positive value instead is the id of the
/// thread that stopped the run from inside its callback.
pub const STOP_EXTERNAL: i64 = -1;

/// Lowest bitrate the encoder takes, in bits per second.
pub const MIN_BITRATE: i32 = 6000;

/// Highest bitrate the encoder takes, in bits per second.
pub const MAX_BITRATE: i32 = 510000;

/// How often a start looks for the outcome of the startup.
pub const HANDSHAKE_POLLS: u32 = 200;

/// How long a start sleeps between two looks, in milliseconds.
pub const HANDSHAKE_SLEEP_MS: u64 = 10;

/// State shared between the threads of one run and its owner.
#[derive(Clone, Copy, PartialEq, Eq, Structural, Debug)]
pub struct Inner {
    /// `STOP_NONE`, `STOP_EXTERNAL`, or the id of the thread that stopped its own run.
    pub stop_state: i64,
    /// The hot loop was entered and has not been left.
    pub started_ok: bool,
    /// The startup handshake.
    pub start_state: u8,
    /// Id of the worker thread; zero when none is live.
    pub capture_tid: i64,
    /// Id of the thread that runs the callback; zero when none is live.
    pub deliver_tid: i64,
    /// Bitrate to encode at, re-read for every frame.
    pub opus_bitrate: i32,
    /// Drop silent frames.
    pub use_silence_gate: bool,
    /// Log status lines.
    pub debug_logging: bool,
    /// Put the frame header in front of each packet.
    pub emit_audio_header: bool,
}

/// The settings that a run publishes when it starts.
#[derive(Clone, Copy, PartialEq, Eq, Structural, Debug)]
pub struct Mirrors {
    /// Bitrate to encode at.
    pub opus_bitrate: i32,
    /// Drop silent frames.
    pub use_silence_gate: bool,
    /// Log status lines.
    pub debug_logging: bool,
    /// Leave out the frame header.
    pub omit_audio_header: bool,
}

/// No worker serves the run: it failed, was stopped, or never started.
#[derive(Clone, Copy, PartialEq, Eq, Structural, Debug)]
pub struct NotRunning;

/// The two kinds of run. A capture run has a callback thread besides its worker.
#[derive(Clone, Copy, PartialEq, Eq, Structural, Debug)]
pub enum Path {
    /// Records and encodes.
    Capture,
    /// Decodes and plays.
    Playback,
}

/// Stopped from outside.
pub open spec fn externally_stopped(s: Inner) -> Inner {
    Inner { stop_state: STOP_EXTERNAL, ..s }
}

/// Stopped by its own thread `me`; nothing changes when a stop is pending already.
pub open spec fn self_stopped(s: Inner, me: i64) -> Inner {
    if s.stop_state == STOP_NONE {
        Inner { stop_state: me, ..s }
    } else {
        s
    }
}

/// The stop of thread `me` taken back; nothing changes when another stop is pending.
pub open spec fn self_restarted(s: Inner, me: i64) -> Inner {
    if s.stop_state == me {
        Inner { stop_state: STOP_NONE, ..s }
    } else {
        s
    }
}

/// Armed for a new worker.
pub open spec fn armed(s: Inner) -> Inner {
    Inner { stop_state: STOP_NONE, started_ok: false, start_state: ST_STARTING, ..s }
}

/// A spawn was tried: without a worker the run has failed.
pub open spec fn after_spawn(s: Inner, worker: Option<u64>) -> Inner {
    if worker is Some {
        s
    } else {
        failed(s)
    }
}

/// The hot loop is running.
pub open spec fn running(s: Inner) -> Inner {
    Inner { started_ok: true, start_state: ST_RUNNING, ..s }
}

/// The run failed.
pub open spec fn failed(s: Inner) -> Inner {
    Inner { started_ok: false, start_state: ST_FAILED, ..s }
}

/// The run ended. A run that gave up, or that never came up, resolves the handshake.
pub open spec fn ended(s: Inner, gave_up: bool, ever_connected: bool) -> Inner {
    if gave_up || !ever_connected {
        failed(s)
    } else {
        Inner { started_ok: false, ..s }
    }
}

/// The settings of a run are published.
pub open spec fn published(s: Inner, m: Mirrors) -> Inner {
    Inner {
        opus_bitrate: m.opus_bitrate,
        use_silence_gate: m.use_silence_gate,
        debug_logging: m.debug_logging,
        emit_audio_header: !m.omit_audio_header,
        ..s
    }
}

/// A bitrate brought into the encoder's range.
pub open spec fn clamped_bitrate(bps: i32) -> i32 {
    if bps < MIN_BITRATE {
        MIN_BITRATE
    } else if bps > MAX_BITRATE {
        MAX_BITRATE
    } else {
        bps
    }
}

/// A new bitrate is requested.
pub open spec fn retuned(s: Inner, bps: i32) -> Inner {
    Inner { opus_bitrate: clamped_bitrate(bps), ..s }
}

/// Any stop is pending.
pub open spec fn stopping(s: Inner) -> bool {
    s.stop_state != STOP_NONE
}

/// A worker is live or still coming up.
pub open spec fn alive(s: Inner) -> bool {
    s.start_state == ST_STARTING || (s.started_ok && !stopping(s))
}

/// `me` is a thread of the run, so that a stop or start issued on it must not join.
pub open spec fn own_thread(s: Inner, path: Path, me: i64) -> bool {
    match path {
        Path::Capture => s.capture_tid == me || s.deliver_tid == me,
        Path::Playback => s.capture_tid == me,
    }
}

impl Inner {
    /// No run, with the default settings.
    pub fn new() -> (s: Self)
        ensures
            s == (Inner {
                stop_state: STOP_NONE,
                started_ok: false,
                start_state: 0,
                capture_tid: 0,
                deliver_tid: 0,
                opus_bitrate: 128000,
                use_silence_gate: true,
                debug_logging: false,
                emit_audio_header: true,
            }),
    {
        Inner {
            stop_state: STOP_NONE,
            started_ok: false,
            start_state: 0,
            capture_tid: 0,
            deliver_tid: 0,
            opus_bitrate: 128000,
            use_silence_gate: true,
            debug_logging: false,
            emit_audio_header: true,
        }
    }

    /// Request an authoritative stop; it wins over any other.
    pub fn request_external_stop(&mut self)
        ensures
            *final(self) == externally_stopped(*old(self)),
    {
        self.stop_state = STOP_EXTERNAL;
    }

    /// Record a stop that the run's own thread `me` issued.
    pub fn request_self_stop(&mut self, me: i64)
        ensures
            *final(self) == self_stopped(*old(self), me),
    {
        if self.stop_state == STOP_NONE {
            self.stop_state = me;
        }
    }

    /// Take back a stop that the same thread issued.
    pub fn undo_self_stop(&mut self, me: i64)
        ensures
            *final(self) == self_restarted(*old(self), me),
    {
        if self.stop_state == me {
            self.stop_state = STOP_NONE;
        }
    }

    /// Clear the stop; only between a join and the next spawn, under the slot's lock.
    pub fn clear_stop(&mut self)
        ensures
            *final(self) == (Inner { stop_state: STOP_NONE, ..*old(self) }),
    {
        self.stop_state = STOP_NONE;
    }

    /// Any stop is pending.
    pub fn stop_pending(&self) -> (r: bool)
        ensures
            r == stopping(*self),
    {
        self.stop_state != STOP_NONE
    }

    /// A worker is live or still coming up; what feeds a run asks this first.
    pub fn worker_alive(&self) -> (r: bool)
        ensures
            r == alive(*self),
    {
        if self.start_state == ST_STARTING {
            return true;
        }
        self.started_ok && !self.stop_pending()
    }

    /// Refuse what nobody would play, so that whoever feeds the run opens it again.
    pub fn require_alive(&self) -> (r: Result<(), NotRunning>)
        ensures
            r is Ok <==> alive(*self),
            r is Err <==> !alive(*self),
    {
        if self.worker_alive() {
            Ok(())
        } else {
            Err(NotRunning)
        }
    }

    /// The worker is running and no stop is pending.
    pub fn is_running(&self) -> (r: bool)
        ensures
            r == (self.started_ok && !stopping(*self)),
    {
        self.started_ok && !self.stop_pending()
    }

    /// `me` is the worker or the callback thread of a capture run.
    pub fn is_own_thread(&self, me: i64) -> (r: bool)
        ensures
            r == own_thread(*self, Path::Capture, me),
    {
        self.capture_tid == me || self.deliver_tid == me
    }

    fn is_reentrant(&self, path: Path, me: i64) -> (r: bool)
        ensures
            r == own_thread(*self, path, me),
    {
        match path {
            Path::Capture => self.is_own_thread(me),
            Path::Playback => self.capture_tid == me,
        }
    }

    /// A start issued on thread `me`: when that is a thread of the run, the start is no more
    /// than the run's own stop taken back, and is dealt with. Otherwise it is left to the
    /// caller.
    pub fn reentrant_start(&mut self, path: Path, me: i64) -> (dealt_with: bool)
        ensures
            dealt_with == own_thread(*old(self), path, me),
            *final(self) == if dealt_with {
                self_restarted(*old(self), me)
            } else {
                *old(self)
            },
    {
        if self.is_reentrant(path, me) {
            self.undo_self_stop(me);
            true
        } else {
            false
        }
    }

    /// A stop issued on thread `me`: when that is a thread of the run, the stop is recorded
    /// and dealt with, since joining from there would never return.
    pub fn reentrant_stop(&mut self, path: Path, me: i64) -> (dealt_with: bool)
        ensures
            dealt_with == own_thread(*old(self), path, me),
            *final(self) == if dealt_with {
                self_stopped(*old(self), me)
            } else {
                *old(self)
            },
    {
        if self.is_reentrant(path, me) {
            self.request_self_stop(me);
            true
        } else {
            false
        }
    }

    /// Publish the settings of a capture run.
    pub fn publish(&mut self, m: Mirrors)
        ensures
            *final(self) == published(*old(self), m),
    {
        self.opus_bitrate = m.opus_bitrate;
        self.use_silence_gate = m.use_silence_gate;
        self.debug_logging = m.debug_logging;
        self.emit_audio_header = !m.omit_audio_header;
    }

    /// Publish the one setting that a playback run mirrors.
    pub fn publish_logging(&mut self, debug_logging: bool)
        ensures
            *final(self) == (Inner { debug_logging, ..*old(self) }),
    {
        self.debug_logging = debug_logging;
    }

    /// Request a bitrate; the run applies it on its next frame.
    pub fn update_audio_bitrate(&mut self, bps: i32)
        ensures
            *final(self) == retuned(*old(self), bps),
    {
        self.opus_bitrate = if bps < MIN_BITRATE {
            MIN_BITRATE
        } else if bps > MAX_BITRATE {
            MAX_BITRATE
        } else {
            bps
        };
    }

    /// The first session is up.
    pub fn set_running(&mut self)
        ensures
            *final(self) == running(*old(self)),
    {
        self.started_ok = true;
        self.start_state = ST_RUNNING;
    }

    /// The run cannot go on, or its worker panicked.
    pub fn set_failed(&mut self)
        ensures
            *final(self) == failed(*old(self)),
    {
        self.started_ok = false;
        self.start_state = ST_FAILED;
    }

    /// The run ends, having given up or having been stopped.
    pub fn set_ended(&mut self, gave_up: bool, ever_connected: bool)
        ensures
            *final(self) == ended(*old(self), gave_up, ever_connected),
    {
        self.started_ok = false;
        if gave_up || !ever_connected {
            self.start_state = ST_FAILED;
        }
    }

    /// The worker thread `tid` begins.
    pub fn worker_enters(&mut self, tid: i64)
        ensures
            *final(self) == (Inner { capture_tid: tid, ..*old(self) }),
    {
        self.capture_tid = tid;
    }

    /// The worker thread is gone.
    pub fn worker_leaves(&mut self)
        ensures
            *final(self) == (Inner { capture_tid: 0, ..*old(self) }),
    {
        self.capture_tid = 0;
    }

    /// The callback thread `tid` begins.
    pub fn delivery_enters(&mut self, tid: i64)
        ensures
            *final(self) == (Inner { deliver_tid: tid, ..*old(self) }),
    {
        self.deliver_tid = tid;
    }

    /// The callback thread is gone.
    pub fn delivery_leaves(&mut self)
        ensures
            *final(self) == (Inner { deliver_tid: 0, ..*old(self) }),
    {
        self.deliver_tid = 0;
    }
}

/// Who owns the worker slot: the identity of the worker thread in it. Identities are never
/// used twice.
#[derive(Clone, Copy, PartialEq, Eq, Structural, Debug)]
pub struct WorkerSlot {
    /// The worker, if there is one that has not been joined.
    pub worker: Option<u64>,
}

/// A slot emptied to stop its worker: the slot, the shared state, and the worker to join.
pub open spec fn taken_over(slot: WorkerSlot, s: Inner) -> (WorkerSlot, Inner, Option<u64>) {
    (
        WorkerSlot { worker: None },
        if slot.worker is Some {
            externally_stopped(s)
        } else {
            s
        },
        slot.worker,
    )
}

/// A slot after the cleanup of a failed start that had made `spawned`.
pub open spec fn claimed(slot: WorkerSlot, s: Inner, spawned: u64) -> (
    WorkerSlot,
    Inner,
    Option<u64>,
) {
    if slot.worker == Some(spawned) {
        taken_over(slot, s)
    } else {
        (slot, s, None)
    }
}

impl WorkerSlot {
    /// An empty slot.
    pub fn new() -> (s: Self)
        ensures
            s.worker is None,
    {
        WorkerSlot { worker: None }
    }

    /// Empty the slot in order to stop its worker. The worker to join, if any; the external
    /// stop is stored before the caller gets to join it.
    pub fn take_over(&mut self, inner: &mut Inner) -> (join: Option<u64>)
        ensures
            (*final(self), *final(inner), join) == taken_over(*old(self), *old(inner)),
    {
        let join: Option<u64> = self.worker;
        if join.is_some() {
            inner.request_external_stop();
        }
        self.worker = None;
        join
    }

    /// Between the join of the old worker and the spawn of the new one: nothing is pending
    /// any more, and the startup handshake begins.
    pub fn arm(&self, inner: &mut Inner)
        requires
            self.worker is None,
        ensures
            *final(inner) == armed(*old(inner)),
    {
        inner.clear_stop();
        inner.started_ok = false;
        inner.start_state = ST_STARTING;
    }

    /// The spawn that followed: the worker it made, or nothing when there was no thread to be
    /// had. Then there is nobody to resolve the handshake, and the run has failed.
    pub fn spawned(&mut self, worker: Option<u64>, inner: &mut Inner)
        requires
            old(self).worker is None,
        ensures
            final(self).worker == worker,
            *final(inner) == after_spawn(*old(inner), worker),
    {
        if worker.is_none() {
            inner.set_failed();
        }
        self.worker = worker;
    }

    /// Clean up after a start that failed, but only while the worker that this start made
    /// still owns the slot: a later start may have put a live one in its place. The worker
    /// to join, if any.
    pub fn claim_failed(&mut self, inner: &mut Inner, spawned: u64) -> (join: Option<u64>)
        ensures
            (*final(self), *final(inner), join) == claimed(*old(self), *old(inner), spawned),
    {
        match self.worker {
            Some(owner) => if owner == spawned {
                self.take_over(inner)
            } else {
                None
            },
            None => None,
        }
    }
}

/// What a start does after looking at the handshake.
#[derive(Clone, Copy, PartialEq, Eq, Structural, Debug)]
pub enum Handshake {
    /// Sleep, then look again.
    Poll,
    /// Sleep once more and leave it at that: the startup is slow, not failed.
    LetGo,
    /// The run is up.
    Up,
    /// The run failed.
    Down,
}

/// Look at the handshake, having looked `polls` times before.
pub fn handshake(polls: u32, start_state: u8) -> (h: Handshake)
    ensures
        h == if start_state == ST_FAILED {
            Handshake::Down
        } else if start_state != ST_STARTING {
            Handshake::Up
        } else if polls + 1 < HANDSHAKE_POLLS {
            Handshake::Poll
        } else {
            Handshake::LetGo
        },
{
    if start_state == ST_FAILED {
        Handshake::Down
    } else if start_state != ST_STARTING {
        Handshake::Up
    } else if polls < HANDSHAKE_POLLS - 1 {
        Handshake::Poll
    } else {
        Handshake::LetGo
    }
}

/// What the threads of a run, its callback and its users do to the shared state while an
/// external stop waits for the worker.
pub enum Step {
    /// A callback stops its own run.
    SelfStop(i64),
    /// A callback starts its own run again.
    SelfStart(i64),
    /// Somebody requests a bitrate.
    Retune(i32),
    /// The settings are published.
    Publish(Mirrors),
    /// The first session is up.
    Running,
    /// The run fails.
    Failed,
    /// The run ends.
    Ended(bool, bool),
    /// The worker begins, or with zero ends.
    Worker(i64),
    /// The callback thread begins, or with zero ends.
    Delivery(i64),
    /// Another stop from outside.
    ExternalStop,
}

/// The state after one step.
pub open spec fn after_step(s: Inner, step: Step) -> Inner {
    match step {
        Step::SelfStop(me) => self_stopped(s, me),
        Step::SelfStart(me) => self_restarted(s, me),
        Step::Retune(bps) => retuned(s, bps),
        Step::Publish(m) => published(s, m),
        Step::Running => running(s),
        Step::Failed => failed(s),
        Step::Ended(gave_up, ever_connected) => ended(s, gave_up, ever_connected),
        Step::Worker(tid) => Inner { capture_tid: tid, ..s },
        Step::Delivery(tid) => Inner { deliver_tid: tid, ..s },
        Step::ExternalStop => externally_stopped(s),
    }
}

/// The state after any number of steps.
pub open spec fn after_steps(s: Inner, steps: Seq<Step>) -> Inner
    decreases steps.len(),
{
    if steps.len() == 0 {
        s
    } else {
        after_step(after_steps(s, steps.drop_last()), steps.last())
    }
}

/// Threads have positive ids.
pub open spec fn from_real_thread(step: Step) -> bool {
    match step {
        Step::SelfStop(me) => me > 0,
        Step::SelfStart(me) => me > 0,
        _ => true,
    }
}

/// An external stop is never lost: whatever the run's threads and users do after it, in any
/// order and any number, it stays pending until the slot is armed again.
pub proof fn lemma_external_stop_stands(s: Inner, steps: Seq<Step>)
    requires
        forall|i: int| 0 <= i < steps.len() ==> from_real_thread(#[trigger] steps[i]),
    ensures
        after_steps(externally_stopped(s), steps).stop_state == STOP_EXTERNAL,
        stopping(after_steps(externally_stopped(s), steps)),
    decreases steps.len(),
{
    if steps.len() > 0 {
        let init = steps.drop_last();
        assert(forall|i: int| 0 <= i < init.len() ==> init[i] == #[trigger] steps[i]);
        lemma_external_stop_stands(s, init);
        assert(from_real_thread(steps[steps.len() - 1]));
    }
}

/// An external stop wins over whatever was pending before it.
pub proof fn lemma_external_stop_wins(s: Inner, me: i64)
    ensures
        externally_stopped(self_stopped(s, me)) == externally_stopped(s),
        externally_stopped(self_restarted(s, me)) == externally_stopped(s),
{
}

/// A callback that stops its run and starts it again changes nothing, and no other thread
/// can take its stop back.
pub proof fn lemma_self_stop_undone_by_owner_only(s: Inner, me: i64, other: i64)
    requires
        s.stop_state == STOP_NONE,
        me > 0,
        other != me,
    ensures
        stopping(self_stopped(s, me)),
        self_restarted(self_stopped(s, me), me) == s,
        self_restarted(self_stopped(s, me), other) == self_stopped(s, me),
{
}

/// A start takes a slot over without losing a stop. While the old worker is being joined, its
/// stop stands, whatever else happens; when the slot is armed afterwards, nothing is pending,
/// and the new run counts as alive exactly when the spawn made a worker for it.
pub proof fn lemma_take_over_in_order(
    slot: WorkerSlot,
    s: Inner,
    meanwhile: Seq<Step>,
    worker: Option<u64>,
)
    requires
        forall|i: int| 0 <= i < meanwhile.len() ==> from_real_thread(#[trigger] meanwhile[i]),
    ensures
        ({
            let (empty, stopped, join) = taken_over(slot, s);
            let joined = Inner { capture_tid: 0, ..after_steps(stopped, meanwhile) };
            &&& empty.worker is None
            &&& join == slot.worker
            &&& join is Some ==> joined.stop_state == STOP_EXTERNAL
            &&& !stopping(armed(joined))
            &&& alive(after_spawn(armed(joined), worker)) == (worker is Some)
        }),
{
    if slot.worker is Some {
        lemma_external_stop_stands(s, meanwhile);
    }
}

/// Two starts at once: the one that loses never tears down the worker of the one that wins.
/// Its cleanup, coming after the winner took the slot over, joins nobody and stops nobody;
/// coming before, it joins its own worker, and the winner then starts from an empty slot
/// with nothing pending.
pub proof fn lemma_loser_spares_winner(slot: WorkerSlot, s: Inner, loser: u64, winner: u64)
    requires
        loser != winner,
    ensures
        ({
            let won = WorkerSlot { worker: Some(winner) };
            claimed(won, running(armed(s)), loser) == (won, running(armed(s)), None::<u64>)
        }),
        ({
            let lost = WorkerSlot { worker: Some(loser) };
            let (empty, stopped, joined) = claimed(lost, s, loser);
            &&& joined == Some(loser)
            &&& empty.worker is None
            &&& taken_over(empty, stopped) == (empty, stopped, None::<u64>)
            &&& !stopping(armed(stopped))
        }),
        ({
            let (empty, stopped, joined) = taken_over(slot, s);
            &&& joined is Some ==> stopping(stopped)
            &&& claimed(empty, armed(stopped), loser) == (empty, armed(stopped), None::<u64>)
        }),
{
}

/// The liveness contract over a run: coming up counts as alive, so does running; a spawn that
/// made no thread, a stop, a failure and the end of the loop do not.
pub proof fn lemma_liveness(s: Inner, gave_up: bool, ever_connected: bool, me: i64, worker: u64)
    requires
        me > 0,
    ensures
        alive(after_spawn(armed(s), Some(worker))),
        !alive(after_spawn(armed(s), None)),
        alive(running(armed(s))),
        !alive(failed(s)),
        !alive(ended(running(s), gave_up, ever_connected)),
        !alive(ended(armed(s), gave_up, false)),
        !alive(externally_stopped(running(s))),
        !alive(self_stopped(running(armed(s)), me)),
{
}

/// A bitrate requested while no run is active does not carry over: what the next run
/// publishes replaces it.
pub proof fn lemma_bitrate_does_not_persist(s: Inner, bps: i32, m: Mirrors)
    ensures
        published(retuned(s, bps), m) == published(s, m),
        published(s, m).opus_bitrate == m.opus_bitrate,
        MIN_BITRATE <= retuned(s, bps).opus_bitrate <= MAX_BITRATE,
{
}

} // verus!
