//! Keeping a session with the audio server up.
//!
//! A stream can die in the middle of a run: the server restarts, the device is unplugged. A
//! run then opens a new session, with a growing pause between attempts and a budget that
//! depends on what happened before. `Supervisor` decides when to open, when to pause and
//! when to give up; `Opener` takes a single attempt from nothing to a stream that is ready;
//! whoever drives them performs what they ask for and reports what came of it.

use vstd::prelude::*;

use crate::lifecycle::{ended, running, Inner, Path};

verus! {

/// Attempts of a start that finds its named source missing: the source may still be coming
/// up, but a wrong name has to surface quickly.
pub const DEVICE_WAIT_TRIES: u32 = 6;

/// Attempts of a start that fails in any other way.
pub const START_TRIES: u32 = 12;

/// Attempts of a reconnect, enough to outlast a restart of the audio server.
pub const RECONNECT_TRIES: u32 = 40;

/// First pause between attempts, in milliseconds.
pub const FIRST_BACKOFF_MS: u64 = 250;

/// Longest pause between attempts, in milliseconds.
pub const MAX_BACKOFF_MS: u64 = 5000;

/// A pause is slept in slices of this many milliseconds, so that a stop is seen early.
pub const BACKOFF_SLICE_MS: u64 = 50;

/// What went wrong while opening a session.
#[derive(Clone, Copy, PartialEq, Eq, Structural, Debug)]
pub enum OpenFault {
    /// No main loop.
    Mainloop,
    /// No context.
    Context,
    /// The context refused to connect.
    Connect,
    /// The connection failed.
    ContextLost,
    /// The main loop failed while connecting.
    ConnectPump,
    /// The connection failed while looking for the source.
    ProbeLost,
    /// The main loop failed while looking for the source.
    ProbePump,
    /// The named source is gone.
    SourceMissing,
    /// No stream.
    Stream,
    /// The stream refused to connect.
    StreamConnect,
    /// The stream failed.
    StreamLost,
    /// The main loop failed while the stream was connecting.
    StreamPump,
}

/// How an attempt to open a session ends.
#[derive(Clone, Copy, PartialEq, Eq, Structural, Debug)]
pub enum OpenOutcome {
    /// The stream is ready.
    Ready,
    /// The named source is absent at startup: probably a misconfiguration.
    DeviceNotFound,
    /// Server down, busy, or still coming up.
    Transient(OpenFault),
    /// A stop came in between.
    Aborted,
}

/// Where an attempt stands, and so what is to be done next.
#[derive(Clone, Copy, PartialEq, Eq, Structural, Debug)]
pub enum OpenStage {
    /// Make the main loop.
    Mainloop,
    /// Make the context.
    Context,
    /// Connect the context.
    Connect,
    /// Look at the context.
    AwaitContext,
    /// Turn the main loop, waiting for the context.
    PumpContext,
    /// Ask for the named source.
    Probe,
    /// Look for the answer.
    AwaitProbe,
    /// Turn the main loop, waiting for the answer.
    PumpProbe,
    /// Make the stream.
    Stream,
    /// Connect the stream.
    StreamConnect,
    /// Look at the stream.
    AwaitStream,
    /// Turn the main loop, waiting for the stream.
    PumpStream,
    /// Nothing: the attempt is over.
    Done(OpenOutcome),
}

/// What came of the last thing done. A field that does not apply is ignored.
#[derive(Clone, Copy, PartialEq, Eq, Structural, Debug)]
pub struct Seen {
    /// The call succeeded.
    pub worked: bool,
    /// What is looked at is ready, or has answered in full.
    pub ready: bool,
    /// What is looked at has not failed.
    pub good: bool,
    /// A stop is pending.
    pub stop: bool,
    /// The answer named the source.
    pub found: bool,
}

/// One attempt to open a session.
#[derive(Clone, Copy, PartialEq, Eq, Structural, Debug)]
pub struct Opener {
    /// Where the attempt stands.
    pub stage: OpenStage,
    /// A named source is looked up first.
    pub probes: bool,
    /// The source was there before, so that its absence is an outage.
    pub device_was_present: bool,
}

/// The stage after a call: the next one, or a fault.
pub open spec fn if_worked(seen: Seen, next: OpenStage, fault: OpenFault) -> OpenStage {
    if seen.worked {
        next
    } else {
        OpenStage::Done(OpenOutcome::Transient(fault))
    }
}

/// The stage after a look at a connection: ready comes first, then failure, then a stop;
/// otherwise the main loop turns.
pub open spec fn if_ready(
    seen: Seen,
    next: OpenStage,
    fault: OpenFault,
    pump: OpenStage,
) -> OpenStage {
    if seen.ready {
        next
    } else if !seen.good {
        OpenStage::Done(OpenOutcome::Transient(fault))
    } else if seen.stop {
        OpenStage::Done(OpenOutcome::Aborted)
    } else {
        pump
    }
}

/// The stage after a look for the answer about the source: the answer comes first, then a
/// stop, then failure. A source that is missing is an outage if it was there before.
pub open spec fn if_answered(o: Opener, seen: Seen) -> OpenStage {
    if seen.ready {
        if seen.found {
            OpenStage::Stream
        } else if o.device_was_present {
            OpenStage::Done(OpenOutcome::Transient(OpenFault::SourceMissing))
        } else {
            OpenStage::Done(OpenOutcome::DeviceNotFound)
        }
    } else if seen.stop {
        OpenStage::Done(OpenOutcome::Aborted)
    } else if !seen.good {
        OpenStage::Done(OpenOutcome::Transient(OpenFault::ProbeLost))
    } else {
        OpenStage::PumpProbe
    }
}

/// The stage that follows what was seen.
pub open spec fn next_stage(o: Opener, seen: Seen) -> OpenStage {
    match o.stage {
        OpenStage::Mainloop => if_worked(seen, OpenStage::Context, OpenFault::Mainloop),
        OpenStage::Context => if_worked(seen, OpenStage::Connect, OpenFault::Context),
        OpenStage::Connect => if_worked(seen, OpenStage::AwaitContext, OpenFault::Connect),
        OpenStage::AwaitContext => if_ready(
            seen,
            if o.probes {
                OpenStage::Probe
            } else {
                OpenStage::Stream
            },
            OpenFault::ContextLost,
            OpenStage::PumpContext,
        ),
        OpenStage::PumpContext => if_worked(seen, OpenStage::AwaitContext, OpenFault::ConnectPump),
        OpenStage::Probe => OpenStage::AwaitProbe,
        OpenStage::AwaitProbe => if_answered(o, seen),
        OpenStage::PumpProbe => if_worked(seen, OpenStage::AwaitProbe, OpenFault::ProbePump),
        OpenStage::Stream => if_worked(seen, OpenStage::StreamConnect, OpenFault::Stream),
        OpenStage::StreamConnect => if_worked(
            seen,
            OpenStage::AwaitStream,
            OpenFault::StreamConnect,
        ),
        OpenStage::AwaitStream => if_ready(
            seen,
            OpenStage::Done(OpenOutcome::Ready),
            OpenFault::StreamLost,
            OpenStage::PumpStream,
        ),
        OpenStage::PumpStream => if_worked(seen, OpenStage::AwaitStream, OpenFault::StreamPump),
        OpenStage::Done(outcome) => OpenStage::Done(outcome),
    }
}

fn after_call(worked: bool, next: OpenStage, fault: OpenFault) -> (r: OpenStage)
    ensures
        r == if worked {
            next
        } else {
            OpenStage::Done(OpenOutcome::Transient(fault))
        },
{
    if worked {
        next
    } else {
        OpenStage::Done(OpenOutcome::Transient(fault))
    }
}

fn after_look(seen: &Seen, next: OpenStage, fault: OpenFault, pump: OpenStage) -> (r: OpenStage)
    ensures
        r == if_ready(*seen, next, fault, pump),
{
    if seen.ready {
        return next;
    }
    if !seen.good {
        return OpenStage::Done(OpenOutcome::Transient(fault));
    }
    if seen.stop {
        return OpenStage::Done(OpenOutcome::Aborted);
    }
    pump
}

impl Opener {
    /// An attempt to record. A named source is looked up on every attempt: a connect to a
    /// wrong name does not fail by itself, and after an outage this is what notices the
    /// source coming back.
    pub fn capture(named_device: bool, device_was_present: bool) -> (o: Self)
        ensures
            o.stage == OpenStage::Mainloop,
            o.probes == named_device,
            o.device_was_present == device_was_present,
    {
        Opener { stage: OpenStage::Mainloop, probes: named_device, device_was_present }
    }

    /// An attempt to play. A sink is resolved while the stream connects, so that a wrong
    /// name and a server that is still coming up look the same.
    pub fn playback() -> (o: Self)
        ensures
            o.stage == OpenStage::Mainloop,
            !o.probes,
    {
        Opener { stage: OpenStage::Mainloop, probes: false, device_was_present: false }
    }

    /// Take in what came of the last thing done.
    pub fn observe(&mut self, seen: Seen)
        ensures
            final(self).stage == next_stage(*old(self), seen),
            final(self).probes == old(self).probes,
            final(self).device_was_present == old(self).device_was_present,
    {
        let stage: OpenStage = match self.stage {
            OpenStage::Mainloop => after_call(
                seen.worked,
                OpenStage::Context,
                OpenFault::Mainloop,
            ),
            OpenStage::Context => after_call(seen.worked, OpenStage::Connect, OpenFault::Context),
            OpenStage::Connect => after_call(
                seen.worked,
                OpenStage::AwaitContext,
                OpenFault::Connect,
            ),
            OpenStage::AwaitContext => {
                let next: OpenStage = if self.probes {
                    OpenStage::Probe
                } else {
                    OpenStage::Stream
                };
                after_look(&seen, next, OpenFault::ContextLost, OpenStage::PumpContext)
            },
            OpenStage::PumpContext => after_call(
                seen.worked,
                OpenStage::AwaitContext,
                OpenFault::ConnectPump,
            ),
            OpenStage::Probe => OpenStage::AwaitProbe,
            OpenStage::AwaitProbe => if seen.ready {
                if seen.found {
                    OpenStage::Stream
                } else if self.device_was_present {
                    OpenStage::Done(OpenOutcome::Transient(OpenFault::SourceMissing))
                } else {
                    OpenStage::Done(OpenOutcome::DeviceNotFound)
                }
            } else if seen.stop {
                OpenStage::Done(OpenOutcome::Aborted)
            } else if !seen.good {
                OpenStage::Done(OpenOutcome::Transient(OpenFault::ProbeLost))
            } else {
                OpenStage::PumpProbe
            },
            OpenStage::PumpProbe => after_call(
                seen.worked,
                OpenStage::AwaitProbe,
                OpenFault::ProbePump,
            ),
            OpenStage::Stream => after_call(
                seen.worked,
                OpenStage::StreamConnect,
                OpenFault::Stream,
            ),
            OpenStage::StreamConnect => after_call(
                seen.worked,
                OpenStage::AwaitStream,
                OpenFault::StreamConnect,
            ),
            OpenStage::AwaitStream => after_look(
                &seen,
                OpenStage::Done(OpenOutcome::Ready),
                OpenFault::StreamLost,
                OpenStage::PumpStream,
            ),
            OpenStage::PumpStream => after_call(
                seen.worked,
                OpenStage::AwaitStream,
                OpenFault::StreamPump,
            ),
            OpenStage::Done(outcome) => OpenStage::Done(outcome),
        };
        self.stage = stage;
    }
}

/// An attempt after a series of observations.
pub open spec fn after_seen(o: Opener, seen: Seq<Seen>) -> Opener
    decreases seen.len(),
{
    if seen.len() == 0 {
        o
    } else {
        let before = after_seen(o, seen.drop_last());
        Opener { stage: next_stage(before, seen.last()), ..before }
    }
}

/// An attempt reports a missing device only for a named source that was not there before,
/// and a playback never does. So the short budget is spent on misconfiguration alone.
pub proof fn lemma_device_not_found(o: Opener, seen: Seq<Seen>)
    requires
        o.stage == OpenStage::Mainloop,
    ensures
        ({
            let stage = after_seen(o, seen).stage;
            &&& stage == OpenStage::Done(OpenOutcome::DeviceNotFound) ==> o.probes
                && !o.device_was_present
            &&& stage is Probe || stage is AwaitProbe || stage is PumpProbe ==> o.probes
            &&& after_seen(o, seen).probes == o.probes
            &&& after_seen(o, seen).device_was_present == o.device_was_present
        }),
    decreases seen.len(),
{
    if seen.len() > 0 {
        lemma_device_not_found(o, seen.drop_last());
    }
}

/// A stop is honoured at every turn: while an attempt waits for anything, the next look at
/// it with a stop pending ends the attempt as aborted, unless the wait is over by then.
pub proof fn lemma_stop_ends_waiting(o: Opener, seen: Seen)
    requires
        o.stage is AwaitContext || o.stage is AwaitProbe || o.stage is AwaitStream,
        seen.stop,
        seen.good,
        !seen.ready,
    ensures
        next_stage(o, seen) == OpenStage::Done(OpenOutcome::Aborted),
{
}

/// How far along an attempt is, in calls that have to succeed.
pub open spec fn progress(stage: OpenStage) -> int {
    match stage {
        OpenStage::Mainloop => 0,
        OpenStage::Context => 1,
        OpenStage::Connect => 2,
        OpenStage::AwaitContext => 3,
        OpenStage::PumpContext => 3,
        OpenStage::Probe => 4,
        OpenStage::AwaitProbe => 4,
        OpenStage::PumpProbe => 4,
        OpenStage::Stream => 5,
        OpenStage::StreamConnect => 6,
        OpenStage::AwaitStream => 7,
        OpenStage::PumpStream => 7,
        OpenStage::Done(outcome) => if outcome == OpenOutcome::Ready {
            8
        } else {
            -1
        },
    }
}

/// No attempt gets ahead of itself: it moves one stage at a time, past the look-up of the
/// source at most when there is none, never backwards, and once over it stays over.
pub proof fn lemma_open_in_order(o: Opener, seen: Seen)
    ensures
        ({
            let before = progress(o.stage);
            let after = progress(next_stage(o, seen));
            &&& o.stage is Done ==> next_stage(o, seen) == o.stage
            &&& !(o.stage is Done) && after >= 0 ==> before <= after <= before + 1 || (!o.probes
                && before == 3 && after == 5)
            &&& after == 8 && !(o.stage is Done) ==> o.stage is AwaitStream && seen.ready
        }),
{
}

/// What to do about the session.
#[derive(Clone, Copy, PartialEq, Eq, Structural, Debug)]
pub enum Next {
    /// Leave the loop.
    Finish,
    /// Try to open a session.
    Open,
    /// Turn the main loop of the open session and serve its stream.
    Serve,
}

/// What an attempt leads to.
#[derive(Clone, Copy, PartialEq, Eq, Structural, Debug)]
pub enum Reaction {
    /// The first session is up: the run has started.
    Started,
    /// The session is back after an outage.
    Resumed,
    /// Failed attempt number `tries` out of `cap`: pause for `pause_ms`, then try again.
    Retry {
        /// Failed attempts in a row.
        tries: u32,
        /// The budget.
        cap: u32,
        /// How long to pause.
        pause_ms: u64,
    },
    /// The budget is spent: the run has failed.
    GaveUp,
    /// A stop came in while opening: leave the loop.
    Stopped,
}

/// Decides about the sessions of one run.
#[derive(Clone, Copy, PartialEq, Eq, Structural, Debug)]
pub struct Supervisor {
    /// The kind of run.
    pub path: Path,
    /// A session is open.
    pub connected: bool,
    /// A session was open at some time.
    pub ever_connected: bool,
    /// Failed attempts in a row.
    pub tries: u32,
    /// The pause after the next failed attempt.
    pub backoff_ms: u64,
}

/// How many attempts a failure is worth.
pub open spec fn budget(s: Supervisor, outcome: OpenOutcome) -> u32 {
    if s.path == Path::Capture && outcome == OpenOutcome::DeviceNotFound {
        DEVICE_WAIT_TRIES
    } else if s.ever_connected {
        RECONNECT_TRIES
    } else {
        START_TRIES
    }
}

/// The pause after the next one.
pub open spec fn longer(backoff_ms: int) -> int {
    if 2 * backoff_ms > MAX_BACKOFF_MS {
        MAX_BACKOFF_MS as int
    } else {
        2 * backoff_ms
    }
}

/// The supervisor after an attempt, and what the attempt leads to.
pub open spec fn after_attempt(s: Supervisor, outcome: OpenOutcome) -> (Supervisor, Reaction) {
    match outcome {
        OpenOutcome::Ready => (
            Supervisor {
                connected: true,
                ever_connected: true,
                tries: 0,
                backoff_ms: FIRST_BACKOFF_MS,
                ..s
            },
            if s.ever_connected {
                Reaction::Resumed
            } else {
                Reaction::Started
            },
        ),
        OpenOutcome::Aborted => (s, Reaction::Stopped),
        _ => {
            let tries = (s.tries + 1) as u32;
            let cap = budget(s, outcome);
            if tries >= cap {
                (Supervisor { tries, ..s }, Reaction::GaveUp)
            } else {
                (
                    Supervisor { tries, backoff_ms: longer(s.backoff_ms as int) as u64, ..s },
                    Reaction::Retry { tries, cap, pause_ms: s.backoff_ms },
                )
            }
        },
    }
}

impl Supervisor {
    /// The pauses are in range, and the budget is not spent.
    pub open spec fn wf(&self) -> bool {
        &&& self.tries < RECONNECT_TRIES
        &&& FIRST_BACKOFF_MS <= self.backoff_ms <= MAX_BACKOFF_MS
    }

    /// A run that has not opened anything yet.
    pub fn new(path: Path) -> (s: Self)
        ensures
            s.wf(),
            s == (Supervisor {
                path,
                connected: false,
                ever_connected: false,
                tries: 0,
                backoff_ms: FIRST_BACKOFF_MS,
            }),
    {
        Supervisor {
            path,
            connected: false,
            ever_connected: false,
            tries: 0,
            backoff_ms: FIRST_BACKOFF_MS,
        }
    }

    /// What to do next. A pending stop comes before everything.
    pub fn next(&self, stop_pending: bool) -> (n: Next)
        ensures
            n == if stop_pending {
                Next::Finish
            } else if self.connected {
                Next::Serve
            } else {
                Next::Open
            },
    {
        if stop_pending {
            Next::Finish
        } else if self.connected {
            Next::Serve
        } else {
            Next::Open
        }
    }

    /// Take in how an attempt ended.
    pub fn attempted(&mut self, outcome: OpenOutcome) -> (r: Reaction)
        requires
            old(self).wf(),
        ensures
            (*final(self), r) == after_attempt(*old(self), outcome),
            !(r is GaveUp) ==> final(self).wf(),
    {
        let cap: u32 = if self.ever_connected {
            RECONNECT_TRIES
        } else {
            START_TRIES
        };
        let cap: u32 = match (self.path, outcome) {
            (Path::Capture, OpenOutcome::DeviceNotFound) => DEVICE_WAIT_TRIES,
            _ => cap,
        };
        match outcome {
            OpenOutcome::Ready => {
                let first: bool = !self.ever_connected;
                self.connected = true;
                self.ever_connected = true;
                self.tries = 0;
                self.backoff_ms = FIRST_BACKOFF_MS;
                if first {
                    Reaction::Started
                } else {
                    Reaction::Resumed
                }
            },
            OpenOutcome::Aborted => Reaction::Stopped,
            _ => {
                self.tries = self.tries + 1;
                if self.tries >= cap {
                    return Reaction::GaveUp;
                }
                let pause_ms: u64 = self.backoff_ms;
                let doubled: u64 = self.backoff_ms * 2;
                self.backoff_ms = if doubled > MAX_BACKOFF_MS {
                    MAX_BACKOFF_MS
                } else {
                    doubled
                };
                Reaction::Retry { tries: self.tries, cap, pause_ms }
            },
        }
    }

    /// Take in how an attempt ended, and publish the start of the run with the first session.
    pub fn opened(&mut self, outcome: OpenOutcome, inner: &mut Inner) -> (r: Reaction)
        requires
            old(self).wf(),
        ensures
            (*final(self), r) == after_attempt(*old(self), outcome),
            !(r is GaveUp) ==> final(self).wf(),
            *final(inner) == if r is Started {
                running(*old(inner))
            } else {
                *old(inner)
            },
    {
        let r: Reaction = self.attempted(outcome);
        match r {
            Reaction::Started => {
                inner.set_running();
            },
            _ => {},
        }
        r
    }

    /// The loop is left, because the run gave up or was stopped: resolve the handshake.
    pub fn finish(&self, gave_up: bool, inner: &mut Inner)
        ensures
            *final(inner) == ended(*old(inner), gave_up, self.ever_connected),
    {
        inner.set_ended(gave_up, self.ever_connected);
    }

    /// The session is lost.
    pub fn lost(&mut self)
        ensures
            *final(self) == (Supervisor { connected: false, ..*old(self) }),
    {
        self.connected = false;
    }
}

/// A pause goes on: there is time left and no stop is pending.
pub fn keep_pausing(slept_ms: u64, pause_ms: u64, stop_pending: bool) -> (r: bool)
    ensures
        r == (slept_ms < pause_ms && !stop_pending),
{
    slept_ms < pause_ms && !stop_pending
}

/// An attempt that failed and may be made again.
pub open spec fn failing(outcome: OpenOutcome) -> bool {
    outcome is DeviceNotFound || outcome is Transient
}

/// The supervisor after a row of attempts; `None` once one of them gave up.
pub open spec fn after_attempts(s: Supervisor, outcomes: Seq<OpenOutcome>) -> Option<Supervisor>
    decreases outcomes.len(),
{
    if outcomes.len() == 0 {
        Some(s)
    } else {
        match after_attempts(s, outcomes.drop_last()) {
            None => None,
            Some(before) => {
                let (after, reaction) = after_attempt(before, outcomes.last());
                if reaction is GaveUp {
                    None
                } else {
                    Some(after)
                }
            },
        }
    }
}

/// The pause after `n` failed attempts in a row: doubled each time, up to the longest.
pub open spec fn pause_after(n: nat) -> int
    decreases n,
{
    if n == 0 {
        FIRST_BACKOFF_MS as int
    } else {
        longer(pause_after((n - 1) as nat))
    }
}

/// Retries are bounded and spaced out. After a row of failures that did not make it give up,
/// a supervisor that had just begun, or had just lost its session, has counted each of them,
/// is still within its budget, and pauses for twice as long each time, up to the longest.
pub proof fn lemma_retries_bounded(s: Supervisor, outcomes: Seq<OpenOutcome>)
    requires
        s.tries == 0,
        s.backoff_ms == FIRST_BACKOFF_MS,
        forall|i: int| 0 <= i < outcomes.len() ==> failing(#[trigger] outcomes[i]),
    ensures
        outcomes.len() >= RECONNECT_TRIES ==> after_attempts(s, outcomes) is None,
        outcomes.len() >= START_TRIES && !s.ever_connected ==> after_attempts(s, outcomes) is None,
        after_attempts(s, outcomes) matches Some(t) ==> {
            &&& t.wf()
            &&& t.tries == outcomes.len()
            &&& t.backoff_ms == pause_after(outcomes.len())
            &&& t.ever_connected == s.ever_connected
            &&& t.connected == s.connected
            &&& t.path == s.path
            &&& outcomes.len() > 0 ==> t.tries < budget(s, outcomes.last())
        },
    decreases outcomes.len(),
{
    if outcomes.len() > 0 {
        let init = outcomes.drop_last();
        assert(forall|i: int| 0 <= i < init.len() ==> init[i] == #[trigger] outcomes[i]);
        lemma_retries_bounded(s, init);
        assert(failing(outcomes[outcomes.len() - 1]));
        assert(outcomes.last() == outcomes[outcomes.len() - 1]);
    }
}

/// No run gives up early: as long as the failures in a row are fewer than what the shortest
/// applicable budget allows, it keeps trying.
pub proof fn lemma_retries_until_budget(s: Supervisor, outcomes: Seq<OpenOutcome>, cap: u32)
    requires
        s.tries == 0,
        s.backoff_ms == FIRST_BACKOFF_MS,
        outcomes.len() < cap,
        forall|i: int|
            0 <= i < outcomes.len() ==> failing(#[trigger] outcomes[i]) && cap <= budget(
                s,
                outcomes[i],
            ),
    ensures
        after_attempts(s, outcomes) is Some,
    decreases outcomes.len(),
{
    if outcomes.len() > 0 {
        let init = outcomes.drop_last();
        assert(forall|i: int| 0 <= i < init.len() ==> init[i] == #[trigger] outcomes[i]);
        lemma_retries_until_budget(s, init, cap);
        lemma_retries_bounded(s, init);
        assert(failing(outcomes[outcomes.len() - 1]));
        assert(outcomes.last() == outcomes[outcomes.len() - 1]);
    }
}

/// A success wipes the slate: the next outage starts with a full budget and the shortest
/// pause.
pub proof fn lemma_success_resets(s: Supervisor)
    ensures
        ({
            let (t, r) = after_attempt(s, OpenOutcome::Ready);
            &&& t.tries == 0
            &&& t.backoff_ms == FIRST_BACKOFF_MS
            &&& t.connected && t.ever_connected
            &&& r == if s.ever_connected {
                Reaction::Resumed
            } else {
                Reaction::Started
            }
        }),
{
}

/// A run is announced as started once: with its first session, and never again.
pub proof fn lemma_started_once(s: Supervisor, outcome: OpenOutcome)
    ensures
        ({
            let (t, r) = after_attempt(s, outcome);
            &&& r is Started <==> outcome is Ready && !s.ever_connected
            &&& s.ever_connected || r is Started <==> t.ever_connected
            &&& s.connected || outcome is Ready <==> t.connected
        }),
{
}

/// What a turn of the main loop leads to.
pub fn session_lost(pumped: bool, stream_ready: bool) -> (lost: bool)
    ensures
        lost == !(pumped && stream_ready),
{
    !pumped || !stream_ready
}

/// What a record stream holds.
#[derive(Clone, Copy, PartialEq, Eq, Structural, Debug)]
pub enum Peeked {
    /// Nothing more.
    Empty,
    /// A gap: samples were lost.
    Hole,
    /// A fragment.
    Data,
    /// The look itself failed.
    Failed,
}

/// What to do with it.
#[derive(Clone, Copy, PartialEq, Eq, Structural, Debug)]
pub struct PeekAction {
    /// Feed the fragment into the reassembly.
    pub feed: bool,
    /// Advance the read index.
    pub discard: bool,
    /// Stop looking until the next turn.
    pub done: bool,
}

/// Drain a record stream: fragments are fed, gaps skipped, until nothing is left.
pub fn on_peek(peeked: Peeked) -> (a: PeekAction)
    ensures
        a.feed == (peeked is Data),
        a.discard == (peeked is Data || peeked is Hole),
        a.done == (peeked is Empty || peeked is Failed),
{
    match peeked {
        Peeked::Empty => PeekAction { feed: false, discard: false, done: true },
        Peeked::Hole => PeekAction { feed: false, discard: true, done: false },
        Peeked::Data => PeekAction { feed: true, discard: true, done: false },
        Peeked::Failed => PeekAction { feed: false, discard: false, done: true },
    }
}

} // verus!
