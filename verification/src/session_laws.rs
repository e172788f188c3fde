//! What keeping a session up amounts to, from the first call to the last attempt.

use vstd::arithmetic::power::pow;
use vstd::prelude::*;

use crate::lifecycle::Path;
use crate::session::{
    after_attempt, after_attempts, after_seen, failing, next_stage, pause_after, OpenFault,
    OpenOutcome, OpenStage, Opener, Reaction, Seen, Supervisor, BACKOFF_SLICE_MS,
};

verus! {

/// An attempt ends with this fault.
pub open spec fn fails(fault: OpenFault) -> OpenStage {
    OpenStage::Done(OpenOutcome::Transient(fault))
}

/// What works leads on. Each call that succeeds, and each wait that ends well, brings an
/// attempt to the next stage, and none of them depends on whether the source was there
/// before. A source is looked up exactly where one is named; found, the stream comes next.
pub proof fn lemma_success_leads_on(o: Opener, seen: Seen)
    ensures
        ({
            let next = next_stage(o, seen);
            &&& o.stage is Mainloop && seen.worked ==> next is Context
            &&& o.stage is Context && seen.worked ==> next is Connect
            &&& o.stage is Connect && seen.worked ==> next is AwaitContext
            &&& o.stage is AwaitContext && seen.ready && o.probes ==> next is Probe
            &&& o.stage is AwaitContext && seen.ready && !o.probes ==> next is Stream
            &&& o.stage is Probe ==> next is AwaitProbe
            &&& o.stage is AwaitProbe && seen.ready && seen.found ==> next is Stream
            &&& o.stage is Stream && seen.worked ==> next is StreamConnect
            &&& o.stage is StreamConnect && seen.worked ==> next is AwaitStream
            &&& o.stage is AwaitStream && seen.ready ==> next == OpenStage::Done(OpenOutcome::Ready)
        }),
{
}

/// What is not there yet is waited for: the main loop turns, and then comes the same look
/// again.
pub proof fn lemma_waits(o: Opener, seen: Seen)
    ensures
        ({
            let next = next_stage(o, seen);
            let wait = !seen.ready && seen.good && !seen.stop;
            &&& o.stage is AwaitContext && wait ==> next is PumpContext
            &&& o.stage is AwaitProbe && wait ==> next is PumpProbe
            &&& o.stage is AwaitStream && wait ==> next is PumpStream
            &&& o.stage is PumpContext && seen.worked ==> next is AwaitContext
            &&& o.stage is PumpProbe && seen.worked ==> next is AwaitProbe
            &&& o.stage is PumpStream && seen.worked ==> next is AwaitStream
        }),
{
}

/// Every way an attempt can end, and the only thing seen that ends it so. In particular a
/// source counts as missing only where the answer is there and does not name it.
pub proof fn lemma_ends_for_a_reason(o: Opener, seen: Seen)
    requires
        !(o.stage is Done),
    ensures
        ({
            let next = next_stage(o, seen);
            let unnamed = o.stage is AwaitProbe && seen.ready && !seen.found;
            let waiting = !seen.ready && seen.good && seen.stop;
            &&& next == OpenStage::Done(OpenOutcome::Ready) <==> o.stage is AwaitStream
                && seen.ready
            &&& next == OpenStage::Done(OpenOutcome::DeviceNotFound) <==> unnamed
                && !o.device_was_present
            &&& next == fails(OpenFault::SourceMissing) <==> unnamed && o.device_was_present
            &&& next == OpenStage::Done(OpenOutcome::Aborted) <==> (o.stage is AwaitContext
                && waiting) || (o.stage is AwaitStream && waiting) || (o.stage is AwaitProbe
                && !seen.ready && seen.stop)
            &&& next == fails(OpenFault::Mainloop) <==> o.stage is Mainloop && !seen.worked
            &&& next == fails(OpenFault::Context) <==> o.stage is Context && !seen.worked
            &&& next == fails(OpenFault::Connect) <==> o.stage is Connect && !seen.worked
            &&& next == fails(OpenFault::ContextLost) <==> o.stage is AwaitContext && !seen.ready
                && !seen.good
            &&& next == fails(OpenFault::ConnectPump) <==> o.stage is PumpContext && !seen.worked
            &&& next == fails(OpenFault::ProbeLost) <==> o.stage is AwaitProbe && !seen.ready
                && !seen.good && !seen.stop
            &&& next == fails(OpenFault::ProbePump) <==> o.stage is PumpProbe && !seen.worked
            &&& next == fails(OpenFault::Stream) <==> o.stage is Stream && !seen.worked
            &&& next == fails(OpenFault::StreamConnect) <==> o.stage is StreamConnect
                && !seen.worked
            &&& next == fails(OpenFault::StreamLost) <==> o.stage is AwaitStream && !seen.ready
                && !seen.good
            &&& next == fails(OpenFault::StreamPump) <==> o.stage is PumpStream && !seen.worked
        }),
{
}

/// Everything seen is as one would wish.
pub open spec fn all_well(seen: Seen) -> bool {
    seen.worked && seen.ready && seen.found
}

/// The stages of an attempt without a hitch, by the number of observations.
pub open spec fn smooth_stage(probes: bool, n: nat) -> OpenStage {
    if n == 0 {
        OpenStage::Mainloop
    } else if n == 1 {
        OpenStage::Context
    } else if n == 2 {
        OpenStage::Connect
    } else if n == 3 {
        OpenStage::AwaitContext
    } else if probes && n == 4 {
        OpenStage::Probe
    } else if probes && n == 5 {
        OpenStage::AwaitProbe
    } else {
        let k = if probes {
            n - 6
        } else {
            n - 4
        };
        if k == 0 {
            OpenStage::Stream
        } else if k == 1 {
            OpenStage::StreamConnect
        } else if k == 2 {
            OpenStage::AwaitStream
        } else {
            OpenStage::Done(OpenOutcome::Ready)
        }
    }
}

/// An attempt in which everything works ends with a stream that is ready, at a start and at a
/// reconnect alike, with a named source and without: after seven observations, or nine where
/// the source is looked up.
pub proof fn lemma_smooth_attempt(o: Opener, seen: Seq<Seen>)
    requires
        o.stage is Mainloop,
        forall|i: int| 0 <= i < seen.len() ==> all_well(#[trigger] seen[i]),
    ensures
        after_seen(o, seen).stage == smooth_stage(o.probes, seen.len()),
        after_seen(o, seen).probes == o.probes,
        after_seen(o, seen).device_was_present == o.device_was_present,
        seen.len() >= 9 ==> after_seen(o, seen).stage == OpenStage::Done(OpenOutcome::Ready),
        seen.len() >= 7 && !o.probes ==> after_seen(o, seen).stage == OpenStage::Done(
            OpenOutcome::Ready,
        ),
    decreases seen.len(),
{
    if seen.len() > 0 {
        let init = seen.drop_last();
        assert(forall|i: int| 0 <= i < init.len() ==> init[i] == #[trigger] seen[i]);
        lemma_smooth_attempt(o, init);
        assert(seen.last() == seen[seen.len() - 1]);
    }
}

/// However long a wait takes, it does not change how an attempt goes on: waiting one more turn
/// leaves the attempt where it was.
pub proof fn lemma_waiting_changes_nothing(o: Opener, look: Seen, turn: Seen)
    requires
        o.stage is AwaitContext || o.stage is AwaitProbe || o.stage is AwaitStream,
        !look.ready,
        look.good,
        !look.stop,
        turn.worked,
    ensures
        after_seen(o, seq![look, turn]) == o,
{
    let two = seq![look, turn];
    assert(two.drop_last() =~= seq![look]);
    assert(two.drop_last().drop_last() =~= Seq::<Seen>::empty());
    reveal_with_fuel(after_seen, 3);
}

/// An attempt blames the source only where an answer was seen that does not name it.
pub proof fn lemma_source_blamed(o: Opener, seen: Seq<Seen>)
    requires
        o.stage is Mainloop,
        forall|i: int| 0 <= i < seen.len() ==> !(#[trigger] seen[i]).ready || seen[i].found,
    ensures
        after_seen(o, seen).stage != OpenStage::Done(OpenOutcome::DeviceNotFound),
        after_seen(o, seen).stage != fails(OpenFault::SourceMissing),
    decreases seen.len(),
{
    if seen.len() > 0 {
        let init = seen.drop_last();
        assert(forall|i: int| 0 <= i < init.len() ==> init[i] == #[trigger] seen[i]);
        lemma_source_blamed(o, init);
        assert(seen.last() == seen[seen.len() - 1]);
    }
}

/// How many failures in a row end a run: six where a capture finds its source missing, forty
/// once a session was up, twelve before.
pub open spec fn tries_allowed(s: Supervisor, outcome: OpenOutcome) -> int {
    if outcome is DeviceNotFound && s.path == Path::Capture {
        6
    } else if s.ever_connected {
        40
    } else {
        12
    }
}

/// A failed attempt is counted, and nothing else about the run changes but the pause. The
/// last one allowed ends the run; any other is followed by the pause due and another attempt,
/// and the pause after that is twice as long, though no longer than five seconds.
pub proof fn lemma_failed_attempt(s: Supervisor, outcome: OpenOutcome)
    requires
        outcome is DeviceNotFound || outcome is Transient,
        s.tries < 40,
        s.backoff_ms <= 5000,
    ensures
        ({
            let (t, r) = after_attempt(s, outcome);
            let allowed = tries_allowed(s, outcome);
            &&& t.tries == s.tries + 1
            &&& t.path == s.path && t.connected == s.connected
            &&& t.ever_connected == s.ever_connected
            &&& t.tries >= allowed ==> r is GaveUp && t.backoff_ms == s.backoff_ms
            &&& t.tries < allowed ==> {
                &&& r == Reaction::Retry {
                    tries: t.tries,
                    cap: allowed as u32,
                    pause_ms: s.backoff_ms,
                }
                &&& 2 * s.backoff_ms <= 5000 ==> t.backoff_ms == 2 * s.backoff_ms
                &&& 2 * s.backoff_ms > 5000 ==> t.backoff_ms == 5000
            }
        }),
{
}

/// A stop ends the loop and changes nothing; a session that is up resets the count and the
/// pause, and is announced as the start or as a return.
pub proof fn lemma_attempt_without_failure(s: Supervisor)
    ensures
        after_attempt(s, OpenOutcome::Aborted) == (s, Reaction::Stopped),
        ({
            let (t, r) = after_attempt(s, OpenOutcome::Ready);
            &&& t.path == s.path && t.connected && t.ever_connected
            &&& t.tries == 0 && t.backoff_ms == 250
            &&& s.ever_connected ==> r is Resumed
            &&& !s.ever_connected ==> r is Started
        }),
        s.wf() <==> s.tries < 40 && 250 <= s.backoff_ms <= 5000,
        BACKOFF_SLICE_MS == 50,
{
}

/// What may be tried again is what neither came up nor was stopped.
pub proof fn lemma_failing(outcome: OpenOutcome)
    ensures
        failing(outcome) <==> outcome != OpenOutcome::Ready && outcome != OpenOutcome::Aborted,
{
}

/// The pauses: a quarter of a second, doubled with each failure, five seconds from the fifth
/// on.
pub proof fn lemma_pauses(n: nat)
    ensures
        n < 5 ==> pause_after(n) == 250 * pow(2, n),
        n >= 5 ==> pause_after(n) == 5000,
    decreases n,
{
    reveal(pow);
    reveal_with_fuel(pow, 6);
    if n > 0 {
        lemma_pauses((n - 1) as nat);
    }
}

/// A run that fails in the same way each time gives up with the failure that spends its
/// budget, neither earlier nor later.
pub proof fn lemma_gives_up_on_time(s: Supervisor, outcomes: Seq<OpenOutcome>, allowed: int)
    requires
        s.tries == 0,
        s.backoff_ms == 250,
        allowed == 6 || allowed == 12 || allowed == 40,
        forall|i: int|
            0 <= i < outcomes.len() ==> ((#[trigger] outcomes[i]) is DeviceNotFound
                || outcomes[i] is Transient) && tries_allowed(s, outcomes[i]) == allowed,
    ensures
        after_attempts(s, outcomes) is Some <==> outcomes.len() < allowed,
        after_attempts(s, outcomes) matches Some(t) ==> {
            &&& t.tries == outcomes.len()
            &&& t.backoff_ms <= 5000
            &&& t.path == s.path && t.ever_connected == s.ever_connected
        },
    decreases outcomes.len(),
{
    if outcomes.len() > 0 {
        let init = outcomes.drop_last();
        assert(forall|i: int| 0 <= i < init.len() ==> init[i] == #[trigger] outcomes[i]);
        lemma_gives_up_on_time(s, init, allowed);
        let last = outcomes[outcomes.len() - 1];
        assert(outcomes.last() == last);
        match after_attempts(s, init) {
            None => {},
            Some(t) => {
                lemma_failed_attempt(t, last);
                assert(tries_allowed(t, last) == tries_allowed(s, last));
            },
        }
    }
}

} // verus!
