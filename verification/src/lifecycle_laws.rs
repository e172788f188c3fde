//! What each step in the life of a run changes, and what it leaves alone.

use vstd::prelude::*;

use crate::lifecycle::{
    after_spawn, alive, armed, claimed, clamped_bitrate, ended, externally_stopped, failed,
    own_thread, published, retuned, running, self_restarted, self_stopped, stopping, taken_over,
    Inner, Mirrors, Path, WorkerSlot, HANDSHAKE_POLLS, HANDSHAKE_SLEEP_MS, MAX_BITRATE, MIN_BITRATE,
    STOP_EXTERNAL, STOP_NONE, ST_FAILED, ST_RUNNING, ST_STARTING,
};

verus! {

/// The two agree on which threads serve the run.
pub open spec fn same_threads(s: Inner, t: Inner) -> bool {
    s.capture_tid == t.capture_tid && s.deliver_tid == t.deliver_tid
}

/// The two agree on the settings that the run follows.
pub open spec fn same_settings(s: Inner, t: Inner) -> bool {
    &&& s.opus_bitrate == t.opus_bitrate
    &&& s.use_silence_gate == t.use_silence_gate
    &&& s.debug_logging == t.debug_logging
    &&& s.emit_audio_header == t.emit_audio_header
}

/// The two agree on how far the run has come.
pub open spec fn same_start(s: Inner, t: Inner) -> bool {
    s.started_ok == t.started_ok && s.start_state == t.start_state
}

/// The marks that states carry, which are all different: zero for no stop, minus one for one
/// from outside, so that no thread's id is either; and one, two, three for a start under way,
/// done and failed.
pub proof fn lemma_marks()
    ensures
        STOP_NONE == 0,
        STOP_EXTERNAL == -1,
        ST_STARTING == 1,
        ST_RUNNING == 2,
        ST_FAILED == 3,
{
}

/// A stop touches the stop mark alone. One from outside always sets it, to minus one. One by
/// a thread of the run sets it to that thread's id where none is pending; a start by a thread
/// clears it where it is that thread's own.
pub proof fn lemma_stops(s: Inner, me: i64)
    ensures
        ({
            let t = externally_stopped(s);
            &&& t.stop_state == -1
            &&& same_threads(s, t) && same_settings(s, t) && same_start(s, t)
        }),
        ({
            let t = self_stopped(s, me);
            &&& s.stop_state == 0 ==> t.stop_state == me
            &&& s.stop_state != 0 ==> t.stop_state == s.stop_state
            &&& same_threads(s, t) && same_settings(s, t) && same_start(s, t)
        }),
        ({
            let t = self_restarted(s, me);
            &&& s.stop_state == me ==> t.stop_state == 0
            &&& s.stop_state != me ==> t.stop_state == s.stop_state
            &&& same_threads(s, t) && same_settings(s, t) && same_start(s, t)
        }),
        stopping(s) <==> s.stop_state != 0,
{
}

/// A start clears the stop and is under way; then it is done or has failed. None of this
/// touches threads or settings, and only the arming touches the stop.
pub proof fn lemma_starts(s: Inner, worker: Option<u64>)
    ensures
        ({
            let t = armed(s);
            &&& t.stop_state == 0 && !t.started_ok && t.start_state == 1
            &&& same_threads(s, t) && same_settings(s, t)
        }),
        ({
            let t = running(s);
            &&& t.started_ok && t.start_state == 2 && t.stop_state == s.stop_state
            &&& same_threads(s, t) && same_settings(s, t)
        }),
        ({
            let t = failed(s);
            &&& !t.started_ok && t.start_state == 3 && t.stop_state == s.stop_state
            &&& same_threads(s, t) && same_settings(s, t)
        }),
        worker is Some ==> after_spawn(s, worker) == s,
        worker is None ==> ({
            let t = after_spawn(s, worker);
            &&& !t.started_ok && t.start_state == 3 && t.stop_state == s.stop_state
            &&& same_threads(s, t) && same_settings(s, t)
        }),
{
}

/// A run that ends is no longer up. It has failed exactly where it gave up or never had a
/// session; a run that was up and was stopped has not.
pub proof fn lemma_end(s: Inner, gave_up: bool, ever_connected: bool)
    ensures
        ({
            let t = ended(s, gave_up, ever_connected);
            &&& !t.started_ok
            &&& gave_up ==> t.start_state == 3
            &&& !ever_connected ==> t.start_state == 3
            &&& !gave_up && ever_connected ==> t.start_state == s.start_state
            &&& t.stop_state == s.stop_state
            &&& same_threads(s, t) && same_settings(s, t)
        }),
{
}

/// What a run publishes is what it was given: the header is put in front exactly where it is
/// not left out. Nothing else changes.
pub proof fn lemma_published(s: Inner, m: Mirrors)
    ensures
        ({
            let t = published(s, m);
            &&& t.opus_bitrate == m.opus_bitrate
            &&& t.use_silence_gate == m.use_silence_gate
            &&& t.debug_logging == m.debug_logging
            &&& t.emit_audio_header <==> !m.omit_audio_header
            &&& t.stop_state == s.stop_state
            &&& same_threads(s, t) && same_start(s, t)
        }),
{
}

/// The bitrate in effect is the one nearest to the request from 6 to 510 kbit/s, and a request
/// changes nothing else.
pub proof fn lemma_bitrate(s: Inner, bps: i32)
    ensures
        6000 <= clamped_bitrate(bps) <= 510000,
        6000 <= bps <= 510000 ==> clamped_bitrate(bps) == bps,
        bps < 6000 ==> clamped_bitrate(bps) == 6000,
        bps > 510000 ==> clamped_bitrate(bps) == 510000,
        MIN_BITRATE == 6000 && MAX_BITRATE == 510000,
        ({
            let t = retuned(s, bps);
            &&& 6000 <= bps <= 510000 ==> t.opus_bitrate == bps
            &&& bps < 6000 ==> t.opus_bitrate == 6000
            &&& bps > 510000 ==> t.opus_bitrate == 510000
            &&& t.use_silence_gate == s.use_silence_gate && t.debug_logging == s.debug_logging
            &&& t.emit_audio_header == s.emit_audio_header && t.stop_state == s.stop_state
            &&& same_threads(s, t) && same_start(s, t)
        }),
{
}

/// A worker is there from the moment its start is under way, and, once it is up, until it
/// leaves the loop or a stop is pending.
pub proof fn lemma_alive(s: Inner)
    ensures
        s.start_state == 1 ==> alive(s),
        s.start_state != 1 && s.started_ok && s.stop_state == 0 ==> alive(s),
        s.start_state != 1 && !s.started_ok ==> !alive(s),
        s.start_state != 1 && s.stop_state != 0 ==> !alive(s),
{
}

/// A capture's own threads are its worker and the one that runs the callback; a playback's is
/// its worker.
pub proof fn lemma_own_threads(s: Inner, me: i64)
    ensures
        own_thread(s, Path::Capture, s.capture_tid),
        own_thread(s, Path::Capture, s.deliver_tid),
        own_thread(s, Path::Playback, s.capture_tid),
        me != s.capture_tid ==> !own_thread(s, Path::Playback, me),
        me != s.capture_tid && me != s.deliver_tid ==> !own_thread(s, Path::Capture, me),
{
}

/// Taking a slot over hands its worker, if there is one, to the caller to join, stopped from
/// outside, and leaves the slot empty. Without a worker nothing is stopped.
pub proof fn lemma_taken_over(slot: WorkerSlot, s: Inner)
    ensures
        ({
            let (empty, t, join) = taken_over(slot, s);
            &&& empty.worker is None
            &&& join == slot.worker
            &&& slot.worker is None ==> t == s
            &&& slot.worker is Some ==> t.stop_state == -1 && same_threads(s, t)
                && same_settings(s, t) && same_start(s, t)
        }),
{
}

/// The cleanup of a failed start takes over the worker that this start made, and leaves a slot
/// with any other worker, or with none, as it is.
pub proof fn lemma_claimed(slot: WorkerSlot, s: Inner, spawned: u64)
    ensures
        ({
            let (after, t, join) = claimed(slot, s, spawned);
            &&& slot.worker == Some(spawned) ==> after.worker is None && join == Some(spawned)
                && t.stop_state == -1 && same_threads(s, t) && same_settings(s, t) && same_start(
                s,
                t,
            )
            &&& slot.worker != Some(spawned) ==> after == slot && t == s && join is None
        }),
{
}

/// A start waits two seconds for its run, in steps of ten milliseconds.
pub proof fn lemma_patience()
    ensures
        HANDSHAKE_POLLS == 200,
        HANDSHAKE_SLEEP_MS == 10,
        HANDSHAKE_POLLS * HANDSHAKE_SLEEP_MS == 2000,
{
}

} // verus!
