use pcmflux::lifecycle::{
    handshake, Handshake, Inner, Mirrors, NotRunning, Path, WorkerSlot, HANDSHAKE_POLLS, ST_FAILED,
    ST_RUNNING, ST_STARTING, STOP_EXTERNAL, STOP_NONE,
};

#[test]
fn reentrancy_guard_matches_delivery_thread() {
    let mut inner = Inner::new();
    let me: i64 = 4711;
    assert!(!inner.is_own_thread(me), "no run live: nothing should match");
    inner.deliver_tid = me;
    assert!(inner.is_own_thread(me), "delivery tid must short-circuit the guard");
    inner.deliver_tid = 0;
    inner.capture_tid = me;
    assert!(inner.is_own_thread(me), "capture tid must still short-circuit the guard");
}

#[test]
fn worker_alive_tracks_loop_error_exit() {
    let mut inner = Inner::new();
    assert!(!inner.worker_alive(), "no worker yet");

    inner.start_state = ST_STARTING;
    assert!(inner.worker_alive(), "startup handshake counts as alive");

    inner.started_ok = true;
    inner.start_state = ST_RUNNING;
    assert!(inner.worker_alive());

    inner.started_ok = false;
    assert_eq!(inner.stop_state, STOP_NONE);
    assert!(!inner.worker_alive(), "dead loop must be observable");

    inner.started_ok = true;
    inner.request_external_stop();
    assert!(!inner.worker_alive());
}

#[test]
fn external_stop_survives_self_restarts() {
    let me: i64 = 987654;
    let mut inner = Inner::new();
    for _ in 0..5 {
        inner.request_self_stop(me);
        assert!(inner.stop_pending());
        inner.undo_self_stop(me);
        assert!(!inner.stop_pending());
    }
    inner.request_self_stop(me);
    inner.request_external_stop();
    for _ in 0..5 {
        inner.undo_self_stop(me);
        inner.request_self_stop(me);
    }
    assert_eq!(inner.stop_state, STOP_EXTERNAL);
    assert!(inner.stop_pending());
    inner.clear_stop();
    assert_eq!(inner.stop_state, STOP_NONE);
}

#[test]
fn self_stop_belongs_to_its_thread() {
    let mut inner = Inner::new();
    inner.request_self_stop(5);
    inner.request_self_stop(6);
    assert_eq!(inner.stop_state, 5);
    inner.undo_self_stop(6);
    assert_eq!(inner.stop_state, 5);
    inner.undo_self_stop(5);
    assert_eq!(inner.stop_state, STOP_NONE);
}

#[test]
fn loser_cleanup_spares_the_winner() {
    let mut inner = Inner::new();
    let mut slot = WorkerSlot::new();

    assert_eq!(slot.take_over(&mut inner), None);
    slot.arm(&mut inner);
    slot.spawned(Some(1), &mut inner);
    inner.set_failed();

    assert_eq!(slot.take_over(&mut inner), Some(1));
    assert_eq!(inner.stop_state, STOP_EXTERNAL, "the stop is stored before the join");
    inner.worker_leaves();
    slot.arm(&mut inner);
    slot.spawned(Some(2), &mut inner);
    inner.set_running();

    assert_eq!(slot.claim_failed(&mut inner, 1), None);
    assert_eq!(slot.worker, Some(2), "winner's handle must survive");
    assert_eq!(inner.stop_state, STOP_NONE);
    assert!(inner.worker_alive(), "winner must still be running");

    assert_eq!(slot.claim_failed(&mut inner, 2), Some(2));
    assert_eq!(slot.worker, None);
    assert!(!inner.worker_alive());
}

#[test]
fn failed_spawn_leaves_an_empty_slot() {
    let mut inner = Inner::new();
    let mut slot = WorkerSlot::new();
    slot.arm(&mut inner);
    assert!(inner.worker_alive());
    slot.spawned(None, &mut inner);
    assert_eq!(slot.worker, None);
    assert_eq!(inner.start_state, ST_FAILED);
    assert!(!inner.worker_alive(), "nobody would play what is written");

    // A worker that was there before is gone as well.
    slot.arm(&mut inner);
    slot.spawned(Some(1), &mut inner);
    inner.set_running();
    assert_eq!(slot.take_over(&mut inner), Some(1));
    inner.worker_leaves();
    slot.arm(&mut inner);
    slot.spawned(None, &mut inner);
    assert!(!inner.worker_alive());
    assert!(!inner.stop_pending());
}

/// Two starts: the first worker fails, the second serves. The cleanup of the first may come
/// before the second takes over, between its steps, or after it is up.
#[test]
fn losing_start_never_kills_the_winner_in_any_order() {
    for cleanup_at in 0..3 {
        let mut inner = Inner::new();
        let mut slot = WorkerSlot::new();
        slot.arm(&mut inner);
        slot.spawned(Some(1), &mut inner);
        inner.set_failed();

        if cleanup_at == 0 {
            assert_eq!(slot.claim_failed(&mut inner, 1), Some(1));
            inner.worker_leaves();
        }
        let joined = slot.take_over(&mut inner);
        assert_eq!(joined, if cleanup_at == 0 { None } else { Some(1) });
        inner.worker_leaves();
        slot.arm(&mut inner);
        slot.spawned(Some(2), &mut inner);
        if cleanup_at == 1 {
            assert_eq!(slot.claim_failed(&mut inner, 1), None);
        }
        inner.set_running();
        if cleanup_at == 2 {
            assert_eq!(slot.claim_failed(&mut inner, 1), None);
        }

        assert_eq!(slot.worker, Some(2), "winner's thread must survive");
        assert_eq!(inner.start_state, ST_RUNNING);
        assert_eq!(inner.stop_state, STOP_NONE);
        assert!(inner.worker_alive(), "winner must still be alive after both starts");

        assert_eq!(slot.take_over(&mut inner), Some(2));
        assert!(!inner.worker_alive());
    }
}

#[test]
fn reentrant_calls_never_reach_the_join() {
    let mut inner = Inner::new();
    inner.set_running();
    inner.worker_enters(10);
    inner.delivery_enters(11);
    assert!(!inner.reentrant_stop(Path::Capture, 12));
    assert!(!inner.stop_pending());
    assert!(inner.reentrant_stop(Path::Capture, 11));
    assert_eq!(inner.stop_state, 11);
    assert!(inner.reentrant_start(Path::Capture, 11));
    assert_eq!(inner.stop_state, STOP_NONE);
    assert!(!inner.reentrant_stop(Path::Playback, 11));
    assert!(inner.reentrant_stop(Path::Playback, 10));
    assert!(!inner.is_running());
    inner.delivery_leaves();
    inner.worker_leaves();
    assert!(!inner.is_own_thread(10) && !inner.is_own_thread(11));
}

#[test]
fn bitrate_is_clamped_and_does_not_persist() {
    let mut inner = Inner::new();
    assert_eq!(inner.opus_bitrate, 128000);
    inner.update_audio_bitrate(1);
    assert_eq!(inner.opus_bitrate, 6000);
    inner.update_audio_bitrate(1_000_000);
    assert_eq!(inner.opus_bitrate, 510000);
    inner.update_audio_bitrate(96000);
    assert_eq!(inner.opus_bitrate, 96000);
    inner.publish(Mirrors {
        opus_bitrate: 64000,
        use_silence_gate: false,
        debug_logging: true,
        omit_audio_header: true,
    });
    assert_eq!(inner.opus_bitrate, 64000);
    assert!(!inner.use_silence_gate && inner.debug_logging && !inner.emit_audio_header);
    inner.publish_logging(false);
    assert!(!inner.debug_logging);
}

#[test]
fn ending_resolves_the_handshake() {
    let mut inner = Inner::new();
    inner.start_state = ST_STARTING;
    inner.set_ended(false, false);
    assert_eq!(inner.start_state, ST_FAILED);

    inner.set_running();
    inner.set_ended(false, true);
    assert_eq!(inner.start_state, ST_RUNNING);
    assert!(!inner.worker_alive());

    inner.set_running();
    inner.set_ended(true, true);
    assert_eq!(inner.start_state, ST_FAILED);
}

#[test]
fn handshake_waits_two_seconds_at_most() {
    assert_eq!(handshake(0, ST_RUNNING), Handshake::Up);
    assert_eq!(handshake(0, 0), Handshake::Up);
    assert_eq!(handshake(500, ST_FAILED), Handshake::Down);
    let mut polls = 0;
    while handshake(polls, ST_STARTING) == Handshake::Poll {
        polls += 1;
    }
    assert_eq!(polls, HANDSHAKE_POLLS - 1);
    assert_eq!(handshake(polls, ST_STARTING), Handshake::LetGo);
}

#[test]
fn dead_runs_refuse_what_is_written() {
    let mut inner = Inner::new();
    assert_eq!(inner.require_alive(), Err(NotRunning));
    inner.start_state = ST_STARTING;
    assert_eq!(inner.require_alive(), Ok(()));
    inner.set_running();
    assert_eq!(inner.require_alive(), Ok(()));
    inner.request_self_stop(7);
    assert_eq!(inner.require_alive(), Err(NotRunning));
    inner.undo_self_stop(7);
    inner.set_failed();
    assert_eq!(inner.require_alive(), Err(NotRunning));
}
