use pcmflux::lifecycle::{Inner, Path, ST_FAILED, ST_RUNNING, ST_STARTING};
use pcmflux::session::{
    keep_pausing, on_peek, session_lost, Next, OpenFault, OpenOutcome, OpenStage, Opener, Peeked,
    Reaction, Seen, Supervisor,
};

const DOWN: OpenOutcome = OpenOutcome::Transient(OpenFault::Connect);

fn seen() -> Seen {
    Seen { worked: true, ready: false, good: true, stop: false, found: false }
}

/// Drive an attempt by what happens at each stage.
fn drive(mut o: Opener, happens: impl Fn(OpenStage, usize) -> Seen) -> OpenOutcome {
    for turn in 0..1000 {
        if let OpenStage::Done(outcome) = o.stage {
            return outcome;
        }
        let s = happens(o.stage, turn);
        o.observe(s);
    }
    panic!("attempt never ends");
}

fn smooth(stage: OpenStage, _turn: usize) -> Seen {
    match stage {
        OpenStage::AwaitContext | OpenStage::AwaitStream => Seen { ready: true, ..seen() },
        OpenStage::AwaitProbe => Seen { ready: true, found: true, ..seen() },
        _ => seen(),
    }
}

#[test]
fn attempt_runs_through_its_stages() {
    let mut o = Opener::capture(true, false);
    let mut stages = vec![o.stage];
    while !matches!(o.stage, OpenStage::Done(_)) {
        o.observe(smooth(o.stage, 0));
        stages.push(o.stage);
    }
    assert_eq!(
        stages,
        vec![
            OpenStage::Mainloop,
            OpenStage::Context,
            OpenStage::Connect,
            OpenStage::AwaitContext,
            OpenStage::Probe,
            OpenStage::AwaitProbe,
            OpenStage::Stream,
            OpenStage::StreamConnect,
            OpenStage::AwaitStream,
            OpenStage::Done(OpenOutcome::Ready),
        ]
    );
    assert_eq!(drive(Opener::capture(false, false), smooth), OpenOutcome::Ready);
    assert_eq!(drive(Opener::playback(), smooth), OpenOutcome::Ready);
}

#[test]
fn attempt_reports_every_fault() {
    let broken = |at: OpenStage| {
        move |stage: OpenStage, turn: usize| {
            if stage == at {
                Seen { worked: false, good: false, ..seen() }
            } else {
                match (stage, at) {
                    (OpenStage::AwaitContext, OpenStage::PumpContext)
                    | (OpenStage::AwaitProbe, OpenStage::PumpProbe)
                    | (OpenStage::AwaitStream, OpenStage::PumpStream) => seen(),
                    _ => smooth(stage, turn),
                }
            }
        }
    };
    for (stage, fault) in [
        (OpenStage::Mainloop, OpenFault::Mainloop),
        (OpenStage::Context, OpenFault::Context),
        (OpenStage::Connect, OpenFault::Connect),
        (OpenStage::AwaitContext, OpenFault::ContextLost),
        (OpenStage::PumpContext, OpenFault::ConnectPump),
        (OpenStage::AwaitProbe, OpenFault::ProbeLost),
        (OpenStage::PumpProbe, OpenFault::ProbePump),
        (OpenStage::Stream, OpenFault::Stream),
        (OpenStage::StreamConnect, OpenFault::StreamConnect),
        (OpenStage::AwaitStream, OpenFault::StreamLost),
        (OpenStage::PumpStream, OpenFault::StreamPump),
    ] {
        assert_eq!(
            drive(Opener::capture(true, false), broken(stage)),
            OpenOutcome::Transient(fault)
        );
    }
}

#[test]
fn missing_source_is_an_outage_only_after_it_was_there() {
    let missing = |stage: OpenStage, turn: usize| match stage {
        OpenStage::AwaitProbe => Seen { ready: true, found: false, ..seen() },
        _ => smooth(stage, turn),
    };
    assert_eq!(drive(Opener::capture(true, false), missing), OpenOutcome::DeviceNotFound);
    assert_eq!(
        drive(Opener::capture(true, true), missing),
        OpenOutcome::Transient(OpenFault::SourceMissing)
    );
    assert_eq!(drive(Opener::playback(), missing), OpenOutcome::Ready);
}

#[test]
fn stop_ends_every_wait() {
    for at in [OpenStage::AwaitContext, OpenStage::AwaitProbe, OpenStage::AwaitStream] {
        let stopped = move |stage: OpenStage, turn: usize| {
            if stage == at {
                Seen { stop: turn > 20, ..seen() }
            } else {
                smooth(stage, turn)
            }
        };
        assert_eq!(drive(Opener::capture(true, false), stopped), OpenOutcome::Aborted);
    }
}

#[test]
fn failure_and_stop_at_once() {
    let mut o = Opener::capture(true, false);
    o.stage = OpenStage::AwaitContext;
    o.observe(Seen { good: false, stop: true, ..seen() });
    assert_eq!(o.stage, OpenStage::Done(OpenOutcome::Transient(OpenFault::ContextLost)));
    o.stage = OpenStage::AwaitProbe;
    o.observe(Seen { good: false, stop: true, ..seen() });
    assert_eq!(o.stage, OpenStage::Done(OpenOutcome::Aborted));
}

/// Failed attempts in a row until the supervisor gives up, and its pauses.
fn exhaust(mut s: Supervisor, outcome: OpenOutcome) -> (u32, Vec<u64>) {
    let mut pauses = Vec::new();
    loop {
        match s.attempted(outcome) {
            Reaction::Retry { tries, pause_ms, .. } => {
                assert_eq!(tries as usize, pauses.len() + 1);
                pauses.push(pause_ms);
            }
            Reaction::GaveUp => return (s.tries, pauses),
            other => panic!("unexpected {other:?}"),
        }
    }
}

#[test]
fn start_gives_up_after_its_budget() {
    let (tries, pauses) = exhaust(Supervisor::new(Path::Capture), DOWN);
    assert_eq!(tries, 12);
    assert_eq!(
        pauses,
        vec![250, 500, 1000, 2000, 4000, 5000, 5000, 5000, 5000, 5000, 5000]
    );
    assert_eq!(exhaust(Supervisor::new(Path::Playback), DOWN).0, 12);
}

#[test]
fn missing_device_surfaces_quickly() {
    assert_eq!(exhaust(Supervisor::new(Path::Capture), OpenOutcome::DeviceNotFound).0, 6);
    assert_eq!(exhaust(Supervisor::new(Path::Playback), OpenOutcome::DeviceNotFound).0, 12);
}

#[test]
fn reconnect_outlasts_a_server_restart() {
    let mut s = Supervisor::new(Path::Capture);
    assert_eq!(s.attempted(DOWN), Reaction::Retry { tries: 1, cap: 12, pause_ms: 250 });
    assert_eq!(s.attempted(OpenOutcome::Ready), Reaction::Started);
    assert_eq!(s.next(false), Next::Serve);
    s.lost();
    assert_eq!(s.next(false), Next::Open);
    assert_eq!(s.attempted(DOWN), Reaction::Retry { tries: 1, cap: 40, pause_ms: 250 });
    assert_eq!(s.attempted(OpenOutcome::Ready), Reaction::Resumed);
    s.lost();
    assert_eq!(exhaust(s, DOWN).0, 40);
}

#[test]
fn stop_comes_before_everything() {
    let mut s = Supervisor::new(Path::Playback);
    assert_eq!(s.next(true), Next::Finish);
    assert_eq!(s.next(false), Next::Open);
    assert_eq!(s.attempted(OpenOutcome::Aborted), Reaction::Stopped);
    assert_eq!(s.tries, 0);
    assert!(keep_pausing(0, 250, false));
    assert!(!keep_pausing(250, 250, false));
    assert!(!keep_pausing(0, 250, true));
}

#[test]
fn first_session_starts_the_run() {
    let mut inner = Inner::new();
    inner.start_state = ST_STARTING;
    let mut s = Supervisor::new(Path::Capture);
    s.opened(DOWN, &mut inner);
    assert_eq!(inner.start_state, ST_STARTING);
    s.opened(OpenOutcome::Ready, &mut inner);
    assert!(inner.is_running());
    assert_eq!(inner.start_state, ST_RUNNING);
    s.finish(false, &mut inner);
    assert_eq!(inner.start_state, ST_RUNNING);
    assert!(!inner.worker_alive());
    s.finish(true, &mut inner);
    assert_eq!(inner.start_state, ST_FAILED);
}

#[test]
fn record_stream_is_drained() {
    let d = on_peek(Peeked::Data);
    assert!(d.feed && d.discard && !d.done);
    let h = on_peek(Peeked::Hole);
    assert!(!h.feed && h.discard && !h.done);
    for p in [Peeked::Empty, Peeked::Failed] {
        let a = on_peek(p);
        assert!(!a.feed && !a.discard && a.done);
    }
    assert!(!session_lost(true, true));
    assert!(session_lost(false, true) && session_lost(true, false));
}
