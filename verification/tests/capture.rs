use pcmflux::capture::{all_silent, RunState, Sent, Stats, Verdict};
use pcmflux::lifecycle::{Inner, Path};
use pcmflux::pool::BufferPool;
use pcmflux::red::{build_ws_body, select_red};
use pcmflux::ring::{DeliveryRing, Popped};
use pcmflux::session::{OpenOutcome, Supervisor};
use pcmflux::settings::{frame_buffer_size, Settings};

/// Send a frame through an encoder that yields `packet`.
fn emit(
    run: &mut RunState,
    pcm: &[i16],
    packet: Option<&[u8]>,
    inner: &Inner,
    pool: &mut BufferPool,
    ring: &mut DeliveryRing,
) -> Option<Sent> {
    match run.begin_frame(pcm, inner, false, pool) {
        Verdict::Silent => None,
        Verdict::Encode(mut pending) => {
            if let Some(p) = packet {
                let at = pending.prefix;
                pending.data[at..at + p.len()].copy_from_slice(p);
            }
            Some(run.finish_frame(pending, packet.map(|p| p.len()), pool, ring))
        }
    }
}

fn popped(ring: &mut DeliveryRing) -> Option<(Vec<u8>, u64)> {
    match ring.pop() {
        Popped::Frame(frame) => Some((frame.bytes().to_vec(), frame.pts())),
        _ => None,
    }
}

#[test]
fn frame_geometry() {
    let fspc = (48000usize * 20) / 1000;
    assert_eq!(fspc, 960);
    assert_eq!(fspc * 2 * 2, 3840);
    let m = (24000usize * 10) / 1000;
    assert_eq!(m, 240);
    assert_eq!(m * 2, 480);

    let mut stereo = RunState::new(fspc, 2, 0, 128000);
    assert!(stereo.feed(&vec![0; 3839]).is_empty());
    let frames = stereo.feed(&[0]);
    assert_eq!((frames.len(), frames[0].len()), (1, 960 * 2));
    let mut mono = RunState::new(m, 1, 0, 128000);
    assert_eq!(mono.feed(&vec![0; 480]).len(), 1);
}

#[test]
fn silence_detection() {
    let silent = vec![0i16; 960 * 2];
    assert!(silent.iter().all(|&s| s == 0));
    assert!(all_silent(&silent));
    let mut not = silent.clone();
    not[123] = 7;
    assert!(!not.iter().all(|&s| s == 0));
    assert!(!all_silent(&not));
}

#[test]
fn fragments_may_be_cut_anywhere() {
    let bytes: Vec<u8> = (0..30).collect();
    let mut whole = RunState::new(2, 2, 0, 0);
    let expected = whole.feed(&bytes);
    assert_eq!(expected.len(), 3);
    assert_eq!(expected[0], vec![0x0100, 0x0302, 0x0504, 0x0706]);
    for cut in 0..=30 {
        let mut parts = RunState::new(2, 2, 0, 0);
        let mut got = parts.feed(&bytes[..cut]);
        got.extend(parts.feed(&bytes[cut..]));
        assert_eq!(got, expected);
        assert_eq!(parts.feed(&[30, 31]).len(), 1);
    }
}

#[test]
fn outage_drops_the_unfinished_frame() {
    let mut run = RunState::new(1, 1, 0, 0);
    let mut sup = Supervisor::new(Path::Capture);
    sup.attempted(OpenOutcome::Ready);
    assert!(run.feed(&[9]).is_empty());
    run.session_lost(&mut sup);
    assert!(!sup.connected);
    assert_eq!(run.feed(&[1, 2]), vec![vec![0x0201]]);
    run.feed(&[9]);
    run.drop_partial();
    assert_eq!(run.feed(&[3, 4]), vec![vec![0x0403]]);
}

#[test]
fn frames_reach_the_ring_as_wire_frames() {
    let inner = Inner::new();
    let mut pool = BufferPool::new(frame_buffer_size(2));
    let mut ring = DeliveryRing::new(8);
    let mut run = RunState::new(960, 2, 2, 128000);
    let pcm = vec![1i16; 1920];
    let packets: Vec<Vec<u8>> = (1..=4u8).map(|i| vec![i; i as usize]).collect();
    let mut history = std::collections::VecDeque::new();
    for (k, p) in packets.iter().enumerate() {
        let pts = 960 * k as u64;
        let sent = emit(&mut run, &pcm, Some(p), &inner, &mut pool, &mut ring);
        assert_eq!(sent, Some(Sent::Queued(true)));
        assert_eq!(
            popped(&mut ring),
            Some((build_ws_body(p, pts, &history, 2, true), pts))
        );
        history.push_back((p.clone(), pts));
        if history.len() > 2 {
            history.pop_front();
        }
    }
    assert!(run.first_sound_detected());
    assert_eq!(
        run.take_stats(),
        Stats { chunks_read: 4, chunks_silent: 0, chunks_encoded: 4, bytes_encoded: 10 }
    );
    assert_eq!(run.take_stats().chunks_read, 0);
}

#[test]
fn clients_recover_what_the_run_sent() {
    let inner = Inner::new();
    let mut pool = BufferPool::new(frame_buffer_size(2));
    let mut ring = DeliveryRing::new(8);
    let mut run = RunState::new(960, 2, 4, 128000);
    for i in 1..=5u8 {
        emit(&mut run, &[1], Some(&[i]), &inner, &mut pool, &mut ring);
    }
    let mut frames = Vec::new();
    while let Some(f) = popped(&mut ring) {
        frames.push(f);
    }
    // The client played the second frame, then lost two.
    let (body, pts) = &frames[4];
    let payload = &body[6..];
    let (ranges, last) = select_red(Some(960), payload, *pts as i64);
    let got: Vec<&[u8]> = ranges.iter().map(|&(s, n)| &payload[s..s + n]).collect();
    assert_eq!(got, vec![&[3u8][..], &[4], &[5]]);
    assert_eq!(last, Some(3840));
}

#[test]
fn silence_flushes_the_redundancy() {
    let inner = Inner::new();
    let mut pool = BufferPool::new(frame_buffer_size(2));
    let mut ring = DeliveryRing::new(8);
    let mut run = RunState::new(960, 2, 2, 128000);
    assert_eq!(emit(&mut run, &[0, 0], None, &inner, &mut pool, &mut ring), None);
    assert!(!run.first_sound_detected());
    emit(&mut run, &[1], Some(&[7]), &inner, &mut pool, &mut ring);
    assert_eq!(popped(&mut ring), Some((vec![1, 0, 7], 960)));
    assert_eq!(emit(&mut run, &[0, 0], None, &inner, &mut pool, &mut ring), None);
    emit(&mut run, &[1], Some(&[8]), &inner, &mut pool, &mut ring);
    assert_eq!(popped(&mut ring), Some((vec![1, 0, 8], 2880)));
    let stats = run.take_stats();
    assert_eq!((stats.chunks_read, stats.chunks_silent, stats.chunks_encoded), (4, 2, 2));
}

#[test]
fn gate_can_be_switched_off() {
    let mut inner = Inner::new();
    inner.use_silence_gate = false;
    inner.emit_audio_header = false;
    let mut pool = BufferPool::new(frame_buffer_size(1));
    let mut ring = DeliveryRing::new(8);
    let mut run = RunState::new(960, 1, 0, 128000);
    emit(&mut run, &[0], Some(&[5, 6]), &inner, &mut pool, &mut ring);
    assert_eq!(popped(&mut ring), Some((vec![5, 6], 0)));
}

#[test]
fn failed_encodes_send_nothing_and_keep_the_buffer() {
    let inner = Inner::new();
    let mut pool = BufferPool::new(frame_buffer_size(2));
    let mut ring = DeliveryRing::new(8);
    let mut run = RunState::new(960, 2, 2, 128000);
    let ptr = match run.begin_frame(&[1], &inner, false, &mut pool) {
        Verdict::Encode(pending) => {
            let ptr = pending.data.as_ptr() as usize;
            assert_eq!(run.finish_frame(pending, None, &pool, &mut ring), Sent::Nothing);
            ptr
        }
        Verdict::Silent => panic!("not silent"),
    };
    assert!(popped(&mut ring).is_none());
    match run.begin_frame(&[1], &inner, false, &mut pool) {
        Verdict::Encode(pending) => {
            assert_eq!(pending.data.as_ptr() as usize, ptr);
            assert_eq!(pending.pts, 960);
            assert_eq!(&pending.data[..pending.prefix], &[1, 0]);
            assert_eq!(run.finish_frame(pending, Some(0), &pool, &mut ring), Sent::Nothing);
        }
        Verdict::Silent => panic!("not silent"),
    }
    ring.close();
    assert_eq!(
        emit(&mut run, &[1], Some(&[1]), &inner, &mut pool, &mut ring),
        Some(Sent::Queued(false))
    );
}

#[test]
fn refused_bitrates_are_asked_for_again() {
    let mut inner = Inner::new();
    let mut pool = BufferPool::new(frame_buffer_size(2));
    let mut run = RunState::new(960, 2, 0, 128000);
    assert_eq!(run.bitrate_request(&inner), None);
    inner.update_audio_bitrate(96000);
    assert_eq!(run.bitrate_request(&inner), Some(96000));
    let _ = run.begin_frame(&[0], &inner, false, &mut pool);
    assert_eq!(run.bitrate_request(&inner), Some(96000));
    let _ = run.begin_frame(&[0], &inner, true, &mut pool);
    assert_eq!(run.bitrate_request(&inner), None);
}

#[test]
fn zero_bytes_are_silence() {
    let mut run = RunState::new(2, 1, 0, 0);
    let frames = run.feed(&[0, 0, 0, 0, 0, 0, 0, 1]);
    assert!(all_silent(&frames[0]));
    assert!(!all_silent(&frames[1]));
}

#[test]
fn buffers_make_the_round_trip() {
    let inner = Inner::new();
    let mut pool = BufferPool::new(frame_buffer_size(2));
    let mut ring = DeliveryRing::new(8);
    let mut run = RunState::new(960, 2, 2, 128000);
    let mut ptrs = Vec::new();
    for i in 1..=5u8 {
        emit(&mut run, &[1], Some(&[i; 3]), &inner, &mut pool, &mut ring);
        match ring.pop() {
            Popped::Frame(frame) => {
                ptrs.push(frame.bytes().as_ptr() as usize);
                assert_eq!(frame.len(), frame.bytes().len());
                frame.release(&mut pool);
            }
            _ => panic!("a frame was sent"),
        }
    }
    assert!(ptrs.iter().all(|p| *p == ptrs[0]), "one buffer serves all frames: {ptrs:?}");
}

#[test]
fn runs_mix_silent_failed_and_sent_frames() {
    let inner = Inner::new();
    let mut pool = BufferPool::new(frame_buffer_size(2));
    let mut ring = DeliveryRing::new(8);
    let mut run = RunState::new(960, 2, 2, 128000);
    let (quiet, loud) = (vec![0i16; 4], vec![1i16; 4]);
    // Packets by frame number; silence at 2, a failed encode at 4.
    for (pcm, packet) in [
        (&loud, Some(vec![10u8])),
        (&loud, Some(vec![11])),
        (&quiet, None),
        (&loud, Some(vec![13])),
        (&loud, None),
        (&loud, Some(vec![15])),
        (&loud, Some(vec![16])),
        (&loud, Some(vec![17])),
    ] {
        emit(&mut run, pcm, packet.as_deref(), &inner, &mut pool, &mut ring);
    }
    let mut history = std::collections::VecDeque::new();
    for k in [0u64, 1, 3, 5, 6, 7] {
        if k == 3 {
            history.clear();
        }
        let packet = vec![10 + k as u8];
        let expected = build_ws_body(&packet, 960 * k, &history, 2, true);
        assert_eq!(popped(&mut ring), Some((expected, 960 * k)));
        history.push_back((packet, 960 * k));
        if history.len() > 2 {
            history.pop_front();
        }
    }
    assert!(popped(&mut ring).is_none());
}

#[test]
fn clients_recover_by_the_stamp_in_the_frame() {
    // The run's clock is past 32 bits; the client knows the low ones only.
    let mut hist = std::collections::VecDeque::new();
    let base = 0x1_0000_0000u64 - 960;
    hist.push_back((vec![1u8], base));
    hist.push_back((vec![2u8], base + 960));
    let body = build_ws_body(&[3], base + 1920, &hist, 2, true);
    let stamp = u32::from_be_bytes([body[2], body[3], body[4], body[5]]) as i64;
    assert_eq!(stamp, 960);
    let payload = &body[6..];
    let (ranges, last) = select_red(Some(base as i64), payload, stamp);
    let got: Vec<&[u8]> = ranges.iter().map(|&(s, n)| &payload[s..s + n]).collect();
    assert_eq!(got, vec![&[2u8][..], &[3]]);
    assert_eq!(last, Some(960));
}

#[test]
fn runs_follow_their_settings() {
    let mut settings = Settings::new();
    settings.red_distance = -1;
    let mut run = RunState::for_settings(&settings, 960).expect("stereo at 20 ms");
    assert_eq!(run.feed(&vec![0; 3840]).len(), 1);
    let mut inner = Inner::new();
    assert_eq!(run.bitrate_request(&inner), None);
    inner.update_audio_bitrate(64000);
    assert_eq!(run.bitrate_request(&inner), Some(64000));

    assert!(RunState::for_settings(&settings, 0).is_none());
    assert!(RunState::for_settings(&settings, usize::MAX / 2).is_none());
    assert!(RunState::for_settings(&settings, isize::MAX as usize / 4 + 1).is_none());
    settings.red_distance = 5;
    assert!(RunState::for_settings(&settings, 960).is_none());
    settings.red_distance = 4;
    assert!(RunState::for_settings(&settings, 960).is_some());
    settings.channels = 0;
    assert!(RunState::for_settings(&settings, 960).is_none());
}
