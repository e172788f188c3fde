use pcmflux::queue::PlayQueue;
use pcmflux::settings::{
    capture_metrics, clamp_red_distance, frame_buffer_size, multiopus_layout, parse_device_name,
    plan_encoder, playback_metrics, valid_opus_duration, EncoderPlan, PbSettings, Settings,
    StartFault, MAX_OPUS_PACKET,
};

#[test]
fn opus_durations() {
    for ms in [2.5, 5.0, 10.0, 20.0, 40.0, 60.0] {
        assert!(valid_opus_duration((ms * 10.0f64).round() as i64));
    }
    for ms in [0.0, 1.0, 3.0, 15.0, 25.0, 30.0, 50.0, 100.0] {
        assert!(!valid_opus_duration((ms * 10.0f64).round() as i64));
    }
}

#[test]
fn device_names_are_normalized() {
    assert_eq!(parse_device_name(None), None);
    assert_eq!(parse_device_name(Some(String::new())), None);
    assert_eq!(parse_device_name(Some("mic".to_string())), Some("mic".to_string()));
}

#[test]
fn distances_are_clamped() {
    assert_eq!(clamp_red_distance(-1), 0);
    assert_eq!(clamp_red_distance(0), 0);
    assert_eq!(clamp_red_distance(3), 3);
    assert_eq!(clamp_red_distance(4), 4);
    assert_eq!(clamp_red_distance(99), 4);
}

#[test]
fn capture_defaults() {
    let s = Settings::new();
    assert_eq!(s.device_name, None);
    assert_eq!((s.sample_rate, s.channels, s.opus_bitrate), (48000, 2, 128000));
    assert_eq!((s.frame_duration_tenths, s.latency_ms, s.red_distance), (200, 0, 0));
    assert!(s.use_vbr && s.use_silence_gate && !s.debug_logging && !s.omit_audio_header);
    assert_eq!(s.check(true), Ok(()));
    assert_eq!(s.fragment(), (20000, false));
    let m = s.mirrors();
    assert!(m.opus_bitrate == 128000 && m.use_silence_gate);
    assert!(!m.debug_logging && !m.omit_audio_header);
}

#[test]
fn playback_defaults() {
    let s = PbSettings::new();
    assert_eq!(s.device_name.as_deref(), Some("input"));
    assert_eq!((s.sample_rate, s.channels, s.latency_ms), (24000, 1, 40));
    assert_eq!((s.max_buffer_bytes, s.debug_logging), (96000, false));
    assert_eq!(s.check(true), Ok(()));
    assert_eq!(s.frame_bytes(), 2);
    assert_eq!(s.target_us(), 40000);
}

#[test]
fn faults_come_in_order() {
    let mut s = Settings::new();
    s.frame_duration_tenths = 150;
    s.channels = 3;
    assert_eq!(s.check(false), Err(StartFault::Duration));
    s.frame_duration_tenths = 25;
    assert_eq!(s.check(false), Err(StartFault::Channels));
    for (channels, ok) in [(0, false), (1, true), (2, true), (4, false), (6, true), (8, true)] {
        s.channels = channels;
        assert_eq!(s.check(true).is_ok(), ok);
    }
    assert_eq!(s.check(false), Err(StartFault::SampleSpec));

    let mut p = PbSettings::new();
    p.channels = 6;
    assert_eq!(p.check(false), Err(StartFault::Channels));
    p.channels = 2;
    assert_eq!(p.check(false), Err(StartFault::SampleSpec));
    assert_eq!(p.frame_bytes(), 4);
    p.channels = -1;
    assert_eq!(p.frame_bytes(), 2);
}

#[test]
fn latencies_become_buffer_metrics() {
    let mut s = Settings::new();
    s.latency_ms = 10;
    assert_eq!(s.fragment(), (10000, true));
    s.latency_ms = -5;
    assert_eq!(s.fragment(), (20000, false));
    let m = capture_metrics(1920);
    assert_eq!((m.fragsize, m.maxlength, m.tlength), (1920, u32::MAX, u32::MAX));
    assert_eq!((m.prebuf, m.minreq), (u32::MAX, u32::MAX));
    let m = playback_metrics(1920, 2);
    assert_eq!((m.tlength, m.prebuf, m.fragsize), (1920, 480, u32::MAX));
    assert_eq!(playback_metrics(0, 2).prebuf, 2);
    let mut p = PbSettings::new();
    p.latency_ms = -1;
    assert_eq!(p.target_us(), 0);
}

#[test]
fn surround_layouts_are_permutations() {
    assert_eq!(multiopus_layout(6), Some((4, 2, vec![0, 4, 1, 2, 3, 5])));
    assert_eq!(multiopus_layout(8), Some((5, 3, vec![0, 6, 1, 2, 3, 4, 5, 7])));
    for n in [-1, 0, 1, 2, 3, 4, 5, 7, 9] {
        assert_eq!(multiopus_layout(n), None);
    }
    for n in [6, 8] {
        let (streams, coupled, mut mapping) = multiopus_layout(n).unwrap();
        assert_eq!(streams + coupled, n);
        mapping.sort();
        assert_eq!(mapping, (0..n as u8).collect::<Vec<u8>>());
    }
}

#[test]
fn encoders_follow_the_channel_count() {
    assert!(matches!(plan_encoder(1), Some(EncoderPlan::Mono)));
    assert!(matches!(plan_encoder(2), Some(EncoderPlan::Stereo)));
    assert!(matches!(plan_encoder(0), Some(EncoderPlan::Stereo)));
    assert!(plan_encoder(3).is_none());
    match plan_encoder(8) {
        Some(EncoderPlan::Multi(streams, coupled, mapping)) => {
            assert_eq!((streams, coupled, mapping.len()), (5, 3, 8));
        }
        _ => panic!("7.1 has a layout"),
    }
    assert_eq!(frame_buffer_size(2), 4115 + MAX_OPUS_PACKET);
    assert_eq!(frame_buffer_size(6), 4115 + 4 * MAX_OPUS_PACKET);
    assert_eq!(frame_buffer_size(8), 4115 + 5 * MAX_OPUS_PACKET);
}

#[test]
fn playback_begins_at_a_quarter_of_its_target() {
    let mut p = PbSettings::new();
    let m = p.metrics(1920);
    assert_eq!(m, playback_metrics(1920, 2));
    assert_eq!((m.tlength, m.prebuf), (1920, 480));
    assert_eq!((m.maxlength, m.minreq, m.fragsize), (u32::MAX, u32::MAX, u32::MAX));
    assert_eq!(p.metrics(0).prebuf, 2);
    p.channels = 2;
    assert_eq!(p.metrics(12).prebuf, 4);
    assert_eq!(p.metrics(16).prebuf, 4);
    assert_eq!(p.metrics(20).prebuf, 5);
}

#[test]
fn queue_takes_the_bounds_of_the_settings() {
    let mut p = PbSettings::new();
    p.channels = 2;
    p.max_buffer_bytes = 9;
    let mut q = PlayQueue::new();
    q.push(&[9, 9]);
    p.configure(&mut q);
    assert_eq!(q.len(), 0);
    q.push(&[0, 1, 2, 3, 4, 5, 6, 7, 8, 9, 10, 11]);
    let mut out = Vec::new();
    q.drain_upto(7, &mut out);
    assert_eq!(out, vec![4, 5, 6, 7]);
}
