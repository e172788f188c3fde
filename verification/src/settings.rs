//! What a run is configured with, what it refuses, and what it derives from the rest.

use vstd::prelude::*;

use crate::lifecycle::Mirrors;
use crate::queue::{bound_floor, PlayQueue};
use crate::red::{RED_MAX_DISTANCE, RED_PREFIX_MAX};

verus! {

/// Largest encoded packet per stream, in bytes.
pub const MAX_OPUS_PACKET: usize = 4000;

/// Upper bound on one turn of the audio server's loop, in microseconds, and so on how long
/// a pending stop goes unseen.
pub const PUMP_TIMEOUT_US: u64 = 20000;

/// Capture fragment when no latency is configured, in microseconds: a prompt first frame.
pub const DEFAULT_FRAGMENT_US: u64 = 20000;

/// A buffer metric left to the audio server.
pub const SERVER_DEFAULT: u32 = u32::MAX;

/// Most samples per channel that one packet decodes to: 120 ms at 48 kHz.
pub const MAX_DECODED_SAMPLES: usize = 5760;

/// What a capture run is configured with.
pub struct Settings {
    /// Source to record; `None` for the system default.
    pub device_name: Option<String>,
    /// Samples per second.
    pub sample_rate: u32,
    /// Channels to record.
    pub channels: i32,
    /// Bitrate to encode at, in bits per second.
    pub opus_bitrate: i32,
    /// Frame duration in tenths of a millisecond.
    pub frame_duration_tenths: i64,
    /// Variable bitrate.
    pub use_vbr: bool,
    /// Drop silent frames.
    pub use_silence_gate: bool,
    /// Log status lines.
    pub debug_logging: bool,
    /// Target latency in milliseconds; zero or less for the default.
    pub latency_ms: i32,
    /// Leave out the frame header.
    pub omit_audio_header: bool,
    /// Redundant copies per frame.
    pub red_distance: i32,
}

/// What a playback run is configured with.
pub struct PbSettings {
    /// Sink to play into; `None` for the system default.
    pub device_name: Option<String>,
    /// Samples per second.
    pub sample_rate: u32,
    /// Channels to play.
    pub channels: i32,
    /// Target latency in milliseconds.
    pub latency_ms: i32,
    /// Byte bound of the queue.
    pub max_buffer_bytes: usize,
    /// Log status lines.
    pub debug_logging: bool,
}

/// Why a run refuses to start.
#[derive(Clone, Copy, PartialEq, Eq, Structural, Debug)]
pub enum StartFault {
    /// The frame duration is none that the codec has.
    Duration,
    /// The number of channels is not supported.
    Channels,
    /// The audio server takes no such sample rate or channel count.
    SampleSpec,
}

/// The frame durations of the codec, in tenths of a millisecond.
pub open spec fn legal_duration(tenths: int) -> bool {
    tenths == 25 || tenths == 50 || tenths == 100 || tenths == 200 || tenths == 400 || tenths
        == 600
}

/// The channel counts that can be captured: mono, stereo, 5.1 and 7.1.
pub open spec fn capture_channels(channels: int) -> bool {
    channels == 1 || channels == 2 || channels == 6 || channels == 8
}

/// The outcome of checking capture settings: the first fault in order, if any.
pub open spec fn capture_fault(tenths: int, channels: int, spec_valid: bool) -> Option<StartFault> {
    if !legal_duration(tenths) {
        Some(StartFault::Duration)
    } else if !capture_channels(channels) {
        Some(StartFault::Channels)
    } else if !spec_valid {
        Some(StartFault::SampleSpec)
    } else {
        None
    }
}

/// The outcome of checking playback settings.
pub open spec fn playback_fault(channels: int, spec_valid: bool) -> Option<StartFault> {
    if channels != 1 && channels != 2 {
        Some(StartFault::Channels)
    } else if !spec_valid {
        Some(StartFault::SampleSpec)
    } else {
        None
    }
}

/// A device name as given, with the empty one standing for the system default.
pub open spec fn device(name: Option<String>) -> Option<Seq<char>> {
    match name {
        None => None,
        Some(s) => if s@.len() == 0 {
            None
        } else {
            Some(s@)
        },
    }
}

/// The name held by an optional string.
pub open spec fn name_of(name: Option<String>) -> Option<Seq<char>> {
    match name {
        None => None,
        Some(s) => Some(s@),
    }
}

/// A redundancy distance within the history depth.
pub open spec fn clamped_distance(distance: i32) -> i32 {
    if distance < 0 {
        0
    } else if distance > RED_MAX_DISTANCE {
        RED_MAX_DISTANCE as i32
    } else {
        distance
    }
}

/// A duration in tenths of a millisecond is one of the codec's: 2.5, 5, 10, 20, 40 or 60 ms.
pub fn valid_opus_duration(tenths: i64) -> (r: bool)
    ensures
        r == legal_duration(tenths as int),
{
    tenths == 25 || tenths == 50 || tenths == 100 || tenths == 200 || tenths == 400 || tenths
        == 600
}

/// Map the empty device name to the system default.
pub fn parse_device_name(name: Option<String>) -> (r: Option<String>)
    ensures
        name_of(r) == device(name),
{
    match name {
        None => None,
        Some(s) => if s.as_str().is_empty() {
            None
        } else {
            Some(s)
        },
    }
}

/// Bring a redundancy distance into the range of the history.
pub fn clamp_red_distance(distance: i32) -> (r: i32)
    ensures
        r == clamped_distance(distance),
        0 <= r <= RED_MAX_DISTANCE,
{
    if distance < 0 {
        0
    } else if distance > RED_MAX_DISTANCE as i32 {
        RED_MAX_DISTANCE as i32
    } else {
        distance
    }
}

impl Settings {
    /// What a capture has when nothing is configured.
    pub fn new() -> (s: Self)
        ensures
            s.device_name is None,
            s.sample_rate == 48000,
            s.channels == 2,
            s.opus_bitrate == 128000,
            s.frame_duration_tenths == 200,
            s.use_vbr,
            s.use_silence_gate,
            !s.debug_logging,
            s.latency_ms == 0,
            !s.omit_audio_header,
            s.red_distance == 0,
    {
        Settings {
            device_name: None,
            sample_rate: 48000,
            channels: 2,
            opus_bitrate: 128000,
            frame_duration_tenths: 200,
            use_vbr: true,
            use_silence_gate: true,
            debug_logging: false,
            latency_ms: 0,
            omit_audio_header: false,
            red_distance: 0,
        }
    }

    /// Check what can be checked before the audio server is touched. `spec_valid` is the
    /// server's own verdict on the sample rate and the channel count.
    pub fn check(&self, spec_valid: bool) -> (r: Result<(), StartFault>)
        ensures
            match capture_fault(
                self.frame_duration_tenths as int,
                self.channels as int,
                spec_valid,
            ) {
                None => r is Ok,
                Some(f) => r == Err::<(), StartFault>(f),
            },
    {
        if !valid_opus_duration(self.frame_duration_tenths) {
            return Err(StartFault::Duration);
        }
        if self.channels != 1 && self.channels != 2 && self.channels != 6 && self.channels != 8 {
            return Err(StartFault::Channels);
        }
        if !spec_valid {
            return Err(StartFault::SampleSpec);
        }
        Ok(())
    }

    /// The part of the settings that the run publishes.
    pub fn mirrors(&self) -> (m: Mirrors)
        ensures
            m == (Mirrors {
                opus_bitrate: self.opus_bitrate,
                use_silence_gate: self.use_silence_gate,
                debug_logging: self.debug_logging,
                omit_audio_header: self.omit_audio_header,
            }),
    {
        Mirrors {
            opus_bitrate: self.opus_bitrate,
            use_silence_gate: self.use_silence_gate,
            debug_logging: self.debug_logging,
            omit_audio_header: self.omit_audio_header,
        }
    }

    /// The capture fragment in microseconds, and whether the server is to adjust its latency
    /// to it.
    pub fn fragment(&self) -> (r: (u64, bool))
        ensures
            r.1 == (self.latency_ms > 0),
            r.0 == if self.latency_ms > 0 {
                self.latency_ms as int * 1000
            } else {
                DEFAULT_FRAGMENT_US as int
            },
    {
        if self.latency_ms > 0 {
            (self.latency_ms as u64 * 1000, true)
        } else {
            (DEFAULT_FRAGMENT_US, false)
        }
    }
}

impl PbSettings {
    /// What a playback has when nothing is configured: the client mic wire.
    pub fn new() -> (s: Self)
        ensures
            name_of(s.device_name) == Some("input"@),
            s.sample_rate == 24000,
            s.channels == 1,
            s.latency_ms == 40,
            s.max_buffer_bytes == 96000,
            !s.debug_logging,
    {
        PbSettings {
            device_name: Some("input".to_owned()),
            sample_rate: 24000,
            channels: 1,
            latency_ms: 40,
            max_buffer_bytes: 96000,
            debug_logging: false,
        }
    }

    /// Check what can be checked before the audio server is touched.
    pub fn check(&self, spec_valid: bool) -> (r: Result<(), StartFault>)
        ensures
            match playback_fault(self.channels as int, spec_valid) {
                None => r is Ok,
                Some(f) => r == Err::<(), StartFault>(f),
            },
    {
        if self.channels != 1 && self.channels != 2 {
            return Err(StartFault::Channels);
        }
        if !spec_valid {
            return Err(StartFault::SampleSpec);
        }
        Ok(())
    }

    /// The size of a sample frame: 16-bit samples, one per channel, at least one.
    pub fn frame_bytes(&self) -> (n: usize)
        ensures
            n == if self.channels <= 1 {
                2
            } else {
                2 * self.channels
            },
    {
        if self.channels <= 1 {
            2
        } else {
            2 * (self.channels as usize)
        }
    }

    /// Give the queue this run's byte bound and frame size, dropping what it holds.
    pub fn configure(&self, queue: &mut PlayQueue)
        ensures
            final(queue).wf(),
            final(queue)@ == Seq::<u8>::empty(),
            final(queue).frame() == if self.channels <= 1 {
                2
            } else {
                2 * self.channels
            },
            final(queue).bound() == bound_floor(
                self.max_buffer_bytes as nat,
                final(queue).frame(),
            ),
    {
        queue.configure(self.max_buffer_bytes, self.frame_bytes());
    }

    /// The buffer metrics of the stream, for settings that passed the check. `tlength` is the
    /// target latency in bytes; playback begins at a quarter of it, and at one sample frame at
    /// the least.
    pub fn metrics(&self, tlength: u32) -> (m: BufferMetrics)
        requires
            self.channels == 1 || self.channels == 2,
        ensures
            m == (BufferMetrics {
                maxlength: SERVER_DEFAULT,
                tlength,
                prebuf: if tlength / 4 < 2 * self.channels {
                    (2 * self.channels) as u32
                } else {
                    tlength / 4
                },
                minreq: SERVER_DEFAULT,
                fragsize: SERVER_DEFAULT,
            }),
            m.prebuf > 0,
    {
        playback_metrics(tlength, self.frame_bytes() as u32)
    }

    /// The target latency in microseconds; a negative one counts as none.
    pub fn target_us(&self) -> (us: u64)
        ensures
            us == if self.latency_ms < 0 {
                0
            } else {
                self.latency_ms as int * 1000
            },
    {
        if self.latency_ms < 0 {
            0
        } else {
            self.latency_ms as u64 * 1000
        }
    }
}

/// Buffer metrics to request from the audio server, in bytes.
#[derive(Clone, Copy, PartialEq, Eq, Structural, Debug)]
pub struct BufferMetrics {
    /// Most the server buffers.
    pub maxlength: u32,
    /// Target fill of a playback buffer.
    pub tlength: u32,
    /// Fill at which playback begins.
    pub prebuf: u32,
    /// Least the server asks for at once.
    pub minreq: u32,
    /// Fragment of a capture buffer.
    pub fragsize: u32,
}

/// Metrics of a record stream with the given fragment.
pub fn capture_metrics(fragsize: u32) -> (m: BufferMetrics)
    ensures
        m == (BufferMetrics {
            maxlength: SERVER_DEFAULT,
            tlength: SERVER_DEFAULT,
            prebuf: SERVER_DEFAULT,
            minreq: SERVER_DEFAULT,
            fragsize,
        }),
{
    BufferMetrics {
        maxlength: SERVER_DEFAULT,
        tlength: SERVER_DEFAULT,
        prebuf: SERVER_DEFAULT,
        minreq: SERVER_DEFAULT,
        fragsize,
    }
}

/// Metrics of a playback stream with the given target fill. Playback begins at a quarter of
/// it, and never at nothing: a stream that begins empty reads ahead of what is written, and
/// every write lands in the past.
pub fn playback_metrics(tlength: u32, frame_size: u32) -> (m: BufferMetrics)
    ensures
        m.maxlength == SERVER_DEFAULT && m.minreq == SERVER_DEFAULT && m.fragsize
            == SERVER_DEFAULT,
        m.tlength == tlength,
        m.prebuf == if tlength / 4 < frame_size {
            frame_size
        } else {
            tlength / 4
        },
        frame_size > 0 ==> m.prebuf > 0,
{
    let quarter: u32 = tlength / 4;
    BufferMetrics {
        maxlength: SERVER_DEFAULT,
        tlength,
        prebuf: if quarter < frame_size {
            frame_size
        } else {
            quarter
        },
        minreq: SERVER_DEFAULT,
        fragsize: SERVER_DEFAULT,
    }
}

/// The surround layout of a channel count: streams, how many of them are stereo pairs, and
/// which decoded channel each input channel goes to.
pub open spec fn surround_layout(channels: int) -> Option<(int, int, Seq<u8>)> {
    if channels == 6 {
        Some((4, 2, seq![0u8, 4, 1, 2, 3, 5]))
    } else if channels == 8 {
        Some((5, 3, seq![0u8, 6, 1, 2, 3, 4, 5, 7]))
    } else {
        None
    }
}

/// The surround layout for 5.1 and 7.1, as browsers' decoders expect it; `None` otherwise.
pub fn multiopus_layout(channels: i32) -> (r: Option<(i32, i32, Vec<u8>)>)
    ensures
        match (r, surround_layout(channels as int)) {
            (None, None) => true,
            (Some(a), Some(b)) => a.0 == b.0 && a.1 == b.1 && a.2@ == b.2,
            _ => false,
        },
{
    if channels == 6 {
        let mapping: Vec<u8> = vec![0u8, 4, 1, 2, 3, 5];
        assert(mapping@ =~= seq![0u8, 4, 1, 2, 3, 5]);
        Some((4, 2, mapping))
    } else if channels == 8 {
        let mapping: Vec<u8> = vec![0u8, 6, 1, 2, 3, 4, 5, 7];
        assert(mapping@ =~= seq![0u8, 6, 1, 2, 3, 4, 5, 7]);
        Some((5, 3, mapping))
    } else {
        None
    }
}

/// Every surround layout is sound: its streams carry exactly its channels, and its mapping
/// sends each of them to a place of its own.
pub proof fn lemma_layout_is_a_permutation(channels: int)
    ensures
        surround_layout(channels) matches Some(l) ==> {
            &&& l.0 + l.1 == channels
            &&& l.1 <= l.0
            &&& l.2.len() == channels
            &&& forall|i: int| 0 <= i < channels ==> 0 <= #[trigger] l.2[i] < channels
            &&& forall|i: int, j: int|
                0 <= i < j < channels ==> #[trigger] l.2[i] != #[trigger] l.2[j]
        },
{
}

/// How to encode a channel count.
pub enum EncoderPlan {
    /// One mono stream.
    Mono,
    /// One stereo stream.
    Stereo,
    /// Several streams: how many, how many of them stereo, and the channel mapping.
    Multi(i32, i32, Vec<u8>),
}

/// Choose the encoder for a channel count: up to two channels take a single stream, more
/// take a surround layout. `None` when there is no such layout.
pub fn plan_encoder(channels: i32) -> (r: Option<EncoderPlan>)
    ensures
        channels == 1 ==> r == Some(EncoderPlan::Mono),
        channels <= 2 && channels != 1 ==> r == Some(EncoderPlan::Stereo),
        channels > 2 ==> match (r, surround_layout(channels as int)) {
            (None, None) => true,
            (Some(EncoderPlan::Multi(streams, coupled, mapping)), Some(l)) => streams == l.0
                && coupled == l.1 && mapping@ == l.2,
            _ => false,
        },
{
    if channels <= 2 {
        if channels == 1 {
            Some(EncoderPlan::Mono)
        } else {
            Some(EncoderPlan::Stereo)
        }
    } else {
        match multiopus_layout(channels) {
            None => None,
            Some((streams, coupled, mapping)) => Some(
                EncoderPlan::Multi(streams, coupled, mapping),
            ),
        }
    }
}

/// How many streams a channel count is encoded in.
pub open spec fn stream_count(channels: int) -> int {
    match surround_layout(channels) {
        None => 1,
        Some(l) => l.0,
    }
}

/// The size of a frame buffer: the longest prefix, and the largest packet of every stream.
pub fn frame_buffer_size(channels: i32) -> (n: usize)
    ensures
        n == RED_PREFIX_MAX + stream_count(channels as int) * MAX_OPUS_PACKET,
        n <= 0x7fff_ffff,
{
    match multiopus_layout(channels) {
        None => RED_PREFIX_MAX + MAX_OPUS_PACKET,
        Some((streams, _, _)) => RED_PREFIX_MAX + streams as usize * MAX_OPUS_PACKET,
    }
}

} // verus!
