//! The encode path of a capture run: reassembly, the silence gate, framing, hand-off.
//!
//! Fragments arrive from the audio server at arbitrary boundaries; `feed` cuts them into
//! frames of exactly one encoder input. Each frame then goes through `begin_frame`, the
//! encoder, and `finish_frame`.

use std::collections::VecDeque;

use vstd::arithmetic::div_mod::lemma_fundamental_div_mod_converse;
use vstd::prelude::*;

use crate::lifecycle::Inner;
use crate::pool::{
    stash_put, taker_left, AudioFrame, BufferPool, FrameView, PoolTaker, MAX_POOLED,
};
use crate::red::{
    frames_of, newest, write_ws_prefix_into, ws_prefix, RED_MAX_DISTANCE, RED_PREFIX_MAX,
};
use crate::red_laws::rising;
use crate::ring::{took_frame, DeliveryRing};
use crate::session::Supervisor;
use crate::settings::Settings;
use crate::wire::{pcm_samples, read_pcm};

verus! {

/// Counters of a run since they were last taken.
#[derive(Clone, Copy, PartialEq, Eq, Structural, Debug)]
pub struct Stats {
    /// Frames read.
    pub chunks_read: u64,
    /// Frames that the silence gate dropped.
    pub chunks_silent: u64,
    /// Frames encoded.
    pub chunks_encoded: u64,
    /// Bytes of encoded packets.
    pub bytes_encoded: u64,
}

/// The state of a run, as contracts speak of it.
#[verifier::ext_equal]
pub struct RunView {
    /// Bytes of the frame that is being put together.
    pub partial: Seq<u8>,
    /// Buffers kept for the next frames.
    pub stash: Seq<Seq<u8>>,
    /// Packets sent most recently, with their timestamps, oldest first.
    pub history: Seq<(Seq<u8>, u64)>,
    /// How many emptied history buffers wait to be used again.
    pub spare: nat,
    /// Timestamp of the next frame: samples per channel so far.
    pub samples: u64,
    /// A frame passed the silence gate.
    pub sounded: bool,
    /// The bitrate that the encoder has.
    pub bitrate: i32,
    /// Counters.
    pub stats: Stats,
}

/// The whole frames of `chunk` bytes in `bytes`, each as samples.
pub open spec fn whole_frames(bytes: Seq<u8>, chunk: nat) -> Seq<Seq<i16>> {
    Seq::new(
        bytes.len() / chunk,
        |i: int| pcm_samples(bytes.subrange(i * chunk, i * chunk + chunk)),
    )
}

/// What follows the last whole frame.
pub open spec fn remainder(bytes: Seq<u8>, chunk: nat) -> Seq<u8> {
    bytes.skip((bytes.len() / chunk * chunk) as int)
}

/// Every sample is zero.
pub open spec fn is_silence(pcm: Seq<i16>) -> bool {
    forall|i: int| 0 <= i < pcm.len() ==> #[trigger] pcm[i] == 0
}

/// The samples of frames.
pub open spec fn sample_seqs(frames: Seq<Vec<i16>>) -> Seq<Seq<i16>> {
    Seq::new(frames.len(), |i: int| frames[i]@)
}

/// Compare a frame with silence.
pub fn all_silent(pcm: &[i16]) -> (r: bool)
    ensures
        r == is_silence(pcm@),
{
    let mut i: usize = 0;
    while i < pcm.len()
        invariant
            i <= pcm@.len(),
            forall|k: int| 0 <= k < i ==> #[trigger] pcm@[k] == 0,
        decreases pcm@.len() - i,
    {
        if pcm[i] != 0 {
            return false;
        }
        i = i + 1;
    }
    true
}

/// A frame waiting for its packet: a buffer with the prefix in place, and room for the
/// packet behind it.
pub struct Pending {
    /// The buffer.
    pub data: Vec<u8>,
    /// Where the packet goes.
    pub prefix: usize,
    /// The timestamp.
    pub pts: u64,
}

/// What becomes of a frame.
pub enum Verdict {
    /// It is silent and goes nowhere.
    Silent,
    /// It is to be encoded.
    Encode(Pending),
}

/// What became of a packet.
#[derive(Clone, Copy, PartialEq, Eq, Structural, Debug)]
pub enum Sent {
    /// There is none: the encoder failed or produced nothing.
    Nothing,
    /// It is on its way. The consumer is to be woken, unless the ring is closed.
    Queued(bool),
}

/// The state of one capture run.
pub struct RunState {
    frame_size_per_channel: usize,
    channels: usize,
    partial: Vec<u8>,
    pool: PoolTaker,
    red_history: VecDeque<(Vec<u8>, u64)>,
    red_spare: Vec<Vec<u8>>,
    red_distance: usize,
    total_samples_processed: u64,
    first_sound_detected: bool,
    current_applied_bitrate: i32,
    stats: Stats,
}

impl View for RunState {
    type V = RunView;

    closed spec fn view(&self) -> RunView {
        RunView {
            partial: self.partial@,
            stash: self.pool@,
            history: frames_of(self.red_history@),
            spare: self.red_spare@.len(),
            samples: self.total_samples_processed,
            sounded: self.first_sound_detected,
            bitrate: self.current_applied_bitrate,
            stats: self.stats,
        }
    }
}

/// A run that has read nothing yet.
pub open spec fn fresh_run(bitrate: i32) -> RunView {
    RunView {
        partial: Seq::empty(),
        stash: Seq::empty(),
        history: Seq::empty(),
        spare: 0,
        samples: 0,
        sounded: false,
        bitrate,
        stats: Stats { chunks_read: 0, chunks_silent: 0, chunks_encoded: 0, bytes_encoded: 0 },
    }
}

/// The bitrate to ask the encoder for, where it has another one than is requested.
pub open spec fn bitrate_wanted(requested: i32, s: RunView) -> Option<i32> {
    if requested != s.bitrate {
        Some(requested)
    } else {
        None
    }
}

/// The bitrate that the encoder has after it was asked, or not.
pub open spec fn bitrate_after(requested: i32, taken: bool, s: RunView) -> i32 {
    if taken {
        requested
    } else {
        s.bitrate
    }
}

/// The state after a frame was found silent. The history is flushed: the first packet after
/// a long quiet stretch must not carry old audio as redundancy.
pub open spec fn after_silence(s: RunView, step: u64, bitrate: i32) -> RunView {
    RunView {
        history: Seq::empty(),
        spare: s.spare + s.history.len(),
        samples: s.samples.wrapping_add(step),
        bitrate,
        stats: Stats {
            chunks_read: s.stats.chunks_read.wrapping_add(1),
            chunks_silent: s.stats.chunks_silent.wrapping_add(1),
            ..s.stats
        },
        ..s
    }
}

/// The state after a frame was found worth encoding.
pub open spec fn after_sound(
    s: RunView,
    step: u64,
    bitrate: i32,
    stash: Seq<Seq<u8>>,
) -> RunView {
    RunView {
        samples: s.samples.wrapping_add(step),
        bitrate,
        sounded: true,
        stash,
        stats: Stats { chunks_read: s.stats.chunks_read.wrapping_add(1), ..s.stats },
        ..s
    }
}

/// The state after a packet was sent: it joins the history, which keeps the newest.
pub open spec fn after_packet(s: RunView, packet: Seq<u8>, pts: u64, distance: nat) -> RunView {
    RunView {
        history: if distance > 0 {
            newest(s.history.push((packet, pts)), distance)
        } else {
            s.history
        },
        spare: if distance > 0 && s.history.len() < distance && s.spare > 0 {
            (s.spare - 1) as nat
        } else {
            s.spare
        },
        stats: Stats {
            chunks_encoded: s.stats.chunks_encoded.wrapping_add(1),
            bytes_encoded: s.stats.bytes_encoded.wrapping_add(packet.len() as u64),
            ..s.stats
        },
        ..s
    }
}

impl RunState {
    /// Samples per channel in a frame.
    pub closed spec fn step(&self) -> nat {
        self.frame_size_per_channel as nat
    }

    /// The size of a frame in bytes.
    pub closed spec fn chunk(&self) -> nat {
        (self.frame_size_per_channel * self.channels * 2) as nat
    }

    /// Redundant copies per frame.
    pub closed spec fn distance(&self) -> nat {
        self.red_distance as nat
    }

    /// Frames are not empty and can be held in memory, an unfinished one is unfinished, and
    /// history and spare buffers together never outnumber the redundant copies.
    pub open spec fn wf(&self) -> bool {
        &&& 0 < self.step() <= usize::MAX
        &&& 0 < self.chunk() <= isize::MAX
        &&& self@.partial.len() < self.chunk()
        &&& self.distance() <= RED_MAX_DISTANCE
        &&& self@.history.len() + self@.spare <= self.distance()
    }

    /// Timestamps in the history rise towards that of the next frame.
    pub open spec fn in_order(&self) -> bool {
        rising(self@.samples, self@.history)
    }

    /// Nothing of what a run fixes at its start has changed.
    pub open spec fn same_run(&self, other: &RunState) -> bool {
        &&& self.step() == other.step()
        &&& self.chunk() == other.chunk()
        &&& self.distance() == other.distance()
    }

    /// A run that has read nothing yet, for frames of `frame_size_per_channel` samples.
    pub fn new(
        frame_size_per_channel: usize,
        channels: usize,
        red_distance: usize,
        bitrate: i32,
    ) -> (s: Self)
        requires
            frame_size_per_channel > 0,
            channels > 0,
            frame_size_per_channel * channels * 2 <= isize::MAX,
            red_distance <= RED_MAX_DISTANCE,
        ensures
            s.wf(),
            s.in_order(),
            s.step() == frame_size_per_channel,
            s.chunk() == frame_size_per_channel * channels * 2,
            s.distance() == red_distance,
            s@ == fresh_run(bitrate),
    {
        let s: RunState = RunState {
            frame_size_per_channel,
            channels,
            partial: Vec::new(),
            pool: PoolTaker::new(),
            red_history: VecDeque::new(),
            red_spare: Vec::new(),
            red_distance,
            total_samples_processed: 0,
            first_sound_detected: false,
            current_applied_bitrate: bitrate,
            stats: Stats {
                chunks_read: 0,
                chunks_silent: 0,
                chunks_encoded: 0,
                bytes_encoded: 0,
            },
        };
        assert(frames_of(s.red_history@) =~= Seq::<(Seq<u8>, u64)>::empty());
        assert(frame_size_per_channel * channels > 0) by (nonlinear_arith)
            requires
                frame_size_per_channel > 0,
                channels > 0,
        ;
        s
    }

    /// The run that settings ask for, with frames of `frame_size_per_channel` samples. `None`
    /// when a frame would be empty or too large for memory, or the redundancy reaches further
    /// back than the history.
    pub fn for_settings(settings: &Settings, frame_size_per_channel: usize) -> (r: Option<Self>)
        ensures
            r is Some <==> {
                &&& frame_size_per_channel > 0
                &&& settings.channels > 0
                &&& frame_size_per_channel * settings.channels * 2 <= isize::MAX
                &&& settings.red_distance <= RED_MAX_DISTANCE
            },
            r matches Some(s) ==> {
                &&& s.wf()
                &&& s.in_order()
                &&& s.step() == frame_size_per_channel
                &&& s.chunk() == frame_size_per_channel * settings.channels * 2
                &&& s.distance() == if settings.red_distance < 0 {
                    0
                } else {
                    settings.red_distance as int
                }
                &&& s@ == fresh_run(settings.opus_bitrate)
            },
    {
        if frame_size_per_channel == 0 || settings.channels <= 0 || settings.red_distance
            > RED_MAX_DISTANCE as i32 {
            return None;
        }
        let channels: usize = settings.channels as usize;
        let distance: usize = if settings.red_distance < 0 {
            0
        } else {
            settings.red_distance as usize
        };
        match frame_size_per_channel.checked_mul(channels) {
            None => None,
            Some(samples) => if samples > isize::MAX as usize / 2 {
                None
            } else {
                Some(
                    RunState::new(frame_size_per_channel, channels, distance, settings.opus_bitrate),
                )
            },
        }
    }

    /// Feed one fragment, at whatever boundary it was cut: the frames that it completes, in
    /// order. What is left over is carried into the next fragment.
    pub fn feed(&mut self, src: &[u8]) -> (frames: Vec<Vec<i16>>)
        requires
            old(self).wf(),
        ensures
            final(self).wf(),
            final(self).same_run(old(self)),
            sample_seqs(frames@) == whole_frames(old(self)@.partial + src@, old(self).chunk()),
            final(self)@ == (RunView {
                partial: remainder(old(self)@.partial + src@, old(self).chunk()),
                ..old(self)@
            }),
    {
        let ghost chunk = self.chunk() as int;
        let ghost before = self@;
        let ghost all = self@.partial + src@;
        let ghost carried = self@.partial.len() as int;
        let chunk_bytes: usize = self.frame_size_per_channel * self.channels * 2;
        let mut frames: Vec<Vec<i16>> = Vec::new();
        let mut i: usize = 0;
        assert(frames@.len() * chunk == 0) by (nonlinear_arith)
            requires
                frames@.len() == 0,
        ;
        assert(all.take(carried) =~= self@.partial);
        assert(all.take(carried).skip(0) =~= self@.partial);
        while i < src.len()
            invariant
                i <= src@.len(),
                chunk_bytes == chunk,
                chunk > 0,
                all == before.partial + src@,
                carried == before.partial.len(),
                self.chunk() == chunk,
                self.same_run(old(self)),
                self@ == (RunView { partial: self@.partial, ..before }),
                carried + i == frames@.len() * chunk + self@.partial.len(),
                self@.partial.len() < chunk,
                self@.partial == all.take(carried + i).skip(frames@.len() * chunk),
                forall|k: int|
                    0 <= k < frames@.len() ==> (#[trigger] frames@[k])@ == pcm_samples(
                        all.subrange(k * chunk, k * chunk + chunk),
                    ),
            decreases src@.len() - i,
        {
            let ghost n = frames@.len() as int;
            let ghost seen = carried + i;
            assert(n * chunk >= 0) by (nonlinear_arith)
                requires
                    n >= 0,
                    chunk > 0,
            ;
            self.partial.push(src[i]);
            assert(all[seen] == src@[i as int]);
            assert(self@.partial =~= all.take(seen + 1).skip(n * chunk));
            if self.partial.len() == chunk_bytes {
                assert(self@.partial =~= all.subrange(n * chunk, n * chunk + chunk));
                let frame: Vec<i16> = read_pcm(self.partial.as_slice());
                frames.push(frame);
                self.partial.clear();
                assert((n + 1) * chunk == n * chunk + chunk) by (nonlinear_arith);
                assert(self@.partial =~= all.take(seen + 1).skip((n + 1) * chunk));
            }
            i = i + 1;
        }
        proof {
            let n = frames@.len() as int;
            assert(all.take(all.len() as int) =~= all);
            assert(n * chunk == chunk * n) by (nonlinear_arith);
            lemma_fundamental_div_mod_converse(
                all.len() as int,
                chunk,
                n,
                self@.partial.len() as int,
            );
            assert(sample_seqs(frames@) =~= whole_frames(all, chunk as nat));
            assert(self@.partial =~= remainder(all, chunk as nat));
        }
        frames
    }

    /// Drop an unfinished frame: what follows an outage does not belong to it.
    pub fn drop_partial(&mut self)
        requires
            old(self).wf(),
        ensures
            final(self).wf(),
            final(self).same_run(old(self)),
            final(self)@ == (RunView { partial: Seq::empty(), ..old(self)@ }),
    {
        self.partial.clear();
    }

    /// The session is lost: the supervisor is to open another, and the unfinished frame goes.
    pub fn session_lost(&mut self, supervisor: &mut Supervisor)
        requires
            old(self).wf(),
        ensures
            final(self).wf(),
            final(self).same_run(old(self)),
            final(self)@ == (RunView { partial: Seq::empty(), ..old(self)@ }),
            *final(supervisor) == (Supervisor { connected: false, ..*old(supervisor) }),
    {
        supervisor.lost();
        self.drop_partial();
    }

    /// The bitrate to give the encoder before the next frame, when it has another one.
    pub fn bitrate_request(&self, inner: &Inner) -> (r: Option<i32>)
        ensures
            r == bitrate_wanted(inner.opus_bitrate, self@),
    {
        if inner.opus_bitrate != self.current_applied_bitrate {
            Some(inner.opus_bitrate)
        } else {
            None
        }
    }

    /// Begin a frame. `bitrate_taken` says that the encoder took the requested bitrate; one
    /// it refused is requested again for the next frame. A silent frame is counted and
    /// dropped; any other gets a buffer with the prefix in place.
    pub fn begin_frame(
        &mut self,
        pcm: &[i16],
        inner: &Inner,
        bitrate_taken: bool,
        pool: &mut BufferPool,
    ) -> (v: Verdict)
        requires
            old(self).wf(),
            old(pool).wf(),
            old(pool).size() >= RED_PREFIX_MAX,
        ensures
            final(self).wf(),
            final(self).same_run(old(self)),
            final(pool).wf(),
            final(pool).size() == old(pool).size(),
            old(self).in_order() && old(self)@.samples + old(self).step() <= u64::MAX
                ==> final(self).in_order(),
            ({
                let s = old(self)@;
                let step = old(self).step() as u64;
                let bitrate = bitrate_after(inner.opus_bitrate, bitrate_taken, s);
                let (stash, pooled) = taker_left(s.stash, old(pool)@);
                if inner.use_silence_gate && is_silence(pcm@) {
                    &&& v is Silent
                    &&& final(self)@ == after_silence(s, step, bitrate)
                    &&& final(pool)@ == old(pool)@
                } else {
                    &&& v matches Verdict::Encode(p)
                    &&& p.pts == s.samples
                    &&& p.data@.len() == old(pool).size()
                    &&& p.prefix <= p.data@.len()
                    &&& p.data@.take(p.prefix as int) == ws_prefix(
                        p.pts,
                        s.history,
                        old(self).distance(),
                        inner.emit_audio_header,
                    )
                    &&& final(self)@ == after_sound(s, step, bitrate, stash)
                    &&& final(pool)@ == pooled
                }
            }),
    {
        self.stats.chunks_read = self.stats.chunks_read.wrapping_add(1);
        if bitrate_taken {
            self.current_applied_bitrate = inner.opus_bitrate;
        }
        let pts: u64 = self.total_samples_processed;
        let step: u64 = self.frame_size_per_channel as u64;
        self.total_samples_processed = self.total_samples_processed.wrapping_add(step);
        if inner.use_silence_gate && all_silent(pcm) {
            self.stats.chunks_silent = self.stats.chunks_silent.wrapping_add(1);
            self.retire_history();
            return Verdict::Silent;
        }
        self.first_sound_detected = true;
        let mut data: Vec<u8> = self.pool.take(pool);
        let prefix: usize = write_ws_prefix_into(
            data.as_mut_slice(),
            pts,
            &self.red_history,
            self.red_distance,
            inner.emit_audio_header,
        );
        Verdict::Encode(Pending { data, prefix, pts })
    }

    /// Empty the history, keeping its buffers.
    fn retire_history(&mut self)
        requires
            old(self)@.history.len() + old(self)@.spare <= old(self).distance(),
        ensures
            final(self).same_run(old(self)),
            final(self)@ == (RunView {
                history: Seq::empty(),
                spare: old(self)@.spare + old(self)@.history.len(),
                ..old(self)@
            }),
    {
        let ghost s = self@;
        while self.red_history.len() > 0
            invariant
                self.same_run(old(self)),
                self@ == (RunView { history: self@.history, spare: self@.spare, ..s }),
                self@.history.len() == self.red_history@.len(),
                self@.spare + self@.history.len() == s.spare + s.history.len(),
            decreases self.red_history@.len(),
        {
            if let Some((buf, _)) = self.red_history.pop_front() {
                self.red_spare.push(buf);
            }
        }
        assert(self@.history =~= Seq::<(Seq<u8>, u64)>::empty());
    }

    /// Finish a frame. `encoded` is the length of the packet that the encoder put behind the
    /// prefix, or `None` when it failed. A packet is remembered as redundancy for the next
    /// frames and handed to the delivery thread; without one the buffer is kept for the next
    /// frame.
    pub fn finish_frame(
        &mut self,
        pending: Pending,
        encoded: Option<usize>,
        pool: &BufferPool,
        ring: &mut DeliveryRing,
    ) -> (sent: Sent)
        requires
            old(self).wf(),
            old(ring).wf(),
            pending.prefix <= pending.data@.len(),
            encoded matches Some(n) ==> n <= pending.data@.len() - pending.prefix,
        ensures
            final(self).wf(),
            final(self).same_run(old(self)),
            final(ring).wf(),
            packet_len(encoded) == 0 ==> {
                &&& nothing_sent(*old(self), *final(self), pending, pool, sent)
                &&& pending.data@.len() >= pool.size() && old(self)@.stash.len() < MAX_POOLED
                    ==> final(self)@.stash == old(self)@.stash.push(pending.data@)
                &&& *final(ring) == *old(ring)
            },
            packet_len(encoded) > 0 ==> {
                let end = pending.prefix + packet_len(encoded);
                let packet = pending.data@.subrange(pending.prefix as int, end);
                let s = old(self)@;
                &&& sent == Sent::Queued(old(ring)@ is Some)
                &&& final(self)@ == after_packet(s, packet, pending.pts, old(self).distance())
                &&& took_frame(
                    *old(ring),
                    *final(ring),
                    FrameView {
                        buffer: pending.data@,
                        len: end as nat,
                        pts: pending.pts,
                        recycles: true,
                    },
                )
                &&& rising(pending.pts, s.history) && pending.pts < s.samples
                    ==> final(self).in_order()
            },
    {
        let n: usize = match encoded {
            Some(n) => n,
            None => 0,
        };
        let Pending { data, prefix, pts } = pending;
        if n == 0 {
            self.pool.put(data, pool);
            return Sent::Nothing;
        }
        self.stats.chunks_encoded = self.stats.chunks_encoded.wrapping_add(1);
        self.stats.bytes_encoded = self.stats.bytes_encoded.wrapping_add(n as u64);
        let room: usize = data.len();
        assert(prefix + n <= room);
        let end: usize = prefix + n;
        if self.red_distance > 0 {
            self.remember(&data, prefix, end, pts);
        }
        let wake: bool = ring.push(AudioFrame::within(data, end, pts));
        Sent::Queued(wake)
    }

    /// Put the packet between `prefix` and `end` at the new end of the history, in a buffer
    /// that is no longer needed when there is one.
    fn remember(&mut self, data: &Vec<u8>, prefix: usize, end: usize, pts: u64)
        requires
            old(self).wf(),
            old(self).distance() > 0,
            prefix <= end <= data@.len(),
        ensures
            final(self).wf(),
            final(self).same_run(old(self)),
            final(self)@ == (RunView {
                history: newest(
                    old(self)@.history.push((data@.subrange(prefix as int, end as int), pts)),
                    old(self).distance(),
                ),
                spare: if old(self)@.history.len() < old(self).distance() && old(self)@.spare > 0 {
                    (old(self)@.spare - 1) as nat
                } else {
                    old(self)@.spare
                },
                ..old(self)@
            }),
    {
        let ghost s = self@;
        let mut slot: Vec<u8> = Vec::new();
        if self.red_history.len() >= self.red_distance {
            if let Some((buf, _)) = self.red_history.pop_front() {
                slot = buf;
            }
            assert(frames_of(self.red_history@) =~= s.history.skip(1));
        } else {
            if let Some(buf) = self.red_spare.pop() {
                slot = buf;
            }
        }
        slot.clear();
        let mut k: usize = prefix;
        assert(data@.subrange(prefix as int, prefix as int) =~= Seq::<u8>::empty());
        while k < end
            invariant
                prefix <= k <= end <= data@.len(),
                slot@ == data@.subrange(prefix as int, k as int),
            decreases end - k,
        {
            slot.push(data[k]);
            assert(data@.subrange(prefix as int, k as int).push(data@[k as int]) =~= data@.subrange(
                prefix as int,
                k + 1,
            ));
            k = k + 1;
        }
        let ghost q1 = self.red_history@;
        self.red_history.push_back((slot, pts));
        assert(frames_of(self.red_history@) =~= frames_of(q1).push((slot@, pts)));
        assert(self@.history =~= newest(s.history.push((slot@, pts)), self.distance()));
    }

    /// The counters, which start over.
    pub fn take_stats(&mut self) -> (r: Stats)
        requires
            old(self).wf(),
        ensures
            final(self).wf(),
            final(self).same_run(old(self)),
            r == old(self)@.stats,
            final(self)@ == (RunView {
                stats: Stats {
                    chunks_read: 0,
                    chunks_silent: 0,
                    chunks_encoded: 0,
                    bytes_encoded: 0,
                },
                ..old(self)@
            }),
    {
        let r: Stats = self.stats;
        self.stats = Stats {
            chunks_read: 0,
            chunks_silent: 0,
            chunks_encoded: 0,
            bytes_encoded: 0,
        };
        r
    }

    /// A frame passed the silence gate at some time.
    pub fn first_sound_detected(&self) -> (r: bool)
        ensures
            r == self@.sounded,
    {
        self.first_sound_detected
    }
}

/// The length of a packet; an encoder that failed produced nothing.
pub open spec fn packet_len(encoded: Option<usize>) -> int {
    match encoded {
        Some(n) => n as int,
        None => 0,
    }
}

/// No packet came of a frame: its buffer is offered to the stash, and nothing else changes.
pub open spec fn nothing_sent(
    before: RunState,
    after: RunState,
    pending: Pending,
    pool: &BufferPool,
    sent: Sent,
) -> bool {
    &&& sent == Sent::Nothing
    &&& exists|capacity: nat|
        capacity >= pending.data@.len() && after@ == (RunView {
            stash: #[trigger] stash_put(before@.stash, pending.data@, capacity, pool.size()),
            ..before@
        })
}

} // verus!
