//! The mic uplink: from packets to PCM in the queue.
//!
//! The client sends the mic as encoded packets, singly or with redundancy. The decoder
//! itself works outside of this crate; what to decode, in which order, and where the result
//! goes, is decided here.

use vstd::arithmetic::div_mod::{
    lemma_fundamental_div_mod, lemma_mod_multiples_basic, lemma_small_mod,
};
use vstd::prelude::*;

use crate::queue::{
    drained, lemma_drain_splits, lemma_push_aligned, lemma_push_in_parts, pushed, PlayQueue,
};
use crate::red::{ranges_inside, receive, select_red, slices};
use crate::session::Reaction;
use crate::settings::MAX_DECODED_SAMPLES;
use crate::wire::{lemma_pcm_round_trip, pcm_bytes, pcm_samples, push_pcm};
use crate::wire_laws::lemma_pcm_bytes_layout;

verus! {

/// How many channels a setting stands for; at least one.
pub open spec fn channel_floor(channels: int) -> nat {
    if channels < 1 {
        1
    } else {
        channels as nat
    }
}

/// What decoding a packet yields: the PCM bytes of the samples, interleaved; nothing for an
/// empty or undecodable packet.
pub open spec fn decoded_pcm(
    packet: Seq<u8>,
    scratch: Seq<i16>,
    samples: Option<usize>,
    channels: nat,
) -> Option<Seq<u8>> {
    match samples {
        Some(n) => if packet.len() > 0 {
            Some(pcm_bytes(scratch.take((n * channels) as int)))
        } else {
            None
        },
        None => None,
    }
}

/// What is queued after decoded packets come in, one by one. One that could not be decoded
/// is passed over.
pub open spec fn queued_after(
    queued: Seq<u8>,
    decoded: Seq<Option<Seq<i16>>>,
    max_bytes: nat,
    frame_bytes: nat,
) -> Seq<u8>
    decreases decoded.len(),
{
    if decoded.len() == 0 {
        queued
    } else {
        let before = queued_after(queued, decoded.drop_last(), max_bytes, frame_bytes);
        match decoded.last() {
            None => before,
            Some(samples) => pushed(before, pcm_bytes(samples), max_bytes, frame_bytes),
        }
    }
}

/// The samples of decoded packets.
pub open spec fn decoded_seqs(decoded: Seq<Option<Vec<i16>>>) -> Seq<Option<Seq<i16>>> {
    Seq::new(
        decoded.len(),
        |i: int|
            match decoded[i] {
                None => None,
                Some(v) => Some(v@),
            },
    )
}

/// Keeps track of what the decoder has played.
pub struct OpusPlaybackDecoder {
    channels: usize,
    last_ts: Option<i64>,
}

impl OpusPlaybackDecoder {
    /// How many channels packets decode to.
    pub closed spec fn channel_count(&self) -> nat {
        self.channels as nat
    }

    /// The timestamp of the last frame played; `None` until the first redundant frame.
    pub closed spec fn cursor(&self) -> Option<i64> {
        self.last_ts
    }

    /// Whether the decoder is to be mono: one channel or fewer; stereo otherwise.
    pub fn mono(channels: i32) -> (r: bool)
        ensures
            r == (channels <= 1),
    {
        channels <= 1
    }

    /// Track a decoder, if one could be created.
    pub fn new(created: bool, channels: i32) -> (d: Option<Self>)
        ensures
            d is Some <==> created,
            d matches Some(x) ==> x.channel_count() == channel_floor(channels as int)
                && x.cursor() is None,
    {
        if !created {
            return None;
        }
        let channels: usize = if channels < 1 {
            1
        } else {
            channels as usize
        };
        Some(OpusPlaybackDecoder { channels, last_ts: None })
    }

    /// The timestamp of the last frame played.
    pub fn last_ts(&self) -> (t: Option<i64>)
        ensures
            t == self.cursor(),
    {
        self.last_ts
    }

    /// How many samples the scratch buffer of the decoder holds: the longest packet.
    pub fn scratch_len(&self) -> (n: usize)
        requires
            MAX_DECODED_SAMPLES * self.channel_count() <= usize::MAX,
        ensures
            n == MAX_DECODED_SAMPLES * self.channel_count(),
    {
        MAX_DECODED_SAMPLES * self.channels
    }

    /// The PCM of one packet. `samples` is how many per channel the decoder put into
    /// `scratch`, or `None` when it failed.
    pub fn decode_to_pcm(&self, packet: &[u8], scratch: &[i16], samples: Option<usize>) -> (pcm:
        Option<Vec<u8>>)
        requires
            samples matches Some(n) ==> n * self.channel_count() <= scratch@.len(),
        ensures
            match (pcm, decoded_pcm(packet@, scratch@, samples, self.channel_count())) {
                (None, None) => true,
                (Some(a), Some(b)) => a@ == b,
                _ => false,
            },
    {
        if packet.len() == 0 {
            return None;
        }
        match self.decoded_samples(scratch, samples) {
            None => None,
            Some(part) => {
                let mut out: Vec<u8> = Vec::new();
                push_pcm(&mut out, part.as_slice());
                assert(out@ =~= pcm_bytes(part@));
                Some(out)
            },
        }
    }

    /// The samples of one packet, interleaved, out of the scratch buffer. `samples` is how
    /// many per channel the decoder put there, or `None` when it failed.
    pub fn decoded_samples(&self, scratch: &[i16], samples: Option<usize>) -> (r: Option<
        Vec<i16>,
    >)
        requires
            samples matches Some(n) ==> n * self.channel_count() <= scratch@.len(),
        ensures
            match (r, samples) {
                (None, None) => true,
                (Some(part), Some(n)) => part@ == scratch@.take((n * self.channel_count()) as int),
                _ => false,
            },
    {
        match samples {
            None => None,
            Some(n) => {
                let room: usize = scratch.len();
                assert(n * self.channels <= room);
                Some(head(scratch, n * self.channels))
            },
        }
    }

    /// Take a redundant frame apart: which `(start, length)` ranges of it to decode, oldest
    /// first. Packets that were lost are among them, packets that were played are not, and
    /// the last one counts as played from here on, decodable or not.
    pub fn begin_red(&mut self, payload: &[u8], primary_ts: i64) -> (ranges: Vec<(usize, usize)>)
        ensures
            ranges_inside(ranges@, payload@.len()),
            slices(payload@, ranges@) == receive(old(self).cursor(), payload@, primary_ts).0,
            final(self).cursor() == receive(old(self).cursor(), payload@, primary_ts).1,
            final(self).channel_count() == old(self).channel_count(),
    {
        let (ranges, last) = select_red(self.last_ts, payload, primary_ts);
        self.last_ts = last;
        ranges
    }

    /// Queue what was decoded, in order.
    pub fn finish_red(&self, decoded: &Vec<Option<Vec<i16>>>, queue: &mut PlayQueue)
        requires
            old(queue).wf(),
        ensures
            final(queue).wf(),
            final(queue)@ == queued_after(
                old(queue)@,
                decoded_seqs(decoded@),
                old(queue).bound(),
                old(queue).frame(),
            ),
            final(queue).bound() == old(queue).bound(),
            final(queue).frame() == old(queue).frame(),
    {
        let ghost all = decoded_seqs(decoded@);
        let mut i: usize = 0;
        assert(all.take(0) =~= Seq::<Option<Seq<i16>>>::empty());
        while i < decoded.len()
            invariant
                i <= decoded@.len(),
                all == decoded_seqs(decoded@),
                queue.wf(),
                queue.bound() == old(queue).bound(),
                queue.frame() == old(queue).frame(),
                queue@ == queued_after(
                    old(queue)@,
                    all.take(i as int),
                    old(queue).bound(),
                    old(queue).frame(),
                ),
            decreases decoded@.len() - i,
        {
            assert(all.take(i + 1).drop_last() =~= all.take(i as int));
            match &decoded[i] {
                None => {},
                Some(samples) => {
                    let mut bytes: Vec<u8> = Vec::new();
                    push_pcm(&mut bytes, samples.as_slice());
                    assert(bytes@ =~= pcm_bytes(samples@));
                    queue.push(bytes.as_slice());
                },
            }
            i = i + 1;
        }
        assert(all.take(decoded@.len() as int) =~= all);
    }
}

/// A session is back after an outage: what was queued meanwhile is stale, and playing it out
/// would only add that much latency.
pub fn reopened(reaction: Reaction, queue: &mut PlayQueue)
    requires
        old(queue).wf(),
    ensures
        final(queue).wf(),
        final(queue).bound() == old(queue).bound(),
        final(queue).frame() == old(queue).frame(),
        final(queue)@ == if reaction is Resumed {
            Seq::empty()
        } else {
            old(queue)@
        },
{
    match reaction {
        Reaction::Resumed => {
            queue.clear();
        },
        _ => {},
    }
}

/// Counters of a playback run.
#[derive(Clone, Copy, PartialEq, Eq, Structural, Debug)]
pub struct PlaybackStats {
    /// Turns at which the server took data.
    pub writable_hits: u64,
    /// Bytes written.
    pub bytes_written: u64,
}

impl PlaybackStats {
    /// Nothing written yet.
    pub fn new() -> (s: Self)
        ensures
            s == (PlaybackStats { writable_hits: 0, bytes_written: 0 }),
    {
        PlaybackStats { writable_hits: 0, bytes_written: 0 }
    }

    /// Fill `out` with what the server can take, in whole frames. `writable` is how many
    /// bytes that is, where the server says so. Whether there is anything to write.
    pub fn fill(&mut self, writable: Option<usize>, queue: &mut PlayQueue, out: &mut Vec<u8>) -> (r:
        bool)
        requires
            old(queue).wf(),
        ensures
            final(queue).wf(),
            final(queue).bound() == old(queue).bound(),
            final(queue).frame() == old(queue).frame(),
            ({
                let n = writable_bytes(writable);
                let taken = drained(old(queue)@.len(), n, old(queue).frame());
                &&& final(queue)@ == old(queue)@.skip(taken as int)
                &&& n > 0 ==> final(out)@ == old(queue)@.take(taken as int)
                &&& n == 0 ==> final(out)@ == old(out)@
                &&& r == (n > 0 && taken > 0)
                &&& *final(self) == (PlaybackStats {
                    writable_hits: if n > 0 {
                        old(self).writable_hits.wrapping_add(1)
                    } else {
                        old(self).writable_hits
                    },
                    ..*old(self)
                })
            }),
    {
        let n: usize = match writable {
            Some(n) => n,
            None => 0,
        };
        if n == 0 {
            proof {
                lemma_drain_splits(queue@, 0, queue.frame());
                assert(queue@.skip(0) =~= queue@);
            }
            return false;
        }
        self.writable_hits = self.writable_hits.wrapping_add(1);
        proof {
            lemma_drain_splits(queue@, n as nat, queue.frame());
        }
        queue.drain_upto(n, out);
        out.len() > 0
    }

    /// The server took `len` bytes.
    pub fn wrote(&mut self, len: usize)
        ensures
            *final(self) == (PlaybackStats {
                bytes_written: old(self).bytes_written.wrapping_add(len as u64),
                ..*old(self)
            }),
    {
        self.bytes_written = self.bytes_written.wrapping_add(len as u64);
    }
}

/// How many bytes the server can take; none where it does not say.
pub open spec fn writable_bytes(writable: Option<usize>) -> nat {
    match writable {
        Some(n) => n as nat,
        None => 0,
    }
}

/// The first `n` samples.
fn head(samples: &[i16], n: usize) -> (r: Vec<i16>)
    requires
        n <= samples@.len(),
    ensures
        r@ == samples@.take(n as int),
{
    let mut r: Vec<i16> = Vec::new();
    let mut i: usize = 0;
    while i < n
        invariant
            i <= n <= samples@.len(),
            r@ == samples@.take(i as int),
        decreases n - i,
    {
        r.push(samples[i]);
        assert(samples@.take(i as int).push(samples@[i as int]) =~= samples@.take(i + 1));
        i = i + 1;
    }
    r
}

/// The PCM bytes of decoded packets, in order.
pub open spec fn pcm_of(decoded: Seq<Option<Seq<i16>>>) -> Seq<u8>
    decreases decoded.len(),
{
    if decoded.len() == 0 {
        Seq::empty()
    } else {
        let before = pcm_of(decoded.drop_last());
        match decoded.last() {
            None => before,
            Some(samples) => before + pcm_bytes(samples),
        }
    }
}

/// As long as the queue has room, decoded packets are appended in full and in order, and a
/// packet that could not be decoded leaves no gap.
pub proof fn lemma_queued_in_order(
    queued: Seq<u8>,
    decoded: Seq<Option<Seq<i16>>>,
    max_bytes: nat,
    frame_bytes: nat,
)
    requires
        queued.len() + pcm_of(decoded).len() <= max_bytes,
    ensures
        queued_after(queued, decoded, max_bytes, frame_bytes) == queued + pcm_of(decoded),
    decreases decoded.len(),
{
    if decoded.len() == 0 {
        assert(queued + pcm_of(decoded) =~= queued);
    } else {
        let init = decoded.drop_last();
        lemma_queued_in_order(queued, init, max_bytes, frame_bytes);
        match decoded.last() {
            None => {},
            Some(samples) => {
                let all = (queued + pcm_of(init)) + pcm_bytes(samples);
                assert(all =~= queued + pcm_of(decoded));
                assert(all.skip(0) =~= all);
            },
        }
    }
}

/// A packet comes to PCM whenever it holds anything and the decoder takes it, whatever its
/// length. The PCM is two bytes for each sample that the decoder gave, the low byte first, in
/// two's complement, and reads back as those samples.
pub proof fn lemma_packet_to_pcm(
    packet: Seq<u8>,
    scratch: Seq<i16>,
    samples: Option<usize>,
    channels: nat,
)
    requires
        samples matches Some(n) ==> n * channels <= scratch.len(),
    ensures
        ({
            let r = decoded_pcm(packet, scratch, samples, channels);
            &&& packet.len() == 0 ==> r is None
            &&& samples is None ==> r is None
            &&& packet.len() >= 1 && samples is Some ==> {
                let pcm = r->0;
                let count = samples->0 * channels;
                &&& r is Some
                &&& pcm.len() == 2 * count
                &&& pcm_samples(pcm) == scratch.take(count)
                &&& forall|i: int|
                    0 <= i < count ==> pcm[2 * i] + 256 * pcm[2 * i + 1] == if (
                    #[trigger] scratch[i]) < 0 {
                        scratch[i] + 65536
                    } else {
                        scratch[i] as int
                    }
            }
        }),
{
    if packet.len() >= 1 && samples is Some {
        let count = samples->0 * channels;
        assert(0 <= count) by (nonlinear_arith)
            requires
                count == samples->0 * channels,
                samples->0 >= 0,
                channels >= 0,
        ;
        let part = scratch.take(count);
        lemma_pcm_round_trip(part);
        assert forall|i: int| 0 <= i < count implies pcm_bytes(part)[2 * i] + 256 * pcm_bytes(
            part,
        )[2 * i + 1] == if (#[trigger] scratch[i]) < 0 {
            scratch[i] + 65536
        } else {
            scratch[i] as int
        } by {
            lemma_pcm_bytes_layout(part, i);
            assert(part[i] == scratch[i]);
        }
    }
}

/// A decoder has the channels asked for, and one where fewer were.
pub proof fn lemma_channel_floor(channels: int)
    ensures
        channels >= 1 ==> channel_floor(channels) == channels,
        channels < 1 ==> channel_floor(channels) == 1,
{
}

/// The server takes what it says, and nothing where it does not say.
pub proof fn lemma_writable(n: usize)
    ensures
        writable_bytes(Some(n)) == n,
        writable_bytes(None) == 0,
        MAX_DECODED_SAMPLES == 5760,
{
}

/// Decoded packets are seen as their samples, one for one, those that failed as such.
pub proof fn lemma_decoded_seen(decoded: Seq<Option<Vec<i16>>>, i: int)
    requires
        0 <= i < decoded.len(),
    ensures
        decoded_seqs(decoded).len() == decoded.len(),
        decoded_seqs(decoded)[i] is Some <==> decoded[i] is Some,
        decoded[i] matches Some(v) ==> decoded_seqs(decoded)[i] == Some(v@),
{
}

/// Queueing goes packet by packet: one that failed changes nothing, one that was decoded is
/// pushed, and some packets and then others are as all of them.
pub proof fn lemma_queued_one_by_one(
    queued: Seq<u8>,
    first: Seq<Option<Seq<i16>>>,
    then: Seq<Option<Seq<i16>>>,
    samples: Seq<i16>,
    max_bytes: nat,
    frame_bytes: nat,
)
    ensures
        queued_after(queued, Seq::empty(), max_bytes, frame_bytes) == queued,
        queued_after(queued, seq![None], max_bytes, frame_bytes) == queued,
        queued_after(queued, seq![Some(samples)], max_bytes, frame_bytes) == pushed(
            queued,
            pcm_bytes(samples),
            max_bytes,
            frame_bytes,
        ),
        queued_after(queued, first + then, max_bytes, frame_bytes) == queued_after(
            queued_after(queued, first, max_bytes, frame_bytes),
            then,
            max_bytes,
            frame_bytes,
        ),
    decreases then.len(),
{
    let none = seq![None::<Seq<i16>>];
    let one = seq![Some(samples)];
    assert(none.drop_last() =~= Seq::empty());
    assert(one.drop_last() =~= Seq::empty());
    reveal_with_fuel(queued_after, 2);
    if then.len() == 0 {
        assert(first + then =~= first);
    } else {
        lemma_queued_one_by_one(
            queued,
            first,
            then.drop_last(),
            samples,
            max_bytes,
            frame_bytes,
        );
        assert((first + then).drop_last() =~= first + then.drop_last());
        assert((first + then).last() == then.last());
    }
}

/// With whole frames throughout, the queue ends up with the newest audio of all: the last
/// bytes of what was queued and everything decoded, up to its bound.
pub proof fn lemma_queue_keeps_newest(
    queued: Seq<u8>,
    decoded: Seq<Option<Seq<i16>>>,
    max_bytes: nat,
    frame_bytes: nat,
)
    requires
        frame_bytes >= 1,
        max_bytes >= frame_bytes,
        max_bytes % frame_bytes == 0,
        queued.len() <= max_bytes,
        queued.len() % frame_bytes == 0,
        forall|i: int|
            0 <= i < decoded.len() ==> ((#[trigger] decoded[i]) matches Some(samples) ==> (2
                * samples.len()) % frame_bytes == 0),
    ensures
        ({
            let all = queued + pcm_of(decoded);
            let kept = queued_after(queued, decoded, max_bytes, frame_bytes);
            &&& kept.len() % frame_bytes == 0
            &&& pcm_of(decoded).len() % frame_bytes == 0
            &&& all.len() <= max_bytes ==> kept == all
            &&& all.len() > max_bytes ==> kept == all.skip(all.len() - max_bytes)
        }),
    decreases decoded.len(),
{
    let all = queued + pcm_of(decoded);
    if decoded.len() == 0 {
        assert(all =~= queued);
        assert(0nat % frame_bytes == 0) by {
            lemma_small_mod(0, frame_bytes);
        }
    } else {
        let init = decoded.drop_last();
        assert(forall|i: int| 0 <= i < init.len() ==> init[i] == #[trigger] decoded[i]);
        assert(decoded.last() == decoded[decoded.len() - 1]);
        lemma_queue_keeps_newest(queued, init, max_bytes, frame_bytes);
        let before = queued_after(queued, init, max_bytes, frame_bytes);
        let so_far = pcm_of(init);
        match decoded.last() {
            None => {},
            Some(samples) => {
                let data = pcm_bytes(samples);
                let one = pushed(queued, so_far, max_bytes, frame_bytes);
                lemma_push_aligned(queued, so_far, max_bytes, frame_bytes);
                let part = queued + so_far;
                if part.len() <= max_bytes {
                    assert(part.skip(0) =~= part);
                }
                assert(before == one);
                lemma_push_in_parts(queued, so_far, data, max_bytes, frame_bytes);
                lemma_push_aligned(before, data, max_bytes, frame_bytes);
                assert(pcm_of(decoded) == so_far + data);
                let kept = queued_after(queued, decoded, max_bytes, frame_bytes);
                assert(kept == pushed(queued, so_far + data, max_bytes, frame_bytes));
                lemma_sum_whole(so_far.len(), data.len(), frame_bytes);
                lemma_push_aligned(queued, so_far + data, max_bytes, frame_bytes);
                assert(all.skip(0) =~= all);
            },
        }
    }
}

proof fn lemma_sum_whole(a: nat, b: nat, frame_bytes: nat)
    requires
        frame_bytes >= 1,
        a % frame_bytes == 0,
        b % frame_bytes == 0,
    ensures
        (a + b) % frame_bytes == 0,
{
    let fb = frame_bytes as int;
    lemma_fundamental_div_mod(a as int, fb);
    lemma_fundamental_div_mod(b as int, fb);
    assert(a + b == (a as int / fb + b as int / fb) * fb) by (nonlinear_arith)
        requires
            a == fb * (a as int / fb),
            b == fb * (b as int / fb),
    ;
    lemma_mod_multiples_basic(a as int / fb + b as int / fb, fb);
}

} // verus!
