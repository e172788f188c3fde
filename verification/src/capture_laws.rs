//! What a capture run promises over several calls.

use vstd::arithmetic::div_mod::{lemma_fundamental_div_mod, lemma_fundamental_div_mod_converse};
use vstd::prelude::*;

use crate::capture::{
    after_packet, after_silence, after_sound, bitrate_after, bitrate_wanted, fresh_run,
    is_silence, nothing_sent, packet_len, remainder, sample_seqs, whole_frames, Pending, RunState,
    RunView, Sent, Stats,
};
use crate::pool::BufferPool;
use crate::red::{blocks_of, newest, receive, ws_body, ws_prefix, RED_MAX_DISTANCE};
use crate::red_laws::{lacking, lemma_wire_loss_recovery, rising, same_stamp, wire_stamp};
use crate::red_wire_laws::{lemma_lost_packets_recovered, lemma_newest, number3};
use crate::wire::{pcm_bytes, pcm_samples};
use crate::wire_laws::{
    lemma_pcm_bytes_layout, lemma_pcm_bytes_of_samples, lemma_pcm_samples_layout,
};

verus! {

/// It makes no difference how the audio server cuts its fragments: two fragments in a row
/// give the same frames, and leave the same remainder, as both in one.
pub proof fn lemma_fragments_join(partial: Seq<u8>, first: Seq<u8>, second: Seq<u8>, chunk: nat)
    requires
        chunk > 0,
    ensures
        ({
            let left = remainder(partial + first, chunk);
            let all = partial + (first + second);
            &&& whole_frames(all, chunk) == whole_frames(partial + first, chunk) + whole_frames(
                left + second,
                chunk,
            )
            &&& remainder(all, chunk) == remainder(left + second, chunk)
            &&& left.len() < chunk
        }),
{
    let c = chunk as int;
    let head = partial + first;
    let all = partial + (first + second);
    let left = remainder(head, chunk);
    let tail = left + second;
    let n = head.len() as int / c;
    let m = tail.len() as int / c;
    lemma_fundamental_div_mod(head.len() as int, c);
    lemma_fundamental_div_mod(tail.len() as int, c);
    assert(c * n == n * c && c * m == m * c) by (nonlinear_arith);
    assert(all =~= head + second);
    assert(all.skip(n * c) =~= tail) by {
        assert(0 <= n * c <= head.len());
    }
    assert((n + m) * c == n * c + m * c) by (nonlinear_arith);
    lemma_fundamental_div_mod_converse(all.len() as int, c, n + m, tail.len() as int % c);
    let joined = whole_frames(head, chunk) + whole_frames(tail, chunk);
    assert forall|i: int| 0 <= i < n + m implies #[trigger] whole_frames(all, chunk)[i]
        == joined[i] by {
        if i < n {
            assert(i * c + c <= n * c) by (nonlinear_arith)
                requires
                    i + 1 <= n,
                    c > 0,
            ;
            assert(0 <= i * c) by (nonlinear_arith)
                requires
                    0 <= i,
                    c > 0,
            ;
            assert(all.subrange(i * c, i * c + c) =~= head.subrange(i * c, i * c + c));
        } else {
            let j = i - n;
            assert(i * c == n * c + j * c) by (nonlinear_arith)
                requires
                    i == n + j,
            ;
            assert(j * c + c <= m * c) by (nonlinear_arith)
                requires
                    j + 1 <= m,
                    c > 0,
            ;
            assert(0 <= j * c) by (nonlinear_arith)
                requires
                    0 <= j,
                    c > 0,
            ;
            assert(all.subrange(i * c, i * c + c) =~= tail.subrange(j * c, j * c + c));
        }
    }
    assert(whole_frames(all, chunk) =~= joined);
    assert(remainder(all, chunk) =~= remainder(tail, chunk));
}

/// Nothing of the audio is lost or repeated in the reassembly: the frames and the remainder
/// account for every byte.
pub proof fn lemma_reassembly_is_complete(bytes: Seq<u8>, chunk: nat)
    requires
        chunk > 0,
    ensures
        whole_frames(bytes, chunk).len() * chunk + remainder(bytes, chunk).len() == bytes.len(),
        forall|i: int|
            0 <= i < whole_frames(bytes, chunk).len() ==> (#[trigger] whole_frames(
                bytes,
                chunk,
            )[i]).len() == chunk / 2,
{
    let c = chunk as int;
    let n = bytes.len() as int / c;
    lemma_fundamental_div_mod(bytes.len() as int, c);
    assert(c * n == n * c) by (nonlinear_arith);
    assert forall|i: int| 0 <= i < n implies (#[trigger] whole_frames(bytes, chunk)[i]).len()
        == chunk / 2 by {
        assert(i * c + c <= n * c) by (nonlinear_arith)
            requires
                i + 1 <= n,
                c > 0,
        ;
        assert(0 <= i * c) by (nonlinear_arith)
            requires
                0 <= i,
                c > 0,
        ;
        assert(bytes.subrange(i * c, i * c + c).len() == chunk);
    }
}

/// What reaches the delivery thread is the wire frame of the packet: the encoder put the
/// packet right behind the prefix, and nothing has to be assembled.
pub proof fn lemma_frame_on_wire(
    data: Seq<u8>,
    prefix: int,
    len: int,
    pts: u64,
    history: Seq<(Seq<u8>, u64)>,
    distance: nat,
    emit_header: bool,
)
    requires
        0 <= prefix,
        0 <= len,
        prefix + len <= data.len(),
        data.take(prefix) == ws_prefix(pts, history, distance, emit_header),
    ensures
        data.take(prefix + len) == ws_body(
            data.subrange(prefix, prefix + len),
            pts,
            history,
            distance,
            emit_header,
        ),
{
    assert(data.take(prefix + len) =~= data.take(prefix) + data.subrange(prefix, prefix + len));
}

/// What became of a frame.
pub enum Fate {
    /// The silence gate dropped it.
    Silent,
    /// The encoder failed or produced nothing.
    Failed,
    /// This packet was sent.
    Sent(Seq<u8>),
}

/// A frame that went through a run. Feeding fragments, losing a session and taking the
/// counters happen between frames; what they leave is part of it.
pub struct Emitted {
    /// The unfinished frame when this one begins.
    pub partial: Seq<u8>,
    /// The counters when this frame begins.
    pub stats: Stats,
    /// What became of the frame.
    pub fate: Fate,
    /// The bitrate that the encoder had.
    pub bitrate: i32,
    /// The stash after the frame.
    pub stash: Seq<Seq<u8>>,
}

/// The state after a frame: begun, and, unless it was silent, finished.
pub open spec fn after_frame(s: RunView, frame: Emitted, step: u64, distance: nat) -> RunView {
    let s = RunView { partial: frame.partial, stats: frame.stats, ..s };
    match frame.fate {
        Fate::Silent => after_silence(s, step, frame.bitrate),
        Fate::Failed => after_sound(s, step, frame.bitrate, frame.stash),
        Fate::Sent(packet) => after_packet(
            after_sound(s, step, frame.bitrate, frame.stash),
            packet,
            s.samples,
            distance,
        ),
    }
}

/// The state after any number of frames, silent, failed and sent in any order.
pub open spec fn after_frames(s: RunView, frames: Seq<Emitted>, step: u64, distance: nat) -> RunView
    decreases frames.len(),
{
    if frames.len() == 0 {
        s
    } else {
        after_frame(
            after_frames(s, frames.drop_last(), step, distance),
            frames.last(),
            step,
            distance,
        )
    }
}

/// The packets sent since the last silent frame, or since the start, oldest first. The frame
/// number `i` has the timestamp `i * step`.
pub open spec fn sent_since_silence(frames: Seq<Emitted>, step: nat) -> Seq<(Seq<u8>, u64)>
    decreases frames.len(),
{
    if frames.len() == 0 {
        Seq::empty()
    } else {
        let before = sent_since_silence(frames.drop_last(), step);
        match frames.last().fate {
            Fate::Silent => Seq::empty(),
            Fate::Failed => before,
            Fate::Sent(packet) => before.push((packet, ((frames.len() - 1) * step) as u64)),
        }
    }
}

/// What `begin_frame` and `finish_frame` leave of a frame that came to nothing is what
/// `after_frame` says of it: the buffer it was given goes to the stash, nothing else differs.
pub proof fn lemma_failed_frame(
    s: RunView,
    step: u64,
    bitrate: i32,
    taken_from: Seq<Seq<u8>>,
    stash: Seq<Seq<u8>>,
    distance: nat,
)
    ensures
        (RunView { stash, ..after_sound(s, step, bitrate, taken_from) }) == after_frame(
            s,
            Emitted { partial: s.partial, stats: s.stats, fate: Fate::Failed, bitrate, stash },
            step,
            distance,
        ),
{
}

/// A run from its start, over any frames. The history holds exactly the newest of the packets
/// sent since the last silent frame, as many as there are redundant copies; their timestamps
/// rise towards that of the next frame; history and spare buffers together never outnumber
/// the copies; and the timestamp counts every frame, sent or not.
///
/// The count of samples fits its 64 bits.
pub proof fn lemma_run_history(bitrate: i32, frames: Seq<Emitted>, step: u64, distance: nat)
    requires
        step > 0,
        frames.len() * step <= u64::MAX,
        forall|i: int|
            0 <= i < frames.len() ==> ((#[trigger] frames[i]).fate matches Fate::Sent(packet)
                ==> packet.len() > 0),
    ensures
        ({
            let t = after_frames(fresh_run(bitrate), frames, step, distance);
            &&& t.history == newest(sent_since_silence(frames, step as nat), distance)
            &&& rising(t.samples, t.history)
            &&& t.history.len() + t.spare <= distance
            &&& t.samples == frames.len() * step
        }),
    decreases frames.len(),
{
    let s = fresh_run(bitrate);
    let sent = sent_since_silence(frames, step as nat);
    lemma_sent_rises(frames, step as nat);
    if frames.len() == 0 {
        assert(s.history =~= newest(sent, distance));
    } else {
        let init = frames.drop_last();
        let n = init.len() as int;
        assert(forall|i: int| 0 <= i < init.len() ==> init[i] == #[trigger] frames[i]);
        assert(frames.len() * step == n * step + step) by (nonlinear_arith)
            requires
                frames.len() == n + 1,
        ;
        lemma_run_history(bitrate, init, step, distance);
        let mid = after_frames(s, init, step, distance);
        let before = sent_since_silence(init, step as nat);
        let t = after_frames(s, frames, step, distance);
        match frames.last().fate {
            Fate::Silent => {
                assert(t.history =~= newest(sent, distance));
            },
            Fate::Failed => {},
            Fate::Sent(packet) => {
                assert(sent == before.push((packet, mid.samples)));
                if distance > 0 {
                    assert(newest(newest(before, distance).push((packet, mid.samples)), distance)
                        =~= newest(sent, distance));
                } else {
                    assert(newest(sent, 0) =~= newest(before, 0));
                }
            },
        }
        let window = newest(sent, distance);
        let skipped = sent.len() - window.len();
        assert(forall|i: int|
            0 <= i < window.len() ==> window[i] == #[trigger] sent[i + skipped]);
        assert(rising(t.samples, window)) by {
            assert forall|i: int| 0 <= i < window.len() implies (#[trigger] window[i]).0.len() > 0
                && window[i].1 < t.samples by {
                assert(window[i] == sent[i + skipped]);
            }
            assert forall|i: int, j: int| 0 <= i < j < window.len() implies (
            #[trigger] window[i]).1 < (#[trigger] window[j]).1 by {
                assert(window[i] == sent[i + skipped] && window[j] == sent[j + skipped]);
            }
        }
    }
}

proof fn lemma_sent_rises(frames: Seq<Emitted>, step: nat)
    requires
        step > 0,
        frames.len() * step <= u64::MAX,
        forall|i: int|
            0 <= i < frames.len() ==> ((#[trigger] frames[i]).fate matches Fate::Sent(packet)
                ==> packet.len() > 0),
    ensures
        rising((frames.len() * step) as u64, sent_since_silence(frames, step)),
    decreases frames.len(),
{
    if frames.len() > 0 {
        let init = frames.drop_last();
        let n = init.len() as int;
        assert(forall|i: int| 0 <= i < init.len() ==> init[i] == #[trigger] frames[i]);
        assert(frames.len() * step == n * step + step) by (nonlinear_arith)
            requires
                frames.len() == n + 1,
        ;
        assert(0 <= n * step) by (nonlinear_arith)
            requires
                n >= 0,
                step > 0,
        ;
        lemma_sent_rises(init, step);
        assert(frames.last() == frames[n]);
        let before = sent_since_silence(init, step);
        let sent = sent_since_silence(frames, step);
        match frames.last().fate {
            Fate::Sent(packet) => {
                assert(sent == before.push((packet, (n * step) as u64)));
                assert(forall|i: int| 0 <= i < before.len() ==> #[trigger] sent[i] == before[i]);
            },
            _ => {},
        }
    }
}

/// Silence leaves no trace on the wire but the passing of time: the timestamp moves on as
/// with any other frame, and the first frame after it carries no redundancy.
pub proof fn lemma_silence_flushes(
    s: RunView,
    step: u64,
    bitrate: i32,
    stash: Seq<Seq<u8>>,
    distance: nat,
)
    ensures
        ({
            let t = after_silence(s, step, bitrate);
            &&& t.samples == after_sound(s, step, bitrate, stash).samples
            &&& s.samples + step <= u64::MAX ==> t.samples == s.samples + step
            &&& t.history.len() + t.spare == s.history.len() + s.spare
            &&& ws_prefix(t.samples, t.history, distance, true) == seq![1u8, 0u8]
        }),
{
    let t = after_silence(s, step, bitrate);
    assert(newest(t.history, distance) =~= Seq::<(Seq<u8>, u64)>::empty());
    assert(blocks_of(t.samples, newest(t.history, distance)) =~= Seq::<(Seq<u8>, nat)>::empty());
}

/// A bitrate that the encoder refused is asked for again with the next frame, and so on until
/// it takes it; one that it took is not asked for again until another one is requested, and
/// then that one is. It makes no difference whether the frame in between was silent, failed
/// or was sent.
pub proof fn lemma_bitrate_latches(
    s: RunView,
    frame: Emitted,
    requested: i32,
    taken: bool,
    later: i32,
    step: u64,
    distance: nat,
)
    requires
        bitrate_wanted(requested, s) == Some(requested),
        frame.bitrate == bitrate_after(requested, taken, s),
    ensures
        ({
            let t = after_frame(s, frame, step, distance);
            &&& !taken ==> bitrate_wanted(requested, t) == Some(requested)
            &&& taken ==> bitrate_wanted(requested, t) is None
            &&& taken && later != requested ==> bitrate_wanted(later, t) == Some(later)
        }),
{
}

/// A client rebuilds from one frame what it lost before it. The frame that a run sends next,
/// received by a client that last played the frame with timestamp `played`, makes the client
/// decode every packet of the run's history that is newer than that and fits a block, in
/// order and once, and then the packet itself.
///
/// The client goes by the timestamp in the frame, which is the low 32 bits of the run's; so
/// does `last`, what it remembers of `played`.
pub proof fn lemma_run_recovers_loss(
    s: RunView,
    packet: Seq<u8>,
    distance: nat,
    played: int,
    last: i64,
)
    requires
        s.history.len() <= distance <= RED_MAX_DISTANCE,
        rising(s.samples, s.history),
        packet.len() > 0,
        0 < s.samples - played < 0x8000_0000,
        same_stamp(last, played),
        blocks_of(s.samples, s.history).len() > 0,
    ensures
        ({
            let body = ws_body(packet, s.samples, s.history, distance, true);
            let ts = wire_stamp(body);
            &&& same_stamp(ts, s.samples as int)
            &&& receive(Some(last), body.skip(6), ts) == (
                lacking(s.samples, s.history, played).push(packet),
                Some(ts),
            )
        }),
{
    assert(newest(s.history, distance) == s.history);
    lemma_wire_loss_recovery(packet, s.samples, s.history, distance, played, last);
}

/// The bytes of frames, one after the other.
pub open spec fn joined(frames: Seq<Seq<i16>>) -> Seq<u8>
    decreases frames.len(),
{
    if frames.len() == 0 {
        Seq::empty()
    } else {
        joined(frames.drop_last()) + pcm_bytes(frames.last())
    }
}

spec fn piece(bytes: Seq<u8>, chunk: nat, i: int) -> Seq<u8> {
    bytes.subrange(i * chunk, i * chunk + chunk)
}

spec fn pieces(bytes: Seq<u8>, chunk: nat, n: int) -> Seq<Seq<u8>> {
    Seq::new(n as nat, |i: int| piece(bytes, chunk, i))
}

spec fn strung(parts: Seq<Seq<u8>>) -> Seq<u8>
    decreases parts.len(),
{
    if parts.len() == 0 {
        Seq::empty()
    } else {
        strung(parts.drop_last()) + parts.last()
    }
}

spec fn as_samples(parts: Seq<Seq<u8>>) -> Seq<Seq<i16>> {
    Seq::new(parts.len(), |i: int| pcm_samples(parts[i]))
}

proof fn lemma_samples_of_parts(parts: Seq<Seq<u8>>)
    requires
        forall|i: int| 0 <= i < parts.len() ==> (#[trigger] parts[i]).len() % 2 == 0,
    ensures
        joined(as_samples(parts)) == strung(parts),
    decreases parts.len(),
{
    if parts.len() > 0 {
        let init = parts.drop_last();
        assert(forall|i: int| 0 <= i < init.len() ==> init[i] == #[trigger] parts[i]);
        lemma_samples_of_parts(init);
        assert(as_samples(parts).drop_last() =~= as_samples(init));
        assert(parts.last() == parts[parts.len() - 1]);
        lemma_pcm_bytes_of_samples(parts.last());
    }
}

proof fn lemma_pieces_strung(bytes: Seq<u8>, chunk: nat, n: int)
    requires
        chunk > 0,
        0 <= n,
        n * chunk <= bytes.len(),
    ensures
        strung(pieces(bytes, chunk, n)) == bytes.take(n * chunk),
        forall|i: int| 0 <= i < n ==> (#[trigger] pieces(bytes, chunk, n)[i]).len() == chunk,
    decreases n,
{
    let all = pieces(bytes, chunk, n);
    if n == 0 {
        assert(n * chunk == 0) by (nonlinear_arith)
            requires
                n == 0,
        ;
        assert(strung(all) =~= bytes.take(0));
    } else {
        let m = n - 1;
        let at = m * chunk;
        assert(n * chunk == at + chunk && 0 <= at) by (nonlinear_arith)
            requires
                n == m + 1,
                0 <= m,
                chunk > 0,
                at == m * chunk,
        ;
        lemma_pieces_strung(bytes, chunk, m);
        let before = pieces(bytes, chunk, m);
        assert(all.drop_last() =~= before);
        assert(all.last() == bytes.subrange(at, at + chunk));
        assert(bytes.take(at + chunk) =~= bytes.take(at) + all.last());
        assert forall|i: int| 0 <= i < n implies (#[trigger] all[i]).len() == chunk by {
            if i < m {
                assert(all[i] == before[i]);
            }
        }
    }
}

/// Every sample of the fragments comes out as it went in: the PCM of the completed frames, one
/// after the other, and then what is carried over, is what was carried before and then the
/// fragment. Frames are made of whole samples.
pub proof fn lemma_audio_is_unchanged(partial: Seq<u8>, src: Seq<u8>, chunk: nat)
    requires
        chunk > 0,
        chunk % 2 == 0,
    ensures
        joined(whole_frames(partial + src, chunk)) + remainder(partial + src, chunk) == partial
            + src,
        remainder(partial + src, chunk).len() < chunk,
{
    let bytes = partial + src;
    let c = chunk as int;
    let n = bytes.len() as int / c;
    lemma_fundamental_div_mod(bytes.len() as int, c);
    assert(c * n == n * c) by (nonlinear_arith);
    lemma_pieces_strung(bytes, chunk, n);
    lemma_samples_of_parts(pieces(bytes, chunk, n));
    assert(whole_frames(bytes, chunk) =~= as_samples(pieces(bytes, chunk, n)));
    assert(bytes.take(n * c) + remainder(bytes, chunk) =~= bytes);
}

/// The same, sample by sample: sample `k` of frame `i` is what its two bytes count up to, in
/// two's complement.
pub proof fn lemma_frame_samples(bytes: Seq<u8>, chunk: nat, i: int, k: int)
    requires
        chunk > 0,
        0 <= i,
        (i + 1) * chunk <= bytes.len(),
        0 <= k < chunk / 2,
    ensures
        i < whole_frames(bytes, chunk).len(),
        k < whole_frames(bytes, chunk)[i].len(),
        bytes[i * chunk + 2 * k] + 256 * bytes[i * chunk + 2 * k + 1] == if whole_frames(
            bytes,
            chunk,
        )[i][k] < 0 {
            whole_frames(bytes, chunk)[i][k] + 65536
        } else {
            whole_frames(bytes, chunk)[i][k] as int
        },
{
    let c = chunk as int;
    let n = bytes.len() as int / c;
    lemma_fundamental_div_mod(bytes.len() as int, c);
    let r = bytes.len() as int % c;
    assert(i < n) by (nonlinear_arith)
        requires
            (i + 1) * c <= bytes.len(),
            bytes.len() == c * n + r,
            r < c,
            c > 0,
    ;
    assert((i + 1) * c == i * c + c && 0 <= i * c) by (nonlinear_arith)
        requires
            0 <= i,
            c > 0,
    ;
    lemma_pcm_samples_layout(bytes.subrange(i * c, i * c + c), k);
}

/// Silence is what has no byte but zero, and one sample that is not zero ends it.
pub proof fn lemma_silence_is_all_zero(pcm: Seq<i16>)
    ensures
        is_silence(pcm) <==> (forall|k: int|
            0 <= k < pcm_bytes(pcm).len() ==> #[trigger] pcm_bytes(pcm)[k] == 0),
        forall|i: int| 0 <= i < pcm.len() && #[trigger] pcm[i] != 0 ==> !is_silence(pcm),
{
    let b = pcm_bytes(pcm);
    if is_silence(pcm) {
        assert forall|k: int| 0 <= k < b.len() implies #[trigger] b[k] == 0 by {
            let i = k / 2;
            assert(pcm[i] == 0);
            lemma_pcm_bytes_layout(pcm, i);
            assert(k == 2 * i || k == 2 * i + 1);
        }
    }
    if forall|k: int| 0 <= k < b.len() ==> #[trigger] b[k] == 0 {
        assert forall|i: int| 0 <= i < pcm.len() implies #[trigger] pcm[i] == 0 by {
            lemma_pcm_bytes_layout(pcm, i);
            assert(b[2 * i] == 0 && b[2 * i + 1] == 0);
        }
    }
}

/// A run begins with nothing: no audio, no buffers, no history, at time zero, unheard, with
/// the bitrate it was given and all counters at zero.
pub proof fn lemma_run_begins(bitrate: i32)
    ensures
        ({
            let s = fresh_run(bitrate);
            &&& s.partial.len() == 0 && s.stash.len() == 0 && s.history.len() == 0 && s.spare == 0
            &&& s.samples == 0 && !s.sounded && s.bitrate == bitrate
            &&& s.stats.chunks_read == 0 && s.stats.chunks_silent == 0
            &&& s.stats.chunks_encoded == 0 && s.stats.bytes_encoded == 0
        }),
{
}

/// `b` is `by` more than `a` on the circle of 64-bit counters.
pub open spec fn advanced(a: u64, b: u64, by: int) -> bool {
    b == a + by || b == a + by - 0x1_0000_0000_0000_0000
}

/// A silent frame counts as read and as silent, takes its time, flushes the history into the
/// spare buffers, and touches nothing else.
pub proof fn lemma_silent_frame(s: RunView, step: u64, bitrate: i32)
    ensures
        ({
            let t = after_silence(s, step, bitrate);
            &&& advanced(s.stats.chunks_read, t.stats.chunks_read, 1)
            &&& advanced(s.stats.chunks_silent, t.stats.chunks_silent, 1)
            &&& t.stats.chunks_encoded == s.stats.chunks_encoded
            &&& t.stats.bytes_encoded == s.stats.bytes_encoded
            &&& advanced(s.samples, t.samples, step as int)
            &&& t.bitrate == bitrate
            &&& t.history.len() == 0
            &&& t.spare == s.spare + s.history.len()
            &&& t.partial == s.partial && t.stash == s.stash && t.sounded == s.sounded
        }),
{
}

/// A frame that is to be encoded counts as read, takes its time, marks the run as heard, and
/// touches nothing else but the buffers.
pub proof fn lemma_sounding_frame(s: RunView, step: u64, bitrate: i32, stash: Seq<Seq<u8>>)
    ensures
        ({
            let t = after_sound(s, step, bitrate, stash);
            &&& advanced(s.stats.chunks_read, t.stats.chunks_read, 1)
            &&& t.stats.chunks_silent == s.stats.chunks_silent
            &&& t.stats.chunks_encoded == s.stats.chunks_encoded
            &&& t.stats.bytes_encoded == s.stats.bytes_encoded
            &&& advanced(s.samples, t.samples, step as int)
            &&& t.bitrate == bitrate && t.sounded && t.stash == stash
            &&& t.partial == s.partial && t.history == s.history && t.spare == s.spare
        }),
{
}

/// A packet counts as encoded, with its bytes; it becomes the newest of the history, from
/// which the oldest leaves where the copies would be too many; and it touches nothing else.
/// A buffer is only made where none is spare and the history still grows.
pub proof fn lemma_sent_packet(s: RunView, packet: Seq<u8>, pts: u64, distance: nat)
    requires
        packet.len() <= u64::MAX,
        s.history.len() <= distance,
    ensures
        ({
            let t = after_packet(s, packet, pts, distance);
            &&& advanced(s.stats.chunks_encoded, t.stats.chunks_encoded, 1)
            &&& advanced(s.stats.bytes_encoded, t.stats.bytes_encoded, packet.len() as int)
            &&& t.stats.chunks_read == s.stats.chunks_read
            &&& t.stats.chunks_silent == s.stats.chunks_silent
            &&& t.samples == s.samples && t.bitrate == s.bitrate && t.sounded == s.sounded
            &&& t.partial == s.partial && t.stash == s.stash
            &&& distance == 0 ==> t.history == s.history && t.spare == s.spare
            &&& s.history.len() < distance ==> t.history == s.history.push((packet, pts))
            &&& 0 < distance == s.history.len() ==> t.history == s.history.skip(1).push(
                (packet, pts),
            ) && t.spare == s.spare
            &&& s.history.len() < distance && s.spare == 0 ==> t.spare == 0
            &&& s.history.len() < distance && s.spare > 0 ==> t.spare == s.spare - 1
        }),
{
    let t = after_packet(s, packet, pts, distance);
    if 0 < distance && distance == s.history.len() {
        assert(t.history =~= s.history.skip(1).push((packet, pts)));
    }
}

/// How many frames the silence gate dropped.
pub open spec fn silent_in(frames: Seq<Emitted>) -> int
    decreases frames.len(),
{
    if frames.len() == 0 {
        0
    } else {
        silent_in(frames.drop_last()) + if frames.last().fate is Silent {
            1int
        } else {
            0
        }
    }
}

/// How many packets were sent, and how long they are together.
pub open spec fn sent_in(frames: Seq<Emitted>) -> (int, int)
    decreases frames.len(),
{
    if frames.len() == 0 {
        (0, 0)
    } else {
        let before = sent_in(frames.drop_last());
        match frames.last().fate {
            Fate::Sent(packet) => (before.0 + 1, before.1 + packet.len()),
            _ => before,
        }
    }
}

/// Nobody took the counters while `frames` went through the run.
pub open spec fn untaken(bitrate: i32, frames: Seq<Emitted>, step: u64, distance: nat) -> bool
    decreases frames.len(),
{
    frames.len() > 0 ==> {
        &&& untaken(bitrate, frames.drop_last(), step, distance)
        &&& frames.last().stats == after_frames(
            fresh_run(bitrate),
            frames.drop_last(),
            step,
            distance,
        ).stats
    }
}

/// The counters tell what happened since they were last taken: every frame was read, the
/// silent ones are the silent ones, and the packets and their bytes are those that were sent.
///
/// The counts fit their 64 bits.
pub proof fn lemma_counters_tally(bitrate: i32, frames: Seq<Emitted>, step: u64, distance: nat)
    requires
        frames.len() <= u64::MAX,
        sent_in(frames).1 <= u64::MAX,
        untaken(bitrate, frames, step, distance),
    ensures
        ({
            let t = after_frames(fresh_run(bitrate), frames, step, distance).stats;
            &&& t.chunks_read == frames.len()
            &&& t.chunks_silent == silent_in(frames)
            &&& t.chunks_encoded == sent_in(frames).0
            &&& t.bytes_encoded == sent_in(frames).1
        }),
    decreases frames.len(),
{
    lemma_tally_bounds(frames);
    if frames.len() > 0 {
        let init = frames.drop_last();
        lemma_tally_bounds(init);
        lemma_counters_tally(bitrate, init, step, distance);
    }
}

proof fn lemma_tally_bounds(frames: Seq<Emitted>)
    ensures
        0 <= silent_in(frames) <= frames.len(),
        0 <= sent_in(frames).0 <= frames.len(),
        0 <= sent_in(frames).1,
    decreases frames.len(),
{
    if frames.len() > 0 {
        lemma_tally_bounds(frames.drop_last());
    }
}

/// A run has been heard as soon as one frame was not silent, and not before.
pub proof fn lemma_heard(bitrate: i32, frames: Seq<Emitted>, step: u64, distance: nat)
    ensures
        after_frames(fresh_run(bitrate), frames, step, distance).sounded <==> silent_in(frames)
            < frames.len(),
    decreases frames.len(),
{
    lemma_tally_bounds(frames);
    if frames.len() > 0 {
        lemma_tally_bounds(frames.drop_last());
        lemma_heard(bitrate, frames.drop_last(), step, distance);
    }
}

/// A failed encoder and an empty packet are the same thing; any other length is taken as it
/// is.
pub proof fn lemma_packet_len(n: usize)
    ensures
        packet_len(None) == 0,
        packet_len(Some(n)) == n,
{
}

/// A frame without a packet leaves no trace but, at most, its buffer in the stash.
pub proof fn lemma_nothing_sent(
    before: RunState,
    after: RunState,
    pending: Pending,
    pool: &BufferPool,
    sent: Sent,
)
    requires
        nothing_sent(before, after, pending, pool, sent),
    ensures
        sent == Sent::Nothing,
        after@ == (RunView { stash: after@.stash, ..before@ }),
        after@.stash == before@.stash || after@.stash == before@.stash.push(pending.data@),
        before@.stash.len() <= 16 ==> after@.stash.len() <= 16,
{
}

/// The bitrate is asked for exactly where the encoder has another one, and it has what was
/// asked for exactly where it took it.
pub proof fn lemma_bitrate_asked(requested: i32, taken: bool, s: RunView)
    ensures
        bitrate_wanted(requested, s) is Some <==> requested != s.bitrate,
        bitrate_wanted(requested, s) matches Some(b) ==> b == requested,
        taken ==> bitrate_after(requested, taken, s) == requested,
        !taken ==> bitrate_after(requested, taken, s) == s.bitrate,
{
}

/// Frames are seen as their samples, one for one.
pub proof fn lemma_frames_seen(frames: Seq<Vec<i16>>, i: int)
    requires
        0 <= i < frames.len(),
    ensures
        sample_seqs(frames).len() == frames.len(),
        sample_seqs(frames)[i] == frames[i]@,
{
}

/// A run, its packets and a lossy transport, end to end. After any frames of a run, let the
/// last `lost` packets since the last silence not arrive, none of them more than 16383 samples
/// old or longer than 1023 bytes, and no more of them than there are copies. Then the client
/// decodes out of the next wire frame exactly those, in order, and the packet itself.
pub proof fn lemma_run_survives_loss(
    bitrate: i32,
    frames: Seq<Emitted>,
    step: u64,
    distance: nat,
    packet: Seq<u8>,
    lost: nat,
    played: int,
    last: i64,
    ts: i64,
)
    requires
        step > 0,
        frames.len() * step <= u64::MAX,
        forall|i: int|
            0 <= i < frames.len() ==> ((#[trigger] frames[i]).fate matches Fate::Sent(p)
                ==> p.len() > 0),
        packet.len() > 0,
        0 < lost <= distance <= 4,
        lost <= sent_since_silence(frames, step as nat).len(),
        ({
            let sent = sent_since_silence(frames, step as nat);
            let n = sent.len() as int;
            &&& n > lost ==> sent[n - lost - 1].1 <= played
            &&& played < sent[n - lost].1
            &&& sent[n - lost].1 + 16383 >= frames.len() * step
            &&& forall|i: int| n - lost <= i < n ==> (#[trigger] sent[i]).0.len() <= 1023
        }),
        frames.len() * step - played < 0x8000_0000,
        (last - played) % 0x1_0000_0000 == 0,
        (ts - frames.len() * step) % 0x1_0000_0000 == 0,
    ensures
        ({
            let sent = sent_since_silence(frames, step as nat);
            let s = after_frames(fresh_run(bitrate), frames, step, distance);
            let body = ws_body(packet, s.samples, s.history, distance, true);
            let got = receive(Some(last), body.skip(6), ts);
            &&& got.0.len() == lost + 1
            &&& forall|i: int|
                0 <= i < lost ==> #[trigger] got.0[i] == sent[sent.len() - lost + i].0
            &&& got.0[lost as int] == packet
            &&& got.1 == Some(ts)
            &&& (ts - (256 * number3(body, 2) + body[5])) % 0x1_0000_0000 == 0
        }),
{
    let sent = sent_since_silence(frames, step as nat);
    let s = after_frames(fresh_run(bitrate), frames, step, distance);
    lemma_run_history(bitrate, frames, step, distance);
    lemma_newest(sent, distance);
    let n = s.history.len() as int;
    let skipped = sent.len() - n;
    assert(forall|i: int| 0 <= i < n ==> #[trigger] s.history[i] == sent[skipped + i]);
    assert forall|i: int| n - lost <= i < n implies (#[trigger] s.history[i]).0.len() <= 1023 by {
        assert(s.history[i] == sent[skipped + i]);
    }
    lemma_lost_packets_recovered(
        packet,
        s.samples,
        s.history,
        distance,
        lost,
        played,
        last,
        ts,
    );
}

/// What a run promises of itself at every moment: up to four copies per frame, no more
/// buffers for them than copies, and less than a frame waiting for the rest of it. Another
/// moment of the same run agrees with it on what a frame is and on the copies.
pub proof fn lemma_run_bounded(s: &RunState, t: &RunState)
    requires
        s.wf(),
        t.same_run(s),
    ensures
        s.distance() <= 4,
        s@.history.len() + s@.spare <= s.distance(),
        s@.partial.len() < s.chunk(),
        t.step() == s.step() && t.chunk() == s.chunk() && t.distance() == s.distance(),
        s.in_order() ==> forall|i: int|
            0 <= i < s@.history.len() ==> (#[trigger] s@.history[i]).0.len() > 0
                && s@.history[i].1 < s@.samples,
{
}

} // verus!
