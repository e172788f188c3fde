//! Redundant audio framing (RFC 2198), on the way out and on the way in.
//!
//! RED carries copies of recent frames alongside each primary, so a receiver on a lossy
//! transport rebuilds a dropped packet from the next one it gets, with no retransmit. The
//! sending side is `ws_body` and its two writers; the receiving side is `read_red`, which
//! finds the frames of a payload, and `play`, which picks those not played yet.

use std::collections::VecDeque;

use vstd::arithmetic::div_mod::lemma_mod_multiples_vanish;
use vstd::prelude::*;

use crate::wire::{be4, be_bytes, from_be, lemma_be_len, push_slice};

verus! {

/// Max RED timestamp offset: 14-bit ceiling in 48 kHz samples from the primary.
pub const RED_MAX_OFFSET: u64 = 16383;

/// Max RED block length: 10-bit ceiling in bytes.
pub const RED_MAX_LEN: usize = 1023;

/// RED block payload type.
pub const RED_BLOCK_PT: u8 = 0;

/// Max redundant copies per frame and RED history depth.
pub const RED_MAX_DISTANCE: usize = 4;

/// Worst-case byte length of the frame prefix: tag, count, timestamp, headers, payloads.
pub const RED_PREFIX_MAX: usize = 4115;

/// First byte of a redundant block's header: the payload type with the F bit set.
pub const RED_MORE: u8 = 128;

/// Earlier frames as `(packet, timestamp)`, oldest first.
pub open spec fn frames_of(history: Seq<(Vec<u8>, u64)>) -> Seq<(Seq<u8>, u64)> {
    Seq::new(history.len(), |i: int| (history[i].0@, history[i].1))
}

/// The newest `distance` frames, or all of them where there are fewer.
pub open spec fn newest<T>(frames: Seq<T>, distance: nat) -> Seq<T> {
    if frames.len() > distance {
        frames.skip(frames.len() - distance)
    } else {
        frames
    }
}

/// How far back from the primary a frame lies; one that is not behind it counts as zero.
pub open spec fn offset_back(primary_pts: u64, pts: u64) -> nat {
    if pts < primary_pts {
        (primary_pts - pts) as nat
    } else {
        0
    }
}

/// A frame fits a RED block: its offset in 14 bits and its length in 10.
pub open spec fn fits(primary_pts: u64, frame: (Seq<u8>, u64)) -> bool {
    &&& offset_back(primary_pts, frame.1) <= RED_MAX_OFFSET
    &&& frame.0.len() <= RED_MAX_LEN
}

/// The redundant blocks `(packet, offset)` that `frames` yields: those that fit, in order.
pub open spec fn blocks_of(primary_pts: u64, frames: Seq<(Seq<u8>, u64)>) -> Seq<(Seq<u8>, nat)>
    decreases frames.len(),
{
    if frames.len() == 0 {
        Seq::empty()
    } else {
        let before = blocks_of(primary_pts, frames.drop_last());
        if fits(primary_pts, frames.last()) {
            before.push((frames.last().0, offset_back(primary_pts, frames.last().1)))
        } else {
            before
        }
    }
}

/// The 4-byte header of a redundant block: F bit and payload type, then the offset in 14
/// bits over the length in 10, big-endian.
pub open spec fn block_header(offset: nat, len: nat) -> Seq<u8> {
    seq![RED_MORE] + be_bytes(offset * 1024 + len, 3)
}

/// The headers of all blocks, in order.
pub open spec fn block_headers(blocks: Seq<(Seq<u8>, nat)>) -> Seq<u8>
    decreases blocks.len(),
{
    if blocks.len() == 0 {
        Seq::empty()
    } else {
        block_headers(blocks.drop_last()) + block_header(blocks.last().1, blocks.last().0.len())
    }
}

/// The packets of all blocks, in order.
pub open spec fn block_payloads(blocks: Seq<(Seq<u8>, nat)>) -> Seq<u8>
    decreases blocks.len(),
{
    if blocks.len() == 0 {
        Seq::empty()
    } else {
        block_payloads(blocks.drop_last()) + blocks.last().0
    }
}

/// A RED payload: block headers, the one-byte primary header (F bit clear), the blocks
/// oldest first, then the primary.
pub open spec fn red_payload(blocks: Seq<(Seq<u8>, nat)>, primary: Seq<u8>) -> Seq<u8> {
    block_headers(blocks) + seq![RED_BLOCK_PT] + block_payloads(blocks) + primary
}

/// What precedes the primary packet on the wire.
///
/// With the header omitted there is nothing. Without a usable redundant block it is exactly
/// the two bytes `[1, 0]`. Otherwise it is the tag, the number of blocks, the low 32 bits of
/// the primary timestamp, and the RED headers and blocks.
pub open spec fn ws_prefix(
    primary_pts: u64,
    frames: Seq<(Seq<u8>, u64)>,
    red_distance: nat,
    emit_header: bool,
) -> Seq<u8> {
    let blocks = blocks_of(primary_pts, newest(frames, red_distance));
    if !emit_header {
        Seq::empty()
    } else if blocks.len() == 0 {
        seq![1u8, 0u8]
    } else {
        seq![1u8, (blocks.len() % 256) as u8] + be_bytes(primary_pts as nat % 0x1_0000_0000, 4)
            + red_payload(blocks, Seq::empty())
    }
}

/// A whole frame as it goes on the wire.
pub open spec fn ws_body(
    primary: Seq<u8>,
    primary_pts: u64,
    frames: Seq<(Seq<u8>, u64)>,
    red_distance: nat,
    emit_header: bool,
) -> Seq<u8> {
    ws_prefix(primary_pts, frames, red_distance, emit_header) + primary
}

/// True when the frame fits a RED block, with its offset.
fn block_offset(primary_pts: u64, frame: &(Vec<u8>, u64)) -> (r: Option<u32>)
    ensures
        r is Some <==> fits(primary_pts, (frame.0@, frame.1)),
        r matches Some(o) ==> o == offset_back(primary_pts, frame.1),
{
    let offset: u64 = primary_pts.saturating_sub(frame.1);
    if offset <= RED_MAX_OFFSET && frame.0.len() <= RED_MAX_LEN {
        Some(offset as u32)
    } else {
        None
    }
}

/// The 4-byte header of a redundant block.
fn header4(offset: u32, len: usize) -> (b: [u8; 4])
    requires
        offset <= RED_MAX_OFFSET,
        len <= RED_MAX_LEN,
    ensures
        b@ == block_header(offset as nat, len as nat),
{
    let word: u32 = offset * 1024 + len as u32;
    let b: [u8; 4] = [
        RED_MORE,
        (word / 65536) as u8,
        (word / 256 % 256) as u8,
        (word % 256) as u8,
    ];
    proof {
        reveal_with_fuel(be_bytes, 4);
        assert(word as nat / 256 / 256 == word as nat / 65536);
        assert(b@ =~= block_header(offset as nat, len as nat));
    }
    b
}

/// Where the newest `red_distance` entries of a history begin.
fn window_start(len: usize, red_distance: usize) -> (start: usize)
    ensures
        start == if len > red_distance {
            len - red_distance
        } else {
            0
        },
{
    len.saturating_sub(red_distance)
}

/// The whole wire frame in a buffer of its own: prefix and primary packet.
///
/// `history` is oldest first. A block whose offset or length overflows its RED field is
/// skipped, so the count covers only what fit.
pub fn build_ws_body(
    primary: &[u8],
    primary_pts: u64,
    history: &VecDeque<(Vec<u8>, u64)>,
    red_distance: usize,
    emit_header: bool,
) -> (out: Vec<u8>)
    ensures
        out@ == ws_body(
            primary@,
            primary_pts,
            frames_of(history@),
            red_distance as nat,
            emit_header,
        ),
{
    let mut out: Vec<u8> = Vec::new();
    if !emit_header {
        push_slice(&mut out, primary);
        assert(out@ =~= Seq::<u8>::empty() + primary@);
        return out;
    }
    let len: usize = history.len();
    let start: usize = window_start(len, red_distance);
    let ghost all = frames_of(history@);
    let ghost win = newest(all, red_distance as nat);
    assert(win =~= all.skip(start as int));
    let mut heads: Vec<u8> = Vec::new();
    let mut datas: Vec<u8> = Vec::new();
    let mut count: u8 = 0;
    let mut any: bool = false;
    let mut k: usize = start;
    while k < len
        invariant
            start <= k <= len,
            len == history@.len(),
            all == frames_of(history@),
            win == all.skip(start as int),
            heads@ == block_headers(blocks_of(primary_pts, win.take(k - start))),
            datas@ == block_payloads(blocks_of(primary_pts, win.take(k - start))),
            count == blocks_of(primary_pts, win.take(k - start)).len() % 256,
            any == (blocks_of(primary_pts, win.take(k - start)).len() > 0),
        decreases len - k,
    {
        let frame: &(Vec<u8>, u64) = &history[k];
        proof {
            let next = win.take(k + 1 - start);
            assert(next.drop_last() =~= win.take(k - start));
            assert(next.last() == (frame.0@, frame.1));
        }
        let ghost before = blocks_of(primary_pts, win.take(k - start));
        match block_offset(primary_pts, frame) {
            Some(offset) => {
                let h: [u8; 4] = header4(offset, frame.0.len());
                push_slice(&mut heads, h.as_slice());
                push_slice(&mut datas, frame.0.as_slice());
                count = count.wrapping_add(1);
                any = true;
                proof {
                    let after = before.push((frame.0@, offset as nat));
                    assert(after.drop_last() =~= before);
                }
            },
            None => {},
        }
        k = k + 1;
    }
    assert(win.take(k - start) =~= win);
    out.push(1);
    out.push(count);
    if any {
        let pts4: [u8; 4] = be4((primary_pts % 0x1_0000_0000) as u32);
        push_slice(&mut out, pts4.as_slice());
        push_slice(&mut out, heads.as_slice());
        out.push(RED_BLOCK_PT);
        push_slice(&mut out, datas.as_slice());
    }
    assert(out@ =~= ws_prefix(primary_pts, all, red_distance as nat, emit_header));
    push_slice(&mut out, primary);
    out
}

/// Copy `src` into `buf` at `at`.
fn put_slice(buf: &mut [u8], at: usize, src: &[u8])
    requires
        at + src@.len() <= old(buf)@.len(),
    ensures
        final(buf)@.len() == old(buf)@.len(),
        final(buf)@.take(at + src@.len()) == old(buf)@.take(at as int) + src@,
        final(buf)@.skip(at + src@.len()) == old(buf)@.skip(at + src@.len()),
{
    let ghost start = buf@;
    let room: usize = buf.len();
    let mut k: usize = 0;
    while k < src.len()
        invariant
            k <= src@.len(),
            at + src@.len() <= buf@.len(),
            buf@.len() == start.len(),
            room == buf@.len(),
            forall|i: int|
                0 <= i < buf@.len() ==> #[trigger] buf@[i] == if at <= i < at + k {
                    src@[i - at]
                } else {
                    start[i]
                },
        decreases src@.len() - k,
    {
        buf[at + k] = src[k];
        k = k + 1;
    }
    assert(buf@.take(at + src@.len()) =~= start.take(at as int) + src@);
    assert(buf@.skip(at + src@.len()) =~= start.skip(at + src@.len()));
}

/// Write the frame prefix into `buf` in place and return its length, so that the encoder can
/// put the packet right after it.
///
/// `buf` must hold `RED_PREFIX_MAX` bytes when redundancy is on, and two bytes for the bare
/// header.
pub fn write_ws_prefix_into(
    buf: &mut [u8],
    primary_pts: u64,
    history: &VecDeque<(Vec<u8>, u64)>,
    red_distance: usize,
    emit_header: bool,
) -> (n: usize)
    requires
        red_distance <= RED_MAX_DISTANCE,
        emit_header ==> old(buf)@.len() >= 2,
        emit_header && red_distance > 0 ==> old(buf)@.len() >= RED_PREFIX_MAX,
    ensures
        final(buf)@.len() == old(buf)@.len(),
        n <= final(buf)@.len(),
        final(buf)@.take(n as int) == ws_prefix(
            primary_pts,
            frames_of(history@),
            red_distance as nat,
            emit_header,
        ),
        final(buf)@.skip(n as int) == old(buf)@.skip(n as int),
{
    let ghost all = frames_of(history@);
    let ghost win = newest(all, red_distance as nat);
    let ghost blocks = blocks_of(primary_pts, win);
    if !emit_header {
        assert(buf@.take(0) =~= Seq::<u8>::empty());
        return 0;
    }
    let ghost orig = buf@;
    let len: usize = history.len();
    let start: usize = window_start(len, red_distance);
    assert(win =~= all.skip(start as int));
    let mut count: u8 = 0;
    let mut k: usize = start;
    while k < len
        invariant
            start <= k <= len,
            len == history@.len(),
            len - start <= RED_MAX_DISTANCE,
            all == frames_of(history@),
            win == all.skip(start as int),
            count == blocks_of(primary_pts, win.take(k - start)).len(),
            count <= k - start,
        decreases len - k,
    {
        let frame: &(Vec<u8>, u64) = &history[k];
        proof {
            let next = win.take(k + 1 - start);
            assert(next.drop_last() =~= win.take(k - start));
            assert(next.last() == (frame.0@, frame.1));
        }
        if block_offset(primary_pts, frame).is_some() {
            count = count + 1;
        }
        k = k + 1;
    }
    assert(win.take(k - start) =~= win);
    buf[0] = 1;
    buf[1] = count;
    assert(buf@.take(2) =~= seq![1u8, count]);
    assert(buf@.skip(2) =~= orig.skip(2));
    if count == 0 {
        return 2;
    }
    let pts4: [u8; 4] = be4((primary_pts % 0x1_0000_0000) as u32);
    proof {
        lemma_be_len(primary_pts as nat % 0x1_0000_0000, 4);
    }
    put_slice(buf, 2, pts4.as_slice());
    let ghost lead = seq![1u8, count] + be_bytes(primary_pts as nat % 0x1_0000_0000, 4);
    assert(buf@.take(6) == lead);
    assert(buf@.skip(6) =~= orig.skip(6)) by {
        assert(orig.skip(6) =~= orig.skip(2).skip(4));
    }
    let mut at: usize = 6;
    k = start;
    while k < len
        invariant
            start <= k <= len,
            len == history@.len(),
            len - start <= RED_MAX_DISTANCE,
            all == frames_of(history@),
            win == all.skip(start as int),
            buf@.len() == orig.len(),
            orig.len() >= RED_PREFIX_MAX,
            lead.len() == 6,
            at == 6 + 4 * blocks_of(primary_pts, win.take(k - start)).len(),
            at <= 6 + 4 * (k - start),
            buf@.take(at as int) == lead + block_headers(
                blocks_of(primary_pts, win.take(k - start)),
            ),
            buf@.skip(at as int) == orig.skip(at as int),
        decreases len - k,
    {
        let frame: &(Vec<u8>, u64) = &history[k];
        let ghost before = blocks_of(primary_pts, win.take(k - start));
        proof {
            let next = win.take(k + 1 - start);
            assert(next.drop_last() =~= win.take(k - start));
            assert(next.last() == (frame.0@, frame.1));
        }
        match block_offset(primary_pts, frame) {
            Some(offset) => {
                let h: [u8; 4] = header4(offset, frame.0.len());
                let ghost prev = buf@;
                put_slice(buf, at, h.as_slice());
                proof {
                    let after = before.push((frame.0@, offset as nat));
                    assert(after.drop_last() =~= before);
                    assert(buf@.take(at + 4) =~= lead + block_headers(after));
                    assert(prev.skip(at + 4) =~= prev.skip(at as int).skip(4));
                    assert(orig.skip(at + 4) =~= orig.skip(at as int).skip(4));
                }
                at = at + 4;
            },
            None => {},
        }
        k = k + 1;
    }
    assert(win.take(k - start) =~= win);
    let ghost prev = buf@;
    buf[at] = RED_BLOCK_PT;
    proof {
        assert(buf@.take(at + 1) =~= lead + block_headers(blocks) + seq![RED_BLOCK_PT]);
        assert(buf@.skip(at + 1) =~= prev.skip(at as int).skip(1));
        assert(orig.skip(at + 1) =~= orig.skip(at as int).skip(1));
    }
    at = at + 1;
    let ghost head = lead + block_headers(blocks) + seq![RED_BLOCK_PT];
    k = start;
    while k < len
        invariant
            start <= k <= len,
            len == history@.len(),
            len - start <= RED_MAX_DISTANCE,
            all == frames_of(history@),
            win == all.skip(start as int),
            buf@.len() == orig.len(),
            orig.len() >= RED_PREFIX_MAX,
            head.len() <= 7 + 4 * RED_MAX_DISTANCE,
            at == head.len() + block_payloads(blocks_of(primary_pts, win.take(k - start))).len(),
            at <= head.len() + RED_MAX_LEN * (k - start),
            buf@.take(at as int) == head + block_payloads(
                blocks_of(primary_pts, win.take(k - start)),
            ),
            buf@.skip(at as int) == orig.skip(at as int),
        decreases len - k,
    {
        let frame: &(Vec<u8>, u64) = &history[k];
        let ghost before = blocks_of(primary_pts, win.take(k - start));
        proof {
            let next = win.take(k + 1 - start);
            assert(next.drop_last() =~= win.take(k - start));
            assert(next.last() == (frame.0@, frame.1));
        }
        if block_offset(primary_pts, frame).is_some() {
            let size: usize = frame.0.len();
            let ghost prev = buf@;
            put_slice(buf, at, frame.0.as_slice());
            proof {
                let after = before.push((frame.0@, offset_back(primary_pts, frame.1)));
                assert(after.drop_last() =~= before);
                assert(buf@.take(at + size) =~= head + block_payloads(after));
                assert(prev.skip(at + size) =~= prev.skip(at as int).skip(size as int));
                assert(orig.skip(at + size) =~= orig.skip(at as int).skip(size as int));
            }
            at = at + size;
        }
        k = k + 1;
    }
    assert(win.take(k - start) =~= win);
    assert(buf@.take(at as int) =~= ws_prefix(primary_pts, all, red_distance as nat, emit_header));
    at
}

/// The timestamp `offset` before `ts`, in the wraparound of a 64-bit counter.
pub open spec fn ts_back(ts: i64, offset: nat) -> i64 {
    if ts - offset < i64::MIN {
        (ts - offset + 0x1_0000_0000_0000_0000) as i64
    } else {
        (ts - offset) as i64
    }
}

/// The block headers `(offset, length)` at the front of a payload, at most `room` of them,
/// and what follows the primary header.
pub open spec fn read_headers(payload: Seq<u8>, room: nat) -> Option<(Seq<(nat, nat)>, Seq<u8>)>
    decreases payload.len(),
{
    if payload.len() == 0 {
        None
    } else if payload[0] < RED_MORE {
        Some((Seq::empty(), payload.skip(1)))
    } else if payload.len() < 4 || room == 0 {
        None
    } else {
        let field = from_be(payload.subrange(1, 4));
        match read_headers(payload.skip(4), (room - 1) as nat) {
            None => None,
            Some(r) => Some((seq![(field / 1024, field % 1024)] + r.0, r.1)),
        }
    }
}

/// The frames `(timestamp, packet)` that lie in `data` behind the headers: each redundant
/// block that is not empty, in order, then the primary, which is whatever remains.
pub open spec fn read_blocks(headers: Seq<(nat, nat)>, data: Seq<u8>, primary_ts: i64) -> Option<
    Seq<(i64, Seq<u8>)>,
>
    decreases headers.len(),
{
    if headers.len() == 0 {
        Some(seq![(primary_ts, data)])
    } else {
        let offset = headers[0].0;
        let len = headers[0].1 as int;
        if data.len() < len {
            None
        } else {
            match read_blocks(headers.skip(1), data.skip(len), primary_ts) {
                None => None,
                Some(rest) => if len == 0 {
                    Some(rest)
                } else {
                    Some(seq![(ts_back(primary_ts, offset), data.take(len))] + rest)
                },
            }
        }
    }
}

/// The frames of a RED payload, oldest first, the primary last; `None` for a payload that is
/// cut short or carries more redundancy than the history depth.
pub open spec fn read_red(payload: Seq<u8>, primary_ts: i64) -> Option<Seq<(i64, Seq<u8>)>> {
    match read_headers(payload, RED_MAX_DISTANCE as nat) {
        None => None,
        Some(r) => read_blocks(r.0, r.1, primary_ts),
    }
}

/// `ts` lies ahead of `last` by serial-number comparison: timestamps are 32 bits wide and
/// wrap, so ahead means by less than half the circle.
pub open spec fn newer(ts: i64, last: i64) -> bool {
    0 < (ts - last) % 0x1_0000_0000 < 0x8000_0000
}

/// The packets to decode out of `frames` when `last` was played last, in order, and the
/// timestamp that is then the last one played.
pub open spec fn play(frames: Seq<(i64, Seq<u8>)>, last: i64) -> (Seq<Seq<u8>>, i64)
    decreases frames.len(),
{
    if frames.len() == 0 {
        (Seq::empty(), last)
    } else {
        let before = play(frames.drop_last(), last);
        let frame = frames.last();
        if frame.1.len() > 0 && newer(frame.0, before.1) {
            (before.0.push(frame.1), frame.0)
        } else {
            before
        }
    }
}

/// What one payload leads to: the packets to decode, and the timestamp played last.
///
/// A payload that cannot be read leads to nothing. The first one that can anchors the
/// timestamp: only its primary is decoded, since its redundancy describes frames that were
/// never due. From then on every frame newer than the last one played is decoded, in order.
pub open spec fn receive(last: Option<i64>, payload: Seq<u8>, primary_ts: i64) -> (
    Seq<Seq<u8>>,
    Option<i64>,
) {
    match read_red(payload, primary_ts) {
        None => (Seq::empty(), last),
        Some(frames) => match last {
            None => (
                if frames.last().1.len() > 0 {
                    seq![frames.last().1]
                } else {
                    Seq::empty()
                },
                Some(primary_ts),
            ),
            Some(l) => {
                let played = play(frames, l);
                (played.0, Some(played.1))
            },
        },
    }
}

/// The slices of `payload` that `(start, length)` ranges denote.
pub open spec fn slices(payload: Seq<u8>, ranges: Seq<(usize, usize)>) -> Seq<Seq<u8>> {
    Seq::new(
        ranges.len(),
        |i: int| payload.subrange(ranges[i].0 as int, ranges[i].0 + ranges[i].1),
    )
}

/// Every range lies inside a payload of `len` bytes.
pub open spec fn ranges_inside(ranges: Seq<(usize, usize)>, len: nat) -> bool {
    forall|i: int| 0 <= i < ranges.len() ==> (#[trigger] ranges[i]).0 + ranges[i].1 <= len
}

spec fn heads_view(heads: Seq<(u32, usize)>) -> Seq<(nat, nat)> {
    Seq::new(heads.len(), |i: int| (heads[i].0 as nat, heads[i].1 as nat))
}

spec fn frames_view(payload: Seq<u8>, frames: Seq<(i64, usize, usize)>) -> Seq<(i64, Seq<u8>)> {
    Seq::new(
        frames.len(),
        |i: int| (frames[i].0, payload.subrange(frames[i].1 as int, frames[i].1 + frames[i].2)),
    )
}

/// `ts` lies ahead of `last` by serial-number comparison.
fn is_newer(ts: i64, last: i64) -> (r: bool)
    ensures
        r == newer(ts, last),
{
    let ahead: i128 = ts as i128 - last as i128;
    let d: i128 = (ahead + 0x1_0000_0000_0000_0000) % 0x1_0000_0000;
    proof {
        lemma_mod_multiples_vanish(0x1_0000_0000, ahead as int, 0x1_0000_0000);
    }
    0 < d && d < 0x8000_0000
}

/// Read the block headers of a payload: the headers, and where the blocks begin.
fn scan_headers(payload: &[u8]) -> (r: Option<(Vec<(u32, usize)>, usize)>)
    ensures
        match (r, read_headers(payload@, RED_MAX_DISTANCE as nat)) {
            (None, None) => true,
            (Some(a), Some(b)) => heads_view(a.0@) == b.0 && a.1 <= payload@.len() && payload@.skip(
                a.1 as int,
            ) == b.1,
            _ => false,
        },
        r matches Some(a) ==> forall|i: int|
            0 <= i < a.0@.len() ==> (#[trigger] a.0@[i]).0 <= RED_MAX_OFFSET && a.0@[i].1
                <= RED_MAX_LEN,
{
    let n: usize = payload.len();
    let mut heads: Vec<(u32, usize)> = Vec::new();
    let mut i: usize = 0;
    assert(payload@.skip(0) =~= payload@);
    assert(forall|s: Seq<(nat, nat)>| #[trigger] (heads_view(heads@) + s) =~= s);
    while i < n && payload[i] >= RED_MORE
        invariant
            i <= n,
            n == payload@.len(),
            heads@.len() <= RED_MAX_DISTANCE,
            forall|k: int|
                0 <= k < heads@.len() ==> (#[trigger] heads@[k]).0 <= RED_MAX_OFFSET && heads@[k].1
                    <= RED_MAX_LEN,
            match read_headers(payload@.skip(i as int), (RED_MAX_DISTANCE - heads@.len()) as nat) {
                None => read_headers(payload@, RED_MAX_DISTANCE as nat) is None,
                Some(r) => read_headers(payload@, RED_MAX_DISTANCE as nat) == Some(
                    (heads_view(heads@) + r.0, r.1),
                ),
            },
        decreases n - i,
    {
        let ghost here = payload@.skip(i as int);
        if n - i < 4 || heads.len() >= RED_MAX_DISTANCE {
            return None;
        }
        let field: u32 = payload[i + 1] as u32 * 65536 + payload[i + 2] as u32 * 256
            + payload[i + 3] as u32;
        let ghost before = heads_view(heads@);
        heads.push((field / 1024, (field % 1024) as usize));
        proof {
            let s = here.subrange(1, 4);
            assert(field == from_be(s)) by {
                reveal_with_fuel(from_be, 4);
                assert(s.drop_last().drop_last().len() == 1);
            }
            assert(here.skip(4) =~= payload@.skip(i + 4));
            let h = seq![((field / 1024) as nat, (field % 1024) as nat)];
            assert(heads_view(heads@) =~= before + h);
            assert forall|x: Seq<(nat, nat)>| #[trigger] (heads_view(heads@) + x) == before + (h
                + x) by {
                assert(heads_view(heads@) + x =~= before + (h + x));
            }
        }
        i = i + 4;
    }
    if i >= n {
        return None;
    }
    assert(payload@.skip(i as int).skip(1) =~= payload@.skip(i + 1));
    assert(heads_view(heads@) + Seq::<(nat, nat)>::empty() =~= heads_view(heads@));
    Some((heads, i + 1))
}

/// Resolve block boundaries: each frame as `(timestamp, start, length)`, the primary last.
fn scan_blocks(payload: &[u8], heads: &Vec<(u32, usize)>, from: usize, primary_ts: i64) -> (r:
    Option<Vec<(i64, usize, usize)>>)
    requires
        from <= payload@.len(),
        forall|i: int|
            0 <= i < heads@.len() ==> (#[trigger] heads@[i]).0 <= RED_MAX_OFFSET && heads@[i].1
                <= RED_MAX_LEN,
    ensures
        match (r, read_blocks(heads_view(heads@), payload@.skip(from as int), primary_ts)) {
            (None, None) => true,
            (Some(a), Some(b)) => frames_view(payload@, a@) == b,
            _ => false,
        },
        r matches Some(a) ==> a@.len() > 0 && a@.last().0 == primary_ts && forall|i: int|
            0 <= i < a@.len() ==> (#[trigger] a@[i]).1 + a@[i].2 <= payload@.len(),
{
    let n: usize = payload.len();
    let ghost hs = heads_view(heads@);
    let ghost whole = read_blocks(hs, payload@.skip(from as int), primary_ts);
    let mut frames: Vec<(i64, usize, usize)> = Vec::new();
    let mut i: usize = from;
    let mut k: usize = 0;
    assert(hs.skip(0) =~= hs);
    assert(forall|s: Seq<(i64, Seq<u8>)>| #[trigger] (frames_view(payload@, frames@) + s) =~= s);
    while k < heads.len()
        invariant
            k <= heads@.len(),
            from <= i <= n,
            n == payload@.len(),
            hs == heads_view(heads@),
            forall|j: int|
                0 <= j < heads@.len() ==> (#[trigger] heads@[j]).0 <= RED_MAX_OFFSET && heads@[j].1
                    <= RED_MAX_LEN,
            forall|j: int|
                0 <= j < frames@.len() ==> (#[trigger] frames@[j]).1 + frames@[j].2
                    <= payload@.len(),
            whole == read_blocks(hs, payload@.skip(from as int), primary_ts),
            match read_blocks(hs.skip(k as int), payload@.skip(i as int), primary_ts) {
                None => whole is None,
                Some(rest) => whole == Some(frames_view(payload@, frames@) + rest),
            },
        decreases heads@.len() - k,
    {
        let offset: u32 = heads[k].0;
        let len: usize = heads[k].1;
        let ghost here = hs.skip(k as int);
        let ghost data = payload@.skip(i as int);
        assert(here[0] == (offset as nat, len as nat));
        if n - i < len {
            return None;
        }
        proof {
            assert(here.skip(1) =~= hs.skip(k + 1));
            assert(data.skip(len as int) =~= payload@.skip(i + len));
        }
        if len > 0 {
            let ghost before = frames_view(payload@, frames@);
            let ts: i64 = primary_ts.wrapping_sub(offset as i64);
            frames.push((ts, i, len));
            proof {
                let f = seq![(ts_back(primary_ts, offset as nat), data.take(len as int))];
                assert(data.take(len as int) =~= payload@.subrange(i as int, i + len));
                assert(frames_view(payload@, frames@) =~= before + f);
                assert forall|x: Seq<(i64, Seq<u8>)>|
                    #[trigger] (frames_view(payload@, frames@) + x) == before + (f + x) by {
                    assert(frames_view(payload@, frames@) + x =~= before + (f + x));
                }
            }
        }
        i = i + len;
        k = k + 1;
    }
    let ghost before = frames_view(payload@, frames@);
    frames.push((primary_ts, i, n - i));
    proof {
        assert(hs.skip(k as int).len() == 0);
        assert(payload@.skip(i as int) =~= payload@.subrange(i as int, n as int));
        assert(frames_view(payload@, frames@) =~= before + seq![
            (primary_ts, payload@.skip(i as int)),
        ]);
    }
    Some(frames)
}

/// Pick what to decode out of one RED payload: the `(start, length)` ranges of the packets,
/// oldest first, and the timestamp that counts as played once they are.
///
/// The timestamp moves on whether or not a packet turns out to be decodable, so that a
/// corrupt frame is not waited for.
pub fn select_red(last: Option<i64>, payload: &[u8], primary_ts: i64) -> (r: (
    Vec<(usize, usize)>,
    Option<i64>,
))
    ensures
        ranges_inside(r.0@, payload@.len()),
        slices(payload@, r.0@) == receive(last, payload@, primary_ts).0,
        r.1 == receive(last, payload@, primary_ts).1,
{
    let mut out: Vec<(usize, usize)> = Vec::new();
    let (heads, from) = match scan_headers(payload) {
        None => {
            assert(slices(payload@, out@) =~= Seq::<Seq<u8>>::empty());
            return (out, last);
        },
        Some(r) => r,
    };
    let frames: Vec<(i64, usize, usize)> = match scan_blocks(payload, &heads, from, primary_ts) {
        None => {
            assert(slices(payload@, out@) =~= Seq::<Seq<u8>>::empty());
            return (out, last);
        },
        Some(r) => r,
    };
    let ghost view = frames_view(payload@, frames@);
    let mut latest: i64 = match last {
        None => {
            let f: (i64, usize, usize) = frames[frames.len() - 1];
            if f.2 > 0 {
                out.push((f.1, f.2));
            }
            assert(slices(payload@, out@) =~= receive(last, payload@, primary_ts).0);
            return (out, Some(f.0));
        },
        Some(l) => l,
    };
    let ghost first = latest;
    let mut k: usize = 0;
    assert(slices(payload@, out@) =~= play(view.take(0), first).0);
    while k < frames.len()
        invariant
            k <= frames@.len(),
            view == frames_view(payload@, frames@),
            forall|j: int|
                0 <= j < frames@.len() ==> (#[trigger] frames@[j]).1 + frames@[j].2
                    <= payload@.len(),
            ranges_inside(out@, payload@.len()),
            slices(payload@, out@) == play(view.take(k as int), first).0,
            latest == play(view.take(k as int), first).1,
        decreases frames@.len() - k,
    {
        let f: (i64, usize, usize) = frames[k];
        let ghost next = view.take(k + 1);
        assert(next.drop_last() =~= view.take(k as int));
        assert(next.last() == view[k as int]);
        if f.2 > 0 && is_newer(f.0, latest) {
            let ghost before = slices(payload@, out@);
            out.push((f.1, f.2));
            latest = f.0;
            assert(slices(payload@, out@) =~= before.push(
                payload@.subrange(f.1 as int, f.1 + f.2),
            ));
        }
        k = k + 1;
    }
    assert(view.take(k as int) =~= view);
    (out, Some(latest))
}

} // verus!
