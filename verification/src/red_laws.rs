//! What the two ends of the redundant framing promise each other.

use vstd::arithmetic::div_mod::{lemma_mod_multiples_vanish, lemma_small_mod};
use vstd::prelude::*;

use crate::red::{
    block_header, block_headers, block_payloads, blocks_of, fits, newer, newest, play,
    read_blocks, read_headers, read_red, receive, red_payload, ts_back, ws_body, ws_prefix,
    RED_BLOCK_PT, RED_MAX_DISTANCE, RED_MAX_LEN, RED_MAX_OFFSET, RED_MORE, RED_PREFIX_MAX,
};
use crate::wire::{be_bytes, from_be, lemma_be_len, lemma_be_round_trip, pow256};

verus! {

/// Redundant blocks `(packet, offset)` whose fields fit their header.
pub open spec fn blocks_fit(blocks: Seq<(Seq<u8>, nat)>) -> bool {
    forall|i: int|
        0 <= i < blocks.len() ==> (#[trigger] blocks[i]).1 <= RED_MAX_OFFSET && blocks[i].0.len()
            <= RED_MAX_LEN
}

/// The `(offset, length)` fields of blocks.
pub open spec fn fields_of(blocks: Seq<(Seq<u8>, nat)>) -> Seq<(nat, nat)> {
    Seq::new(blocks.len(), |i: int| (blocks[i].1, blocks[i].0.len()))
}

/// The frames `(timestamp, packet)` that blocks stand for; an empty block stands for none.
pub open spec fn frames_sent(blocks: Seq<(Seq<u8>, nat)>, primary_ts: i64) -> Seq<(i64, Seq<u8>)>
    decreases blocks.len(),
{
    if blocks.len() == 0 {
        Seq::empty()
    } else {
        let before = frames_sent(blocks.drop_last(), primary_ts);
        if blocks.last().0.len() == 0 {
            before
        } else {
            before.push((ts_back(primary_ts, blocks.last().1), blocks.last().0))
        }
    }
}

/// Blocks taken from a history fit their header, and are no more than the history.
pub proof fn lemma_blocks_fit(primary_pts: u64, frames: Seq<(Seq<u8>, u64)>)
    ensures
        blocks_fit(blocks_of(primary_pts, frames)),
        blocks_of(primary_pts, frames).len() <= frames.len(),
    decreases frames.len(),
{
    if frames.len() > 0 {
        lemma_blocks_fit(primary_pts, frames.drop_last());
    }
}

proof fn lemma_block_sizes(blocks: Seq<(Seq<u8>, nat)>)
    requires
        blocks_fit(blocks),
    ensures
        block_headers(blocks).len() == 4 * blocks.len(),
        block_payloads(blocks).len() <= RED_MAX_LEN * blocks.len(),
    decreases blocks.len(),
{
    broadcast use lemma_be_len;

    if blocks.len() > 0 {
        let init = blocks.drop_last();
        assert(forall|i: int| 0 <= i < init.len() ==> init[i] == #[trigger] blocks[i]);
        lemma_block_sizes(init);
        assert(blocks.last() == blocks[blocks.len() - 1]);
    }
}

/// The prefix of a wire frame never outgrows the room that a frame buffer reserves for it.
pub proof fn lemma_prefix_fits(
    primary_pts: u64,
    frames: Seq<(Seq<u8>, u64)>,
    red_distance: nat,
    emit_header: bool,
)
    requires
        red_distance <= RED_MAX_DISTANCE,
    ensures
        ws_prefix(primary_pts, frames, red_distance, emit_header).len() <= RED_PREFIX_MAX,
{
    let window = newest(frames, red_distance);
    lemma_blocks_fit(primary_pts, window);
    lemma_block_sizes(blocks_of(primary_pts, window));
    lemma_be_len(primary_pts as nat % 0x1_0000_0000, 4);
}

proof fn lemma_headers_front(blocks: Seq<(Seq<u8>, nat)>)
    requires
        blocks.len() > 0,
    ensures
        block_headers(blocks) == block_header(blocks[0].1, blocks[0].0.len()) + block_headers(
            blocks.skip(1),
        ),
    decreases blocks.len(),
{
    let h = block_header(blocks[0].1, blocks[0].0.len());
    if blocks.len() == 1 {
        assert(blocks.drop_last().len() == 0);
        assert(block_headers(blocks.drop_last()) =~= Seq::<u8>::empty());
        assert(block_headers(blocks.skip(1)) =~= Seq::<u8>::empty());
        assert(Seq::<u8>::empty() + h =~= h + Seq::<u8>::empty());
    } else {
        lemma_headers_front(blocks.drop_last());
        assert(blocks.drop_last().skip(1) =~= blocks.skip(1).drop_last());
        let l = block_header(blocks.last().1, blocks.last().0.len());
        let mid = block_headers(blocks.skip(1).drop_last());
        assert(h + mid + l =~= h + (mid + l));
    }
}

proof fn lemma_payloads_front(blocks: Seq<(Seq<u8>, nat)>)
    requires
        blocks.len() > 0,
    ensures
        block_payloads(blocks) == blocks[0].0 + block_payloads(blocks.skip(1)),
    decreases blocks.len(),
{
    let h = blocks[0].0;
    if blocks.len() == 1 {
        assert(block_payloads(blocks.drop_last()) =~= Seq::<u8>::empty());
        assert(block_payloads(blocks.skip(1)) =~= Seq::<u8>::empty());
        assert(Seq::<u8>::empty() + h =~= h + Seq::<u8>::empty());
    } else {
        lemma_payloads_front(blocks.drop_last());
        assert(blocks.drop_last().skip(1) =~= blocks.skip(1).drop_last());
        let l = blocks.last().0;
        let mid = block_payloads(blocks.skip(1).drop_last());
        assert(h + mid + l =~= h + (mid + l));
    }
}

proof fn lemma_frames_front(blocks: Seq<(Seq<u8>, nat)>, ts: i64)
    requires
        blocks.len() > 0,
    ensures
        frames_sent(blocks, ts) == if blocks[0].0.len() == 0 {
            frames_sent(blocks.skip(1), ts)
        } else {
            seq![(ts_back(ts, blocks[0].1), blocks[0].0)] + frames_sent(blocks.skip(1), ts)
        },
    decreases blocks.len(),
{
    let h = seq![(ts_back(ts, blocks[0].1), blocks[0].0)];
    if blocks.len() == 1 {
        assert(blocks.drop_last().len() == 0);
        assert(frames_sent(blocks.drop_last(), ts) =~= Seq::empty());
        assert(frames_sent(blocks.skip(1), ts) =~= Seq::empty());
        assert(frames_sent(blocks, ts) =~= if blocks[0].0.len() == 0 {
            Seq::empty()
        } else {
            h + Seq::empty()
        });
    } else {
        lemma_frames_front(blocks.drop_last(), ts);
        assert(blocks.drop_last().skip(1) =~= blocks.skip(1).drop_last());
        let l = (ts_back(ts, blocks.last().1), blocks.last().0);
        let mid = frames_sent(blocks.skip(1).drop_last(), ts);
        assert((h + mid).push(l) =~= h + mid.push(l));
    }
}

proof fn lemma_headers_read_back(blocks: Seq<(Seq<u8>, nat)>, tail: Seq<u8>, room: nat)
    requires
        blocks_fit(blocks),
        blocks.len() <= room,
    ensures
        read_headers(block_headers(blocks) + seq![RED_BLOCK_PT] + tail, room) == Some(
            (fields_of(blocks), tail),
        ),
    decreases blocks.len(),
{
    let p = block_headers(blocks) + seq![RED_BLOCK_PT] + tail;
    if blocks.len() == 0 {
        assert(p.skip(1) =~= tail);
        assert(fields_of(blocks) =~= Seq::empty());
    } else {
        let offset = blocks[0].1;
        let len = blocks[0].0.len();
        let word = offset * 1024 + len;
        let rest = block_headers(blocks.skip(1)) + seq![RED_BLOCK_PT] + tail;
        lemma_headers_front(blocks);
        lemma_be_len(word, 3);
        assert(p =~= block_header(offset, len) + rest);
        assert(p[0] == RED_MORE);
        assert(p.skip(4) =~= rest);
        assert(p.subrange(1, 4) =~= be_bytes(word, 3));
        assert(pow256(3) == 0x100_0000) by {
            reveal_with_fuel(pow256, 4);
        }
        assert(blocks[0].1 <= RED_MAX_OFFSET && blocks[0].0.len() <= RED_MAX_LEN);
        lemma_be_round_trip(word, 3);
        assert(word / 1024 == offset && word % 1024 == len);
        assert(blocks_fit(blocks.skip(1)));
        lemma_headers_read_back(blocks.skip(1), tail, (room - 1) as nat);
        assert(fields_of(blocks) =~= seq![(offset, len)] + fields_of(blocks.skip(1)));
    }
}

proof fn lemma_blocks_read_back(blocks: Seq<(Seq<u8>, nat)>, primary: Seq<u8>, ts: i64)
    ensures
        read_blocks(fields_of(blocks), block_payloads(blocks) + primary, ts) == Some(
            frames_sent(blocks, ts).push((ts, primary)),
        ),
    decreases blocks.len(),
{
    let data = block_payloads(blocks) + primary;
    if blocks.len() == 0 {
        assert(data =~= primary);
        assert(frames_sent(blocks, ts).push((ts, primary)) =~= seq![(ts, primary)]);
    } else {
        let h = blocks[0].0;
        let rest = blocks.skip(1);
        lemma_payloads_front(blocks);
        lemma_frames_front(blocks, ts);
        lemma_blocks_read_back(rest, primary, ts);
        assert(fields_of(blocks).skip(1) =~= fields_of(rest));
        assert(data =~= h + (block_payloads(rest) + primary));
        assert(data.take(h.len() as int) =~= h);
        assert(data.skip(h.len() as int) =~= block_payloads(rest) + primary);
        let f = seq![(ts_back(ts, blocks[0].1), h)];
        assert((f + frames_sent(rest, ts)).push((ts, primary)) =~= f + frames_sent(rest, ts).push(
            (ts, primary),
        ));
    }
}

/// A receiver reads back exactly the frames that a RED payload was made from, oldest first,
/// with the primary last.
pub proof fn lemma_red_reads_back(blocks: Seq<(Seq<u8>, nat)>, primary: Seq<u8>, ts: i64)
    requires
        blocks_fit(blocks),
        blocks.len() <= RED_MAX_DISTANCE,
    ensures
        read_red(red_payload(blocks, primary), ts) == Some(
            frames_sent(blocks, ts).push((ts, primary)),
        ),
{
    let tail = block_payloads(blocks) + primary;
    assert(red_payload(blocks, primary) =~= block_headers(blocks) + seq![RED_BLOCK_PT] + tail);
    lemma_headers_read_back(blocks, tail, RED_MAX_DISTANCE as nat);
    lemma_blocks_read_back(blocks, primary, ts);
}

/// The wire frame tells a client everything it needs to take it apart.
///
/// A count of zero means exactly two bytes of framing, also for the first frame after a
/// start, when there is no history yet. Otherwise the count, the low 32 bits of the primary
/// timestamp, and a RED payload that holds the usable history and the primary follow.
pub proof fn lemma_ws_body_reads_back(
    primary: Seq<u8>,
    primary_pts: u64,
    frames: Seq<(Seq<u8>, u64)>,
    red_distance: nat,
    ts: i64,
)
    requires
        red_distance <= RED_MAX_DISTANCE,
    ensures
        ({
            let body = ws_body(primary, primary_pts, frames, red_distance, true);
            let blocks = blocks_of(primary_pts, newest(frames, red_distance));
            &&& body[0] == 1
            &&& body[1] == blocks.len()
            &&& body[1] == 0 ==> body.skip(2) == primary
            &&& body[1] != 0 ==> from_be(body.subrange(2, 6)) == primary_pts % 0x1_0000_0000
            &&& body[1] != 0 ==> read_red(body.skip(6), ts) == Some(
                frames_sent(blocks, ts).push((ts, primary)),
            )
        }),
{
    let body = ws_body(primary, primary_pts, frames, red_distance, true);
    let blocks = blocks_of(primary_pts, newest(frames, red_distance));
    lemma_blocks_fit(primary_pts, newest(frames, red_distance));
    if blocks.len() == 0 {
        assert(body.skip(2) =~= primary);
    } else {
        let low = primary_pts as nat % 0x1_0000_0000;
        assert(pow256(4) == 0x1_0000_0000) by {
            reveal_with_fuel(pow256, 5);
        }
        lemma_be_round_trip(low, 4);
        assert(body.subrange(2, 6) =~= be_bytes(low, 4));
        assert(body.skip(6) =~= red_payload(blocks, primary));
        lemma_red_reads_back(blocks, primary, ts);
    }
}

/// Without redundancy a frame is the two bytes `[1, 0]` and the packet, whatever the history.
pub proof fn lemma_without_redundancy(
    primary: Seq<u8>,
    primary_pts: u64,
    frames: Seq<(Seq<u8>, u64)>,
)
    ensures
        ws_body(primary, primary_pts, frames, 0, true) == seq![1u8, 0u8] + primary,
{
    assert(newest(frames, 0) =~= Seq::<(Seq<u8>, u64)>::empty());
    assert(blocks_of(primary_pts, newest(frames, 0)) =~= Seq::<(Seq<u8>, nat)>::empty());
}

/// A frame that carries a packet is never empty, with or without the header.
pub proof fn lemma_frame_not_empty(
    primary: Seq<u8>,
    primary_pts: u64,
    frames: Seq<(Seq<u8>, u64)>,
    red_distance: nat,
    emit_header: bool,
)
    requires
        primary.len() > 0,
    ensures
        ws_body(primary, primary_pts, frames, red_distance, emit_header).len() >= primary.len(),
        ws_body(primary, primary_pts, frames, red_distance, emit_header).len() > 0,
{
}

/// With the header omitted, the wire frame is the packet and nothing else.
pub proof fn lemma_bare_body(
    primary: Seq<u8>,
    primary_pts: u64,
    frames: Seq<(Seq<u8>, u64)>,
    red_distance: nat,
)
    ensures
        ws_body(primary, primary_pts, frames, red_distance, false) == primary,
{
    assert(ws_body(primary, primary_pts, frames, red_distance, false) =~= primary);
}

/// The packets of those blocks that lie less than `gap` before the primary, in order.
pub open spec fn missed(blocks: Seq<(Seq<u8>, nat)>, gap: int) -> Seq<Seq<u8>>
    decreases blocks.len(),
{
    if blocks.len() == 0 {
        Seq::empty()
    } else {
        let before = missed(blocks.drop_last(), gap);
        if blocks.last().1 < gap {
            before.push(blocks.last().0)
        } else {
            before
        }
    }
}

/// Blocks as a history yields them: none empty, all behind the primary, and each one closer
/// to it than the one before.
pub open spec fn oldest_first(blocks: Seq<(Seq<u8>, nat)>) -> bool {
    &&& forall|i: int|
        0 <= i < blocks.len() ==> (#[trigger] blocks[i]).0.len() > 0 && blocks[i].1 > 0
    &&& forall|i: int, j: int|
        0 <= i < j < blocks.len() ==> (#[trigger] blocks[i]).1 > (#[trigger] blocks[j]).1
}

/// How often going back wrapped around the 64-bit range.
spec fn wraps(ts: i64, offset: nat) -> int {
    if ts - offset < i64::MIN {
        1
    } else {
        0
    }
}

proof fn lemma_circle(d: int, k: int)
    ensures
        (d + k * 0x1_0000_0000_0000_0000) % 0x1_0000_0000 == d % 0x1_0000_0000,
{
    lemma_mod_multiples_vanish(k * 0x1_0000_0000, d, 0x1_0000_0000);
}

proof fn lemma_back_from(ts: i64, last: i64, offset: nat)
    requires
        newer(ts, last),
        offset <= RED_MAX_OFFSET,
    ensures
        newer(ts_back(ts, offset), last) == (offset < (ts - last) % 0x1_0000_0000),
{
    let gap = (ts - last) % 0x1_0000_0000;
    let d = ts - last - offset;
    lemma_circle(d, wraps(ts, offset));
    assert(ts_back(ts, offset) - last == d + wraps(ts, offset) * 0x1_0000_0000_0000_0000);
    let q = (ts - last) / 0x1_0000_0000;
    assert(ts - last == 0x1_0000_0000 * q + gap);
    lemma_mod_multiples_vanish(q, gap - offset, 0x1_0000_0000);
    if offset < gap {
        lemma_small_mod((gap - offset) as nat, 0x1_0000_0000);
    } else {
        lemma_mod_multiples_vanish(-1, 0x1_0000_0000 + gap - offset, 0x1_0000_0000);
        if offset > gap {
            lemma_small_mod((0x1_0000_0000 + gap - offset) as nat, 0x1_0000_0000);
        }
    }
}

proof fn lemma_back_order(ts: i64, near: nat, far: nat)
    requires
        near < far <= RED_MAX_OFFSET,
    ensures
        newer(ts_back(ts, near), ts_back(ts, far)),
        newer(ts, ts_back(ts, far)),
{
    let (a, b) = (wraps(ts, near), wraps(ts, far));
    lemma_circle(far - near, a - b);
    assert(ts_back(ts, near) - ts_back(ts, far) == (far - near) + (a - b)
        * 0x1_0000_0000_0000_0000);
    lemma_small_mod((far - near) as nat, 0x1_0000_0000);
    lemma_circle(far as int, -b);
    assert(ts - ts_back(ts, far) == far + (-b) * 0x1_0000_0000_0000_0000);
    lemma_small_mod(far, 0x1_0000_0000);
}

proof fn lemma_play_blocks(blocks: Seq<(Seq<u8>, nat)>, ts: i64, last: i64)
    requires
        blocks_fit(blocks),
        oldest_first(blocks),
        newer(ts, last),
    ensures
        play(frames_sent(blocks, ts), last) == (
            missed(blocks, (ts - last) % 0x1_0000_0000),
            if blocks.len() > 0 && blocks.last().1 < (ts - last) % 0x1_0000_0000 {
                ts_back(ts, blocks.last().1)
            } else {
                last
            },
        ),
    decreases blocks.len(),
{
    if blocks.len() > 0 {
        let gap = (ts - last) % 0x1_0000_0000;
        let init = blocks.drop_last();
        assert(forall|i: int| 0 <= i < init.len() ==> init[i] == #[trigger] blocks[i]);
        lemma_play_blocks(init, ts, last);
        let newest = blocks[blocks.len() - 1];
        assert(newest == blocks.last());
        let frames = frames_sent(blocks, ts);
        let before = frames_sent(init, ts);
        assert(frames == before.push((ts_back(ts, newest.1), newest.0)));
        assert(frames.drop_last() =~= before);
        assert(frames.last() == (ts_back(ts, newest.1), newest.0));
        lemma_back_from(ts, last, newest.1);
        if init.len() > 0 {
            let prior = blocks[blocks.len() - 2];
            assert(prior == init.last());
            assert(prior.1 > newest.1);
            lemma_back_order(ts, newest.1, prior.1);
        }
    }
}

/// A receiver that last played `last` decodes, out of a payload whose primary is newer, each
/// redundant frame newer than `last` exactly once, oldest first, and then the primary. What
/// was played before is not decoded again, and the primary counts as played afterwards.
///
/// Timestamps are compared on the 32-bit circle, so this holds across the wraparound.
pub proof fn lemma_recovers_gap(
    blocks: Seq<(Seq<u8>, nat)>,
    primary: Seq<u8>,
    ts: i64,
    last: i64,
)
    requires
        blocks_fit(blocks),
        blocks.len() <= RED_MAX_DISTANCE,
        oldest_first(blocks),
        primary.len() > 0,
        newer(ts, last),
    ensures
        receive(Some(last), red_payload(blocks, primary), ts) == (
            missed(blocks, (ts - last) % 0x1_0000_0000).push(primary),
            Some(ts),
        ),
{
    let before = frames_sent(blocks, ts);
    let frames = before.push((ts, primary));
    lemma_red_reads_back(blocks, primary, ts);
    lemma_play_blocks(blocks, ts, last);
    assert(frames.drop_last() =~= before);
    if blocks.len() > 0 {
        let b = blocks[blocks.len() - 1];
        assert(b == blocks.last() && b.1 > 0);
        lemma_back_order(ts, 0, b.1);
    }
}

/// The frames of a history that a client which last played `last` still lacks: those that
/// fit a block and came later.
pub open spec fn lacking(primary_pts: u64, frames: Seq<(Seq<u8>, u64)>, last: int) -> Seq<Seq<u8>>
    decreases frames.len(),
{
    if frames.len() == 0 {
        Seq::empty()
    } else {
        let before = lacking(primary_pts, frames.drop_last(), last);
        if fits(primary_pts, frames.last()) && frames.last().1 > last {
            before.push(frames.last().0)
        } else {
            before
        }
    }
}

/// A history as the encoder leaves it: no packet is empty, timestamps rise towards the
/// primary.
pub open spec fn rising(primary_pts: u64, frames: Seq<(Seq<u8>, u64)>) -> bool {
    &&& forall|i: int|
        0 <= i < frames.len() ==> (#[trigger] frames[i]).0.len() > 0 && frames[i].1 < primary_pts
    &&& forall|i: int, j: int|
        0 <= i < j < frames.len() ==> (#[trigger] frames[i]).1 < (#[trigger] frames[j]).1
}

proof fn lemma_blocks_of_rising(primary_pts: u64, frames: Seq<(Seq<u8>, u64)>, last: int)
    requires
        rising(primary_pts, frames),
        last < primary_pts,
    ensures
        oldest_first(blocks_of(primary_pts, frames)),
        missed(blocks_of(primary_pts, frames), primary_pts - last) == lacking(
            primary_pts,
            frames,
            last,
        ),
        frames.len() > 0 ==> forall|i: int|
            0 <= i < blocks_of(primary_pts, frames).len() ==> (#[trigger] blocks_of(
                primary_pts,
                frames,
            )[i]).1 >= primary_pts - frames.last().1,
    decreases frames.len(),
{
    if frames.len() > 0 {
        let init = frames.drop_last();
        assert(forall|i: int| 0 <= i < init.len() ==> init[i] == #[trigger] frames[i]);
        lemma_blocks_of_rising(primary_pts, init, last);
        let f = frames[frames.len() - 1];
        assert(f == frames.last());
        let before = blocks_of(primary_pts, init);
        let blocks = blocks_of(primary_pts, frames);
        if init.len() > 0 {
            let g = frames[frames.len() - 2];
            assert(g == init.last() && g.1 < f.1);
        }
        if fits(primary_pts, f) {
            assert(blocks.drop_last() =~= before);
        }
    }
}

/// Two timestamps agree in their low 32 bits, which is all that the wire carries.
pub open spec fn same_stamp(ts: i64, time: int) -> bool {
    (ts - time) % 0x1_0000_0000 == 0
}

/// The timestamp in a frame that carries redundancy, as a client reads it.
pub open spec fn wire_stamp(body: Seq<u8>) -> i64 {
    from_be(body.subrange(2, 6)) as i64
}

proof fn lemma_same_gap(ts: i64, time: int, last: i64, played: int)
    requires
        same_stamp(ts, time),
        same_stamp(last, played),
        0 < time - played < 0x8000_0000,
    ensures
        newer(ts, last),
        (ts - last) % 0x1_0000_0000 == time - played,
{
    let a = (ts - time) / 0x1_0000_0000;
    let b = (last - played) / 0x1_0000_0000;
    assert(ts - time == 0x1_0000_0000 * a && last - played == 0x1_0000_0000 * b);
    lemma_mod_multiples_vanish(a - b, time - played, 0x1_0000_0000);
    lemma_small_mod((time - played) as nat, 0x1_0000_0000);
}

/// Loss recovery, end to end: a client that played up to the time `played`, then lost some
/// packets and now gets the wire frame of a later one, decodes out of it every frame it missed
/// that the redundancy still covers, in order and once, and then the frame itself.
///
/// The client may know both times in full or by their low 32 bits: `ts` stands for the
/// primary's, `last` for `played`. They are less than half the 32-bit circle apart, and the
/// frame carries redundancy; without any, the frame is the packet itself.
pub proof fn lemma_loss_recovery(
    primary: Seq<u8>,
    primary_pts: u64,
    frames: Seq<(Seq<u8>, u64)>,
    red_distance: nat,
    ts: i64,
    played: int,
    last: i64,
)
    requires
        red_distance <= RED_MAX_DISTANCE,
        primary.len() > 0,
        rising(primary_pts, newest(frames, red_distance)),
        0 < primary_pts - played < 0x8000_0000,
        same_stamp(ts, primary_pts as int),
        same_stamp(last, played),
        blocks_of(primary_pts, newest(frames, red_distance)).len() > 0,
    ensures
        receive(
            Some(last),
            ws_body(primary, primary_pts, frames, red_distance, true).skip(6),
            ts,
        ) == (
            lacking(primary_pts, newest(frames, red_distance), played).push(primary),
            Some(ts),
        ),
{
    let window = newest(frames, red_distance);
    let blocks = blocks_of(primary_pts, window);
    lemma_blocks_fit(primary_pts, window);
    lemma_blocks_of_rising(primary_pts, window, played);
    lemma_be_len(primary_pts as nat % 0x1_0000_0000, 4);
    assert(ws_body(primary, primary_pts, frames, red_distance, true).skip(6) =~= red_payload(
        blocks,
        primary,
    ));
    lemma_same_gap(ts, primary_pts as int, last, played);
    lemma_recovers_gap(blocks, primary, ts, last);
}

/// Loss recovery from the wire alone: a client that goes by the timestamp it reads from the
/// frame recovers the same, although the frame carries only 32 bits of it, and that timestamp
/// is what it has played last from then on.
pub proof fn lemma_wire_loss_recovery(
    primary: Seq<u8>,
    primary_pts: u64,
    frames: Seq<(Seq<u8>, u64)>,
    red_distance: nat,
    played: int,
    last: i64,
)
    requires
        red_distance <= RED_MAX_DISTANCE,
        primary.len() > 0,
        rising(primary_pts, newest(frames, red_distance)),
        0 < primary_pts - played < 0x8000_0000,
        same_stamp(last, played),
        blocks_of(primary_pts, newest(frames, red_distance)).len() > 0,
    ensures
        ({
            let body = ws_body(primary, primary_pts, frames, red_distance, true);
            let ts = wire_stamp(body);
            &&& 0 <= ts < 0x1_0000_0000
            &&& same_stamp(ts, primary_pts as int)
            &&& receive(Some(last), body.skip(6), ts) == (
                lacking(primary_pts, newest(frames, red_distance), played).push(primary),
                Some(ts),
            )
        }),
{
    let body = ws_body(primary, primary_pts, frames, red_distance, true);
    let ts = wire_stamp(body);
    lemma_ws_body_reads_back(primary, primary_pts, frames, red_distance, ts);
    lemma_blocks_fit(primary_pts, newest(frames, red_distance));
    let q = primary_pts as int / 0x1_0000_0000;
    assert(ts - primary_pts == 0x1_0000_0000 * (-q));
    lemma_mod_multiples_vanish(-q, 0, 0x1_0000_0000);
    lemma_loss_recovery(primary, primary_pts, frames, red_distance, ts, played, last);
}

/// Without loss the redundancy costs nothing: a client that played everything in the history
/// lacks none of it.
pub proof fn lemma_nothing_lacking(primary_pts: u64, frames: Seq<(Seq<u8>, u64)>, last: int)
    requires
        forall|i: int| 0 <= i < frames.len() ==> (#[trigger] frames[i]).1 <= last,
    ensures
        lacking(primary_pts, frames, last) == Seq::<Seq<u8>>::empty(),
    decreases frames.len(),
{
    if frames.len() > 0 {
        let init = frames.drop_last();
        assert(forall|i: int| 0 <= i < init.len() ==> init[i] == #[trigger] frames[i]);
        lemma_nothing_lacking(primary_pts, init, last);
        assert(frames.last() == frames[frames.len() - 1]);
    }
}

/// The timestamps of what `play` decodes.
pub open spec fn play_ts(frames: Seq<(i64, Seq<u8>)>, last: i64) -> Seq<i64>
    decreases frames.len(),
{
    if frames.len() == 0 {
        Seq::empty()
    } else {
        let before = play_ts(frames.drop_last(), last);
        let frame = frames.last();
        if frame.1.len() > 0 && newer(frame.0, play(frames.drop_last(), last).1) {
            before.push(frame.0)
        } else {
            before
        }
    }
}

/// Each timestamp lies ahead of the one before it, and the first one ahead of `last`.
pub open spec fn moves_forward(stamps: Seq<i64>, last: i64) -> bool {
    forall|i: int|
        0 <= i < stamps.len() ==> newer(
            #[trigger] stamps[i],
            if i == 0 {
                last
            } else {
                stamps[i - 1]
            },
        )
}

/// The timestamp played last, after some were played.
pub open spec fn last_of(stamps: Seq<i64>, last: i64) -> i64 {
    if stamps.len() == 0 {
        last
    } else {
        stamps.last()
    }
}

proof fn lemma_play_moves_forward(frames: Seq<(i64, Seq<u8>)>, last: i64)
    ensures
        play_ts(frames, last).len() == play(frames, last).0.len(),
        play(frames, last).1 == last_of(play_ts(frames, last), last),
        moves_forward(play_ts(frames, last), last),
    decreases frames.len(),
{
    if frames.len() > 0 {
        let init = frames.drop_last();
        lemma_play_moves_forward(init, last);
        let before = play_ts(init, last);
        let stamps = play_ts(frames, last);
        if stamps.len() > before.len() {
            assert forall|i: int| 0 <= i < stamps.len() implies newer(
                #[trigger] stamps[i],
                if i == 0 {
                    last
                } else {
                    stamps[i - 1]
                },
            ) by {
                if i < before.len() {
                    assert(stamps[i] == before[i]);
                }
            }
        }
    }
}

/// The timestamps decoded out of a row of payloads `(payload, timestamp)`.
pub open spec fn stream_ts(payloads: Seq<(Seq<u8>, i64)>, last: i64) -> Seq<i64>
    decreases payloads.len(),
{
    if payloads.len() == 0 {
        Seq::empty()
    } else {
        let before = stream_ts(payloads.drop_last(), last);
        match read_red(payloads.last().0, payloads.last().1) {
            None => before,
            Some(frames) => before + play_ts(frames, last_of(before, last)),
        }
    }
}

/// What a receiver has played last after a row of payloads.
pub open spec fn stream_last(payloads: Seq<(Seq<u8>, i64)>, last: i64) -> Option<i64>
    decreases payloads.len(),
{
    if payloads.len() == 0 {
        Some(last)
    } else {
        receive(
            stream_last(payloads.drop_last(), last),
            payloads.last().0,
            payloads.last().1,
        ).1
    }
}

/// Playback only ever moves forward. However payloads are lost, repeated, reordered or
/// damaged on the way, each frame decoded is newer than the one decoded before it, so that
/// no frame is decoded again right after itself and none out of order.
pub proof fn lemma_stream_moves_forward(payloads: Seq<(Seq<u8>, i64)>, last: i64)
    ensures
        moves_forward(stream_ts(payloads, last), last),
        stream_last(payloads, last) == Some(last_of(stream_ts(payloads, last), last)),
    decreases payloads.len(),
{
    if payloads.len() > 0 {
        let init = payloads.drop_last();
        lemma_stream_moves_forward(init, last);
        let before = stream_ts(init, last);
        let here = last_of(before, last);
        match read_red(payloads.last().0, payloads.last().1) {
            None => {},
            Some(frames) => {
                lemma_play_moves_forward(frames, here);
                let new = play_ts(frames, here);
                let all = before + new;
                assert forall|i: int| 0 <= i < all.len() implies newer(
                    #[trigger] all[i],
                    if i == 0 {
                        last
                    } else {
                        all[i - 1]
                    },
                ) by {
                    if i < before.len() {
                        assert(all[i] == before[i]);
                    } else {
                        assert(all[i] == new[i - before.len()]);
                    }
                }
                if new.len() > 0 {
                    assert(all.last() == new.last());
                } else {
                    assert(all =~= before);
                }
            },
        }
    }
}

proof fn lemma_not_ahead(ts: i64, offset: nat)
    requires
        offset <= RED_MAX_OFFSET,
    ensures
        !newer(ts_back(ts, offset), ts),
{
    let k = wraps(ts, offset);
    lemma_circle(0 - offset, k);
    assert(ts_back(ts, offset) - ts == (0 - offset) + k * 0x1_0000_0000_0000_0000);
    lemma_mod_multiples_vanish(-1, 0x1_0000_0000 - offset, 0x1_0000_0000);
    if offset > 0 {
        lemma_small_mod((0x1_0000_0000 - offset) as nat, 0x1_0000_0000);
    }
}

proof fn lemma_headers_bounded(payload: Seq<u8>, room: nat)
    ensures
        read_headers(payload, room) matches Some(r) ==> forall|i: int|
            0 <= i < r.0.len() ==> (#[trigger] r.0[i]).0 <= RED_MAX_OFFSET,
    decreases payload.len(),
{
    if payload.len() >= 4 && payload[0] >= RED_MORE && room > 0 {
        let s = payload.subrange(1, 4);
        lemma_headers_bounded(payload.skip(4), (room - 1) as nat);
        assert(from_be(s) < 0x100_0000) by {
            reveal_with_fuel(from_be, 4);
            assert(s.drop_last().drop_last().len() == 1);
        }
    }
}

proof fn lemma_old_frames_silent(
    headers: Seq<(nat, nat)>,
    data: Seq<u8>,
    ts: i64,
)
    requires
        forall|i: int| 0 <= i < headers.len() ==> (#[trigger] headers[i]).0 <= RED_MAX_OFFSET,
    ensures
        read_blocks(headers, data, ts) matches Some(frames) ==> frames.len() > 0 && forall|i: int|
            0 <= i < frames.len() ==> !newer((#[trigger] frames[i]).0, ts),
    decreases headers.len(),
{
    if headers.len() > 0 && data.len() >= headers[0].1 {
        let rest = headers.skip(1);
        assert(forall|i: int| 0 <= i < rest.len() ==> rest[i] == #[trigger] headers[i + 1]);
        lemma_old_frames_silent(rest, data.skip(headers[0].1 as int), ts);
        lemma_not_ahead(ts, headers[0].0);
    }
}

proof fn lemma_play_nothing(frames: Seq<(i64, Seq<u8>)>, last: i64)
    requires
        forall|i: int| 0 <= i < frames.len() ==> !newer((#[trigger] frames[i]).0, last),
    ensures
        play(frames, last) == (Seq::<Seq<u8>>::empty(), last),
    decreases frames.len(),
{
    if frames.len() > 0 {
        let init = frames.drop_last();
        assert(forall|i: int| 0 <= i < init.len() ==> init[i] == #[trigger] frames[i]);
        lemma_play_nothing(init, last);
        assert(frames.last() == frames[frames.len() - 1]);
    }
}

/// No frame is decoded twice: a payload whose primary was the last frame played, whatever it
/// holds, leads to nothing and leaves the timestamp alone.
pub proof fn lemma_replay_is_silent(payload: Seq<u8>, ts: i64)
    ensures
        receive(Some(ts), payload, ts) == (Seq::<Seq<u8>>::empty(), Some(ts)),
{
    lemma_headers_bounded(payload, RED_MAX_DISTANCE as nat);
    match read_headers(payload, RED_MAX_DISTANCE as nat) {
        None => {},
        Some(r) => {
            lemma_old_frames_silent(r.0, r.1, ts);
            match read_blocks(r.0, r.1, ts) {
                None => {},
                Some(frames) => {
                    lemma_play_nothing(frames, ts);
                },
            }
        },
    }
}

} // verus!
