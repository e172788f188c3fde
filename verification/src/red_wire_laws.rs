//! What the redundant framing puts on the wire, and what a receiver makes of any bytes.
//!
//! The figures are those of RFC 2198: an offset of 14 bits in samples, a length of 10 bits in
//! bytes, and a header of four bytes per block.

use vstd::arithmetic::div_mod::{lemma_mod_multiples_vanish, lemma_small_mod};
use vstd::prelude::*;

use crate::red::{
    block_headers, block_payloads, blocks_of, frames_of, newer, newest, play, ranges_inside,
    read_blocks, read_headers, read_red, receive, slices, ts_back, ws_body, ws_prefix,
    RED_MAX_DISTANCE, RED_MAX_LEN, RED_MAX_OFFSET, RED_PREFIX_MAX,
};
use crate::red_laws::{lacking, lemma_loss_recovery, rising};
use crate::wire::{be_bytes, from_be, lemma_be_round_trip, pow256};
use crate::wire_laws::lemma_fields_add_up;

verus! {

/// How many samples a frame lies behind the primary.
pub open spec fn behind(primary_pts: u64, frame: (Seq<u8>, u64)) -> int {
    if frame.1 >= primary_pts {
        0
    } else {
        primary_pts - frame.1
    }
}

/// The frames that a block can carry: up to 16383 samples behind the primary, up to 1023 bytes
/// long.
pub open spec fn close_to(primary_pts: u64) -> spec_fn((Seq<u8>, u64)) -> bool {
    |f: (Seq<u8>, u64)| behind(primary_pts, f) <= 16383 && f.0.len() <= 1023
}

/// A frame as a block holds it: the packet, and how far behind the primary it lies.
pub open spec fn as_block(primary_pts: u64) -> spec_fn((Seq<u8>, u64)) -> (Seq<u8>, nat) {
    |f: (Seq<u8>, u64)| (f.0, behind(primary_pts, f) as nat)
}

/// The field widths of the format, and what follows from them: four blocks of at most 1023
/// bytes, with their headers, the primary's header and six bytes in front, are the longest
/// prefix.
pub proof fn lemma_field_widths()
    ensures
        RED_MAX_OFFSET + 1 == 128 * 128,
        RED_MAX_LEN + 1 == 32 * 32,
        RED_MAX_DISTANCE == 4,
        RED_PREFIX_MAX == 6 + 4 * 4 + 1 + 4 * 1023,
{
}

/// The window of a history is its last `distance` frames, or all of them where there are
/// fewer.
pub proof fn lemma_newest<T>(frames: Seq<T>, distance: nat)
    ensures
        newest(frames, distance).len() == if frames.len() < distance {
            frames.len()
        } else {
            distance
        },
        forall|i: int|
            0 <= i < newest(frames, distance).len() ==> #[trigger] newest(frames, distance)[i]
                == frames[frames.len() - newest(frames, distance).len() + i],
{
}

/// The blocks are the frames that are close enough and short enough, all of them and no
/// others, in order, each with its distance from the primary.
pub proof fn lemma_blocks_are_the_close_frames(primary_pts: u64, frames: Seq<(Seq<u8>, u64)>)
    ensures
        blocks_of(primary_pts, frames) == frames.filter(close_to(primary_pts)).map_values(
            as_block(primary_pts),
        ),
    decreases frames.len(),
{
    reveal(Seq::filter);
    if frames.len() > 0 {
        lemma_blocks_are_the_close_frames(primary_pts, frames.drop_last());
    }
    assert(blocks_of(primary_pts, frames) =~= frames.filter(close_to(primary_pts)).map_values(
        as_block(primary_pts),
    ));
}

/// Where every frame is within 16383 samples and 1023 bytes, every one has its block.
pub proof fn lemma_close_frames_all_carried(primary_pts: u64, frames: Seq<(Seq<u8>, u64)>)
    requires
        forall|i: int|
            0 <= i < frames.len() ==> (#[trigger] frames[i]).1 + 16383 >= primary_pts
                && frames[i].0.len() <= 1023,
    ensures
        blocks_of(primary_pts, frames).len() == frames.len(),
        forall|i: int|
            0 <= i < frames.len() ==> (#[trigger] blocks_of(primary_pts, frames)[i]).0
                == frames[i].0 && blocks_of(primary_pts, frames)[i].1 == behind(
                primary_pts,
                frames[i],
            ),
    decreases frames.len(),
{
    if frames.len() > 0 {
        let init = frames.drop_last();
        assert(forall|i: int| 0 <= i < init.len() ==> init[i] == #[trigger] frames[i]);
        lemma_close_frames_all_carried(primary_pts, init);
        assert(frames.last() == frames[frames.len() - 1]);
    }
}

/// The bytes that the first `k` packets take.
pub open spec fn span(frames: Seq<(Seq<u8>, u64)>, k: int) -> int
    decreases k,
{
    if k <= 0 {
        0
    } else {
        span(frames, k - 1) + frames[k - 1].0.len()
    }
}

proof fn lemma_span_prefix(frames: Seq<(Seq<u8>, u64)>, k: int)
    requires
        0 <= k <= frames.len() - 1,
    ensures
        span(frames.drop_last(), k) == span(frames, k),
    decreases k,
{
    if k > 0 {
        lemma_span_prefix(frames, k - 1);
    }
}

/// What three bytes count up to, the highest first.
pub open spec fn number3(s: Seq<u8>, at: int) -> int {
    65536 * s[at] + 256 * s[at + 1] + s[at + 2]
}

proof fn lemma_number3(word: nat)
    requires
        word < 0x100_0000,
    ensures
        be_bytes(word, 3).len() == 3,
        number3(be_bytes(word, 3), 0) == word,
{
    assert(pow256(3) == 0x100_0000) by {
        reveal_with_fuel(pow256, 4);
    }
    lemma_be_round_trip(word, 3);
    lemma_fields_add_up(be_bytes(word, 3));
}

proof fn lemma_headers_layout(primary_pts: u64, frames: Seq<(Seq<u8>, u64)>)
    requires
        forall|i: int| 0 <= i < frames.len() ==> close_to(primary_pts)(#[trigger] frames[i]),
    ensures
        ({
            let h = block_headers(frames.map_values(as_block(primary_pts)));
            &&& h.len() == 4 * frames.len()
            &&& forall|k: int|
                0 <= k < frames.len() ==> #[trigger] h[4 * k] == 128 && number3(h, 4 * k + 1)
                    == 1024 * behind(primary_pts, frames[k]) + frames[k].0.len()
        }),
    decreases frames.len(),
{
    let blocks = frames.map_values(as_block(primary_pts));
    let h = block_headers(blocks);
    if frames.len() > 0 {
        let init = frames.drop_last();
        let n = init.len() as int;
        assert(forall|i: int| 0 <= i < init.len() ==> init[i] == #[trigger] frames[i]);
        lemma_headers_layout(primary_pts, init);
        assert(blocks.drop_last() =~= init.map_values(as_block(primary_pts)));
        let before = block_headers(blocks.drop_last());
        assert(close_to(primary_pts)(frames[n]));
        let word = (1024 * behind(primary_pts, frames[n]) + frames[n].0.len()) as nat;
        lemma_number3(word);
        assert(h =~= before + (seq![128u8] + be_bytes(word, 3)));
        assert forall|k: int| 0 <= k < frames.len() implies #[trigger] h[4 * k] == 128 && number3(
            h,
            4 * k + 1,
        ) == 1024 * behind(primary_pts, frames[k]) + frames[k].0.len() by {
            if k < n {
                assert(before[4 * k] == 128);
                assert(h[4 * k] == before[4 * k]);
                assert(number3(h, 4 * k + 1) == number3(before, 4 * k + 1));
            } else {
                assert(number3(h, 4 * k + 1) == number3(be_bytes(word, 3), 0));
            }
        }
    }
}

proof fn lemma_payloads_layout(primary_pts: u64, frames: Seq<(Seq<u8>, u64)>)
    ensures
        ({
            let p = block_payloads(frames.map_values(as_block(primary_pts)));
            &&& p.len() == span(frames, frames.len() as int)
            &&& forall|k: int|
                0 <= k < frames.len() ==> 0 <= #[trigger] span(frames, k) && span(frames, k)
                    + frames[k].0.len() <= p.len() && p.subrange(
                    span(frames, k),
                    span(frames, k) + frames[k].0.len(),
                ) == frames[k].0
        }),
    decreases frames.len(),
{
    let blocks = frames.map_values(as_block(primary_pts));
    let p = block_payloads(blocks);
    if frames.len() > 0 {
        let init = frames.drop_last();
        let n = init.len() as int;
        lemma_payloads_layout(primary_pts, init);
        assert(blocks.drop_last() =~= init.map_values(as_block(primary_pts)));
        let before = block_payloads(blocks.drop_last());
        assert(p == before + frames[n].0);
        lemma_span_prefix(frames, n);
        assert forall|k: int| 0 <= k < frames.len() implies 0 <= #[trigger] span(frames, k) && span(
            frames,
            k,
        ) + frames[k].0.len() <= p.len() && p.subrange(
            span(frames, k),
            span(frames, k) + frames[k].0.len(),
        ) == frames[k].0 by {
            lemma_span_prefix(frames, k);
            if k < n {
                let (a, b) = (span(init, k), span(init, k) + init[k].0.len());
                assert(p.subrange(a, b) =~= before.subrange(a, b));
            } else {
                assert(p.subrange(span(frames, k), span(frames, k) + frames[k].0.len())
                    =~= frames[k].0);
            }
        }
    }
}

/// A wire frame, byte by byte, for the frames `held` that its blocks carry: the newest
/// `distance` of the history, less those too far back or too long.
///
/// Without any, `[1, 0]` and the packet. Otherwise a one, their number in one byte, the low
/// 32 bits of the timestamp, four bytes per block (128, then the offset over the length), a
/// zero, the packets of the blocks one after the other, and the packet itself.
pub proof fn lemma_wire_layout(
    primary: Seq<u8>,
    primary_pts: u64,
    frames: Seq<(Seq<u8>, u64)>,
    distance: nat,
)
    ensures
        ({
            let body = ws_body(primary, primary_pts, frames, distance, true);
            let held = newest(frames, distance).filter(close_to(primary_pts));
            let n = held.len() as int;
            let data = 7 + 4 * n;
            &&& n <= distance
            &&& n == 0 ==> body == seq![1u8, 0u8] + primary
            &&& n > 0 ==> {
                &&& body.len() == data + span(held, n) + primary.len()
                &&& body[0] == 1
                &&& body[1] == n % 256
                &&& 256 * number3(body, 2) + body[5] == primary_pts % 0x1_0000_0000
                &&& forall|k: int| 0 <= k < n ==> #[trigger] body[6 + 4 * k] == 128
                &&& forall|k: int|
                    0 <= k < n ==> #[trigger] number3(body, 7 + 4 * k) == 1024 * behind(
                        primary_pts,
                        held[k],
                    ) + held[k].0.len()
                &&& body[6 + 4 * n] == 0
                &&& forall|k: int|
                    0 <= k < n ==> body.subrange(
                        data + #[trigger] span(held, k),
                        data + span(held, k) + held[k].0.len(),
                    ) == held[k].0
                &&& body.skip(data + span(held, n)) == primary
            }
        }),
{
    let body = ws_body(primary, primary_pts, frames, distance, true);
    let window = newest(frames, distance);
    let held = window.filter(close_to(primary_pts));
    let n = held.len() as int;
    let data = 7 + 4 * n;
    let blocks = held.map_values(as_block(primary_pts));
    lemma_blocks_are_the_close_frames(primary_pts, window);
    window.lemma_filter_len(close_to(primary_pts));
    assert forall|i: int| 0 <= i < held.len() implies close_to(primary_pts)(#[trigger] held[i]) by {
        window.lemma_filter_pred(close_to(primary_pts), i);
    }
    lemma_headers_layout(primary_pts, held);
    lemma_payloads_layout(primary_pts, held);
    if n > 0 {
        let h = block_headers(blocks);
        let p = block_payloads(blocks);
        let low = primary_pts as nat % 0x1_0000_0000;
        let stamp = be_bytes(low, 4);
        assert(pow256(4) == 0x1_0000_0000) by {
            reveal_with_fuel(pow256, 5);
        }
        lemma_be_round_trip(low, 4);
        lemma_fields_add_up(stamp);
        assert(body =~= seq![1u8, (n % 256) as u8] + stamp + h + seq![0u8] + p + primary);
        assert(body[2] == stamp[0] && body[3] == stamp[1] && body[4] == stamp[2] && body[5]
            == stamp[3]);
        assert forall|k: int| 0 <= k < n implies #[trigger] body[6 + 4 * k] == 128 by {
            assert(body[6 + 4 * k] == h[4 * k]);
        }
        assert forall|k: int| 0 <= k < n implies #[trigger] number3(body, 7 + 4 * k) == 1024
            * behind(primary_pts, held[k]) + held[k].0.len() by {
            assert(h[4 * k] == 128);
            assert(number3(body, 7 + 4 * k) == number3(h, 4 * k + 1));
        }
        assert forall|k: int| 0 <= k < n implies body.subrange(
            data + #[trigger] span(held, k),
            data + span(held, k) + held[k].0.len(),
        ) == held[k].0 by {
            let (a, b) = (span(held, k), span(held, k) + held[k].0.len());
            assert(body.subrange(data + a, data + b) =~= p.subrange(a, b));
        }
        assert(body.skip(data + span(held, n)) =~= primary);
    } else {
        assert(blocks =~= Seq::<(Seq<u8>, nat)>::empty());
    }
}

/// A wire frame is its prefix and then the packet; with the header omitted the prefix is
/// empty.
pub proof fn lemma_prefix_then_packet(
    primary: Seq<u8>,
    primary_pts: u64,
    frames: Seq<(Seq<u8>, u64)>,
    distance: nat,
    emit_header: bool,
)
    ensures
        ws_body(primary, primary_pts, frames, distance, emit_header) == ws_prefix(
            primary_pts,
            frames,
            distance,
            emit_header,
        ) + primary,
        ws_prefix(primary_pts, frames, distance, false).len() == 0,
        ws_body(Seq::empty(), primary_pts, frames, distance, emit_header) == ws_prefix(
            primary_pts,
            frames,
            distance,
            emit_header,
        ),
{
    let p = ws_prefix(primary_pts, frames, distance, emit_header);
    assert(p + Seq::<u8>::empty() =~= p);
}

proof fn lemma_lacking_tail(primary_pts: u64, frames: Seq<(Seq<u8>, u64)>, played: int, lost: nat)
    requires
        lost <= frames.len(),
        forall|i: int|
            0 <= i < frames.len() - lost ==> (#[trigger] frames[i]).1 <= played,
        forall|i: int|
            frames.len() - lost <= i < frames.len() ==> {
                &&& (#[trigger] frames[i]).1 > played
                &&& frames[i].1 + 16383 >= primary_pts
                &&& frames[i].0.len() <= 1023
            },
    ensures
        lacking(primary_pts, frames, played) == Seq::new(
            lost,
            |i: int| frames[frames.len() - lost + i].0,
        ),
    decreases frames.len(),
{
    if frames.len() > 0 {
        let init = frames.drop_last();
        assert(forall|i: int| 0 <= i < init.len() ==> init[i] == #[trigger] frames[i]);
        assert(frames.last() == frames[frames.len() - 1]);
        lemma_lacking_tail(primary_pts, init, played, if lost == 0 {
            0
        } else {
            (lost - 1) as nat
        });
    }
    assert(lacking(primary_pts, frames, played) =~= Seq::new(
        lost,
        |i: int| frames[frames.len() - lost + i].0,
    ));
}

/// What a run of frames up to a primary satisfies: none is empty, and timestamps rise.
pub open spec fn in_time(primary_pts: u64, frames: Seq<(Seq<u8>, u64)>) -> bool {
    &&& forall|i: int|
        0 <= i < frames.len() ==> (#[trigger] frames[i]).0.len() > 0 && frames[i].1 < primary_pts
    &&& forall|i: int, j: int|
        0 <= i < j < frames.len() ==> (#[trigger] frames[i]).1 < (#[trigger] frames[j]).1
}

proof fn lemma_window_in_time(primary_pts: u64, frames: Seq<(Seq<u8>, u64)>, distance: nat)
    requires
        in_time(primary_pts, frames),
    ensures
        rising(primary_pts, newest(frames, distance)),
{
    let window = newest(frames, distance);
    lemma_newest(frames, distance);
    let skipped = frames.len() - window.len();
    assert forall|i: int| 0 <= i < window.len() implies (#[trigger] window[i]).0.len() > 0
        && window[i].1 < primary_pts by {
        assert(window[i] == frames[skipped + i]);
    }
    assert forall|i: int, j: int| 0 <= i < j < window.len() implies (#[trigger] window[i]).1 < (
    #[trigger] window[j]).1 by {
        assert(window[i] == frames[skipped + i] && window[j] == frames[skipped + j]);
    }
}

proof fn lemma_window_lacks(
    primary_pts: u64,
    frames: Seq<(Seq<u8>, u64)>,
    distance: nat,
    lost: nat,
    played: int,
)
    requires
        0 < lost <= distance,
        lost <= frames.len(),
        in_time(primary_pts, frames),
        frames.len() > lost ==> frames[frames.len() - lost - 1].1 <= played,
        played < frames[frames.len() - lost].1,
        frames[frames.len() - lost].1 + 16383 >= primary_pts,
        forall|i: int|
            frames.len() - lost <= i < frames.len() ==> (#[trigger] frames[i]).0.len() <= 1023,
    ensures
        lacking(primary_pts, newest(frames, distance), played) == Seq::new(
            lost,
            |i: int| frames[frames.len() - lost + i].0,
        ),
        blocks_of(primary_pts, newest(frames, distance)).len() > 0,
{
    let window = newest(frames, distance);
    lemma_newest(frames, distance);
    let skipped = frames.len() - window.len();
    let edge = frames.len() - lost;
    assert forall|i: int| 0 <= i < window.len() - lost implies (#[trigger] window[i]).1
        <= played by {
        assert(window[i] == frames[skipped + i]);
        if skipped + i < edge - 1 {
            assert(frames[skipped + i].1 < frames[edge - 1].1);
        }
    }
    assert forall|i: int| window.len() - lost <= i < window.len() implies {
        &&& (#[trigger] window[i]).1 > played
        &&& window[i].1 + 16383 >= primary_pts
        &&& window[i].0.len() <= 1023
    } by {
        assert(window[i] == frames[skipped + i]);
        if skipped + i > edge {
            assert(frames[edge].1 < frames[skipped + i].1);
        }
        assert(frames[skipped + i].0.len() <= 1023);
    }
    lemma_lacking_tail(primary_pts, window, played, lost);
    assert(lacking(primary_pts, window, played) =~= Seq::new(
        lost,
        |i: int| frames[frames.len() - lost + i].0,
    ));
    assert(window.last() == window[window.len() - 1]);
}

proof fn lemma_stamp_on_wire(
    primary: Seq<u8>,
    primary_pts: u64,
    frames: Seq<(Seq<u8>, u64)>,
    distance: nat,
    ts: i64,
)
    requires
        blocks_of(primary_pts, newest(frames, distance)).len() > 0,
        (ts - primary_pts) % 0x1_0000_0000 == 0,
    ensures
        ({
            let body = ws_body(primary, primary_pts, frames, distance, true);
            (ts - (256 * number3(body, 2) + body[5])) % 0x1_0000_0000 == 0
        }),
{
    lemma_wire_layout(primary, primary_pts, frames, distance);
    lemma_blocks_are_the_close_frames(primary_pts, newest(frames, distance));
    let low = primary_pts as int % 0x1_0000_0000;
    let q = primary_pts as int / 0x1_0000_0000;
    assert(ts - low == (ts - primary_pts) + q * 0x1_0000_0000);
    lemma_mod_multiples_vanish(q, ts - primary_pts, 0x1_0000_0000);
}

/// No gap of up to `distance` packets is heard. A client that played up to the time `played`
/// and then lost `lost` packets, none of them more than 16383 samples old or longer than 1023
/// bytes, decodes out of the next wire frame exactly those, in order, and then the packet
/// itself, and has then played up to it.
///
/// The client goes by the timestamp `ts` that the four bytes in the frame add up to, or by any
/// other that agrees with it in the low 32 bits.
pub proof fn lemma_lost_packets_recovered(
    primary: Seq<u8>,
    primary_pts: u64,
    frames: Seq<(Seq<u8>, u64)>,
    distance: nat,
    lost: nat,
    played: int,
    last: i64,
    ts: i64,
)
    requires
        0 < lost <= distance <= 4,
        lost <= frames.len(),
        primary.len() > 0,
        in_time(primary_pts, frames),
        frames.len() > lost ==> frames[frames.len() - lost - 1].1 <= played,
        played < frames[frames.len() - lost].1,
        primary_pts - played < 0x8000_0000,
        (last - played) % 0x1_0000_0000 == 0,
        frames[frames.len() - lost].1 + 16383 >= primary_pts,
        forall|i: int|
            frames.len() - lost <= i < frames.len() ==> (#[trigger] frames[i]).0.len() <= 1023,
        (ts - primary_pts) % 0x1_0000_0000 == 0,
    ensures
        ({
            let body = ws_body(primary, primary_pts, frames, distance, true);
            let got = receive(Some(last), body.skip(6), ts);
            &&& got.0.len() == lost + 1
            &&& forall|i: int|
                0 <= i < lost ==> #[trigger] got.0[i] == frames[frames.len() - lost + i].0
            &&& got.0[lost as int] == primary
            &&& got.1 == Some(ts)
            &&& (ts - (256 * number3(body, 2) + body[5])) % 0x1_0000_0000 == 0
        }),
{
    lemma_window_in_time(primary_pts, frames, distance);
    lemma_window_lacks(primary_pts, frames, distance, lost, played);
    assert(frames[frames.len() - lost].1 < primary_pts);
    lemma_loss_recovery(primary, primary_pts, frames, distance, ts, played, last);
    lemma_stamp_on_wire(primary, primary_pts, frames, distance, ts);
}

/// The offset in the `k`-th header of a payload: 14 bits.
pub open spec fn offset_field(payload: Seq<u8>, k: int) -> int {
    64 * payload[4 * k + 1] + payload[4 * k + 2] as int / 4
}

/// The length in the `k`-th header of a payload: 10 bits.
pub open spec fn length_field(payload: Seq<u8>, k: int) -> int {
    256 * (payload[4 * k + 2] as int % 4) + payload[4 * k + 3]
}

/// A payload begins with `n` block headers: the top bit is set in the first byte of each, and
/// clear in the byte behind them. The other seven bits of those bytes do not matter.
pub open spec fn headed(payload: Seq<u8>, n: int) -> bool {
    &&& 0 <= n
    &&& 4 * n < payload.len()
    &&& forall|k: int| 0 <= k < n ==> #[trigger] payload[4 * k] >= 128
    &&& payload[4 * n] < 128
}

/// Where block `k` begins behind `n` headers; `k == n` is the primary.
pub open spec fn block_start(payload: Seq<u8>, n: int, k: int) -> int
    decreases k,
{
    if k <= 0 {
        4 * n + 1
    } else {
        block_start(payload, n, k - 1) + length_field(payload, k - 1)
    }
}

/// The `k`-th block behind `n` headers, with its timestamp.
pub open spec fn block_at(payload: Seq<u8>, n: int, k: int, ts: i64) -> (i64, Seq<u8>) {
    (
        ts_back(ts, offset_field(payload, k) as nat),
        payload.subrange(block_start(payload, n, k), block_start(payload, n, k + 1)),
    )
}

/// The blocks that hold anything.
pub open spec fn not_empty() -> spec_fn((i64, Seq<u8>)) -> bool {
    |f: (i64, Seq<u8>)| f.1.len() > 0
}

spec fn fields(payload: Seq<u8>, n: int) -> Seq<(nat, nat)> {
    Seq::new(
        n as nat,
        |k: int| (offset_field(payload, k) as nat, length_field(payload, k) as nat),
    )
}

proof fn lemma_headers_of(payload: Seq<u8>, n: int, room: nat)
    requires
        headed(payload, n),
    ensures
        n <= room ==> read_headers(payload, room) == Some(
            (fields(payload, n), payload.skip(4 * n + 1)),
        ),
        n > room ==> read_headers(payload, room) is None,
    decreases n,
{
    if n == 0 {
        assert(fields(payload, n) =~= Seq::empty());
    } else {
        assert(payload[4 * 0int] >= 128);
        let rest = payload.skip(4);
        if room > 0 {
            assert forall|k: int| 0 <= k < n - 1 implies #[trigger] rest[4 * k] >= 128 by {
                assert(payload[4 * (k + 1)] >= 128);
            }
            lemma_headers_of(rest, n - 1, (room - 1) as nat);
            let s = payload.subrange(1, 4);
            lemma_fields_add_up(s);
            assert(from_be(s) == 65536 * payload[1] + 256 * payload[2] + payload[3]);
            assert(fields(payload, n) =~= seq![(from_be(s) / 1024, from_be(s) % 1024)] + fields(
                rest,
                n - 1,
            ));
            assert(rest.skip(4 * (n - 1) + 1) =~= payload.skip(4 * n + 1));
        }
    }
}

proof fn lemma_headers_missing(payload: Seq<u8>, room: nat)
    requires
        forall|n: int| 0 <= n <= room ==> !(#[trigger] headed(payload, n)),
    ensures
        read_headers(payload, room) is None,
    decreases payload.len(),
{
    assert(!headed(payload, 0));
    if payload.len() >= 4 && payload[0] >= 128 && room > 0 {
        let rest = payload.skip(4);
        assert forall|n: int| 0 <= n <= room - 1 implies !(#[trigger] headed(rest, n)) by {
            if headed(rest, n) {
                assert forall|k: int| 0 <= k < n + 1 implies #[trigger] payload[4 * k] >= 128 by {
                    if k > 0 {
                        assert(rest[4 * (k - 1)] >= 128);
                    }
                }
                assert(headed(payload, n + 1));
            }
        }
        lemma_headers_missing(rest, (room - 1) as nat);
    }
}

spec fn total(headers: Seq<(nat, nat)>, k: int) -> int
    decreases k,
{
    if k <= 0 {
        0
    } else {
        total(headers, k - 1) + headers[k - 1].1
    }
}

spec fn found(headers: Seq<(nat, nat)>, data: Seq<u8>, ts: i64) -> Seq<(i64, Seq<u8>)> {
    Seq::new(
        headers.len(),
        |k: int|
            (
                ts_back(ts, headers[k].0),
                data.subrange(total(headers, k), total(headers, k + 1)),
            ),
    )
}

proof fn lemma_total_front(headers: Seq<(nat, nat)>, k: int)
    requires
        0 <= k < headers.len(),
    ensures
        total(headers, k + 1) == headers[0].1 + total(headers.skip(1), k),
        0 <= total(headers.skip(1), k),
    decreases k,
{
    if k > 0 {
        lemma_total_front(headers, k - 1);
        assert(headers.skip(1)[k - 1] == headers[k]);
    } else {
        assert(total(headers, 0) == 0);
    }
}

proof fn lemma_total_grows(headers: Seq<(nat, nat)>, k: int, n: int)
    requires
        0 <= k <= n <= headers.len(),
    ensures
        0 <= total(headers, k) <= total(headers, n),
    decreases n,
{
    if k < n {
        lemma_total_grows(headers, k, n - 1);
    } else if n > 0 {
        lemma_total_grows(headers, n - 1, n - 1);
    }
}

proof fn lemma_filter_front<A>(a: A, rest: Seq<A>, pred: spec_fn(A) -> bool)
    ensures
        (seq![a] + rest).filter(pred) == if pred(a) {
            seq![a] + rest.filter(pred)
        } else {
            rest.filter(pred)
        },
    decreases rest.len(),
{
    reveal(Seq::filter);
    let all = seq![a] + rest;
    if rest.len() == 0 {
        assert(all.drop_last() =~= Seq::<A>::empty());
        assert(all.last() == a);
        assert(all.drop_last().filter(pred) =~= Seq::<A>::empty());
    } else {
        lemma_filter_front(a, rest.drop_last(), pred);
        assert(all.drop_last() =~= seq![a] + rest.drop_last());
        assert(all.last() == rest.last());
    }
    assert(all.filter(pred) =~= if pred(a) {
        seq![a] + rest.filter(pred)
    } else {
        rest.filter(pred)
    });
}

proof fn lemma_blocks_found(headers: Seq<(nat, nat)>, data: Seq<u8>, ts: i64)
    ensures
        total(headers, headers.len() as int) <= data.len() ==> read_blocks(headers, data, ts)
            == Some(
            found(headers, data, ts).filter(not_empty()).push(
                (ts, data.skip(total(headers, headers.len() as int))),
            ),
        ),
        total(headers, headers.len() as int) > data.len() ==> read_blocks(headers, data, ts)
            is None,
    decreases headers.len(),
{
    let n = headers.len() as int;
    if n == 0 {
        reveal(Seq::filter);
        assert(data.skip(0) =~= data);
        assert(found(headers, data, ts).filter(not_empty()) =~= Seq::<(i64, Seq<u8>)>::empty());
        assert(seq![(ts, data)] =~= Seq::<(i64, Seq<u8>)>::empty().push((ts, data)));
    } else {
        let rest = headers.skip(1);
        let len = headers[0].1 as int;
        lemma_total_front(headers, n - 1);
        if len <= data.len() {
            let after = data.skip(len);
            lemma_blocks_found(rest, after, ts);
            if total(headers, n) <= data.len() {
                let first = (ts_back(ts, headers[0].0), data.take(len));
                let all = found(headers, data, ts);
                let others = found(rest, after, ts);
                assert forall|k: int| 0 <= k < n implies all[k] == (seq![first] + others)[k] by {
                    lemma_total_grows(headers, k + 1, n);
                    lemma_total_grows(headers, k, k + 1);
                    lemma_total_front(headers, k);
                    if k > 0 {
                        lemma_total_front(headers, k - 1);
                        assert(all[k].1 =~= others[k - 1].1);
                    } else {
                        assert(total(headers, 0) == 0);
                        assert(all[k].1 =~= data.take(len));
                    }
                }
                assert(all =~= seq![first] + others);
                lemma_filter_front(first, others, not_empty());
                assert(after.skip(total(rest, n - 1)) =~= data.skip(total(headers, n)));
                let last = (ts, data.skip(total(headers, n)));
                let kept = others.filter(not_empty());
                assert((seq![first] + kept).push(last) =~= seq![first] + kept.push(last));
            }
        }
    }
}

proof fn lemma_starts(payload: Seq<u8>, n: int, k: int)
    requires
        0 <= k <= n,
    ensures
        block_start(payload, n, k) == 4 * n + 1 + total(fields(payload, n), k),
    decreases k,
{
    if k > 0 {
        lemma_starts(payload, n, k - 1);
        assert(fields(payload, n)[k - 1].1 == length_field(payload, k - 1));
    }
}

/// What a receiver reads in any payload that begins with `n` headers: with up to four of them
/// and room for every block, the blocks that hold anything, in order, and then the primary,
/// which is the rest; otherwise nothing.
pub proof fn lemma_red_payload_read(payload: Seq<u8>, n: int, ts: i64)
    requires
        headed(payload, n),
    ensures
        n <= 4 && block_start(payload, n, n) <= payload.len() ==> read_red(payload, ts) == Some(
            Seq::new(n as nat, |k: int| block_at(payload, n, k, ts)).filter(not_empty()).push(
                (ts, payload.skip(block_start(payload, n, n))),
            ),
        ),
        n > 4 || block_start(payload, n, n) > payload.len() ==> read_red(payload, ts) is None,
{
    lemma_headers_of(payload, n, 4);
    if n <= 4 {
        let h = fields(payload, n);
        let data = payload.skip(4 * n + 1);
        lemma_blocks_found(h, data, ts);
        lemma_starts(payload, n, n);
        if block_start(payload, n, n) <= payload.len() {
            let blocks = Seq::new(n as nat, |k: int| block_at(payload, n, k, ts));
            assert forall|k: int| 0 <= k < n implies found(h, data, ts)[k] == blocks[k] by {
                lemma_starts(payload, n, k);
                lemma_starts(payload, n, k + 1);
                lemma_total_grows(h, k + 1, n);
                lemma_total_grows(h, k, k + 1);
                assert(found(h, data, ts)[k].1 =~= blocks[k].1);
            }
            assert(found(h, data, ts) =~= blocks);
            lemma_total_grows(h, n, n);
            assert(data.skip(total(h, n)) =~= payload.skip(block_start(payload, n, n)));
        }
    }
}

/// A payload that does not begin with headers and the byte that ends them is not read.
pub proof fn lemma_headless_payload(payload: Seq<u8>, ts: i64)
    requires
        forall|n: int| 0 <= n <= 4 ==> !(#[trigger] headed(payload, n)),
    ensures
        read_red(payload, ts) is None,
{
    lemma_headers_missing(payload, 4);
}

/// Going back in time subtracts, on the circle of 64-bit timestamps.
pub proof fn lemma_back_in_time(ts: i64, offset: nat)
    requires
        offset <= 16383,
    ensures
        ts - offset >= i64::MIN ==> ts_back(ts, offset) == ts - offset,
        ts - offset < i64::MIN ==> ts_back(ts, offset) == ts - offset + 0x1_0000_0000_0000_0000,
{
}

/// A timestamp is newer when it lies ahead by more than nothing and less than half the circle
/// of 32 bits, however often the two went round it.
pub proof fn lemma_ahead_on_the_circle(ts: i64, last: i64, ahead: int, rounds: int)
    requires
        ts - last == ahead + rounds * 0x1_0000_0000,
        0 <= ahead < 0x1_0000_0000,
    ensures
        newer(ts, last) <==> 0 < ahead < 0x8000_0000,
{
    lemma_mod_multiples_vanish(rounds, ahead, 0x1_0000_0000);
    lemma_small_mod(ahead as nat, 0x1_0000_0000);
}

/// Playing one frame: it is decoded when it holds anything and lies ahead, and only then does
/// the timestamp move, to that of the frame.
pub proof fn lemma_play_one(frame: (i64, Seq<u8>), last: i64)
    ensures
        frame.1.len() > 0 && newer(frame.0, last) ==> play(seq![frame], last) == (
            seq![frame.1],
            frame.0,
        ),
        frame.1.len() == 0 || !newer(frame.0, last) ==> play(seq![frame], last) == (
            Seq::<Seq<u8>>::empty(),
            last,
        ),
        play(Seq::empty(), last) == (Seq::<Seq<u8>>::empty(), last),
{
    let f = seq![frame];
    assert(f.drop_last() =~= Seq::<(i64, Seq<u8>)>::empty());
    assert(play(f.drop_last(), last) == (Seq::<Seq<u8>>::empty(), last));
    assert(Seq::<Seq<u8>>::empty().push(frame.1) =~= seq![frame.1]);
}

/// Playing some frames and then others is playing them all.
pub proof fn lemma_play_in_parts(a: Seq<(i64, Seq<u8>)>, b: Seq<(i64, Seq<u8>)>, last: i64)
    ensures
        play(a + b, last).0 == play(a, last).0 + play(b, play(a, last).1).0,
        play(a + b, last).1 == play(b, play(a, last).1).1,
    decreases b.len(),
{
    let mid = play(a, last);
    if b.len() == 0 {
        assert(a + b =~= a);
        assert(mid.0 + play(b, mid.1).0 =~= mid.0);
    } else {
        lemma_play_in_parts(a, b.drop_last(), last);
        assert((a + b).drop_last() =~= a + b.drop_last());
        assert((a + b).last() == b.last());
        let part = play(b.drop_last(), mid.1).0;
        assert(mid.0 + part.push(b.last().1) =~= (mid.0 + part).push(b.last().1));
    }
}

/// What a payload leads to. One that cannot be read changes nothing. The first one that can is
/// played from its primary on, if that holds anything; later ones from where playback stands.
pub proof fn lemma_receive(last: Option<i64>, payload: Seq<u8>, ts: i64)
    ensures
        read_red(payload, ts) is None ==> receive(last, payload, ts).0.len() == 0 && receive(
            last,
            payload,
            ts,
        ).1 == last,
        read_red(payload, ts) matches Some(frames) ==> {
            &&& last is None ==> receive(last, payload, ts).1 == Some(ts)
            &&& last is None && frames.last().1.len() > 0 ==> receive(last, payload, ts).0 == seq![
                frames.last().1,
            ]
            &&& last is None && frames.last().1.len() == 0 ==> receive(last, payload, ts).0.len()
                == 0
            &&& last matches Some(l) ==> receive(last, payload, ts).0 == play(frames, l).0
                && receive(last, payload, ts).1 == Some(play(frames, l).1)
        },
{
}

/// A range `(start, length)` denotes the bytes of the payload from there on.
pub proof fn lemma_slices(payload: Seq<u8>, ranges: Seq<(usize, usize)>, i: int)
    requires
        0 <= i < ranges.len(),
    ensures
        slices(payload, ranges).len() == ranges.len(),
        ranges_inside(ranges, payload.len()) ==> {
            &&& ranges[i].0 + ranges[i].1 <= payload.len()
            &&& slices(payload, ranges)[i].len() == ranges[i].1
            &&& forall|k: int|
                0 <= k < ranges[i].1 ==> #[trigger] slices(payload, ranges)[i][k]
                    == payload[ranges[i].0 + k]
        },
{
}

/// A history is seen frame by frame, packet and timestamp alike.
pub proof fn lemma_history_seen(history: Seq<(Vec<u8>, u64)>, i: int)
    requires
        0 <= i < history.len(),
    ensures
        frames_of(history).len() == history.len(),
        frames_of(history)[i].0 == history[i].0@,
        frames_of(history)[i].1 == history[i].1,
{
}

} // verus!
