//! Where frame buffers and frames are, at every moment.

use vstd::prelude::*;

use crate::pool::{
    after_release, contents, restored, stash_left, stash_put, stash_taken, taker_left, taker_taken,
    AudioFrame, FrameView, MAX_POOLED,
};
use crate::ring::{
    lemma_ring_keeps_newest, ring_pushed, ring_pushed_all, took_frame, views_of, DeliveryRing,
    RING_CAPACITY,
};

verus! {

/// A buffer brought to size keeps what it holds, as far as it goes, and is zero behind it.
pub proof fn lemma_restored(buf: Seq<u8>, size: nat)
    ensures
        restored(buf, size).len() == size,
        forall|i: int|
            0 <= i < size && i < buf.len() ==> #[trigger] restored(buf, size)[i] == buf[i],
        forall|i: int| buf.len() <= i < size ==> #[trigger] restored(buf, size)[i] == 0,
        buf.len() >= size ==> restored(buf, size) == buf.take(size as int),
{
}

/// A buffer is kept on top of the others exactly where it has the allocation asked for and
/// fewer than sixteen are held; otherwise nothing changes.
pub proof fn lemma_kept(held: Seq<Seq<u8>>, buf: Seq<u8>, capacity: nat, size: nat)
    ensures
        capacity >= size && held.len() < 16 ==> {
            let after = stash_put(held, buf, capacity, size);
            after.len() == held.len() + 1 && after.last() == buf && after.drop_last() == held
        },
        capacity < size || held.len() >= 16 ==> stash_put(held, buf, capacity, size) == held,
        MAX_POOLED == 16,
{
    assert(held.push(buf).drop_last() =~= held);
}

/// What is taken is the buffer on top, brought to size, and those under it stay; without any,
/// it is all zero and made for the purpose.
pub proof fn lemma_taken(held: Seq<Seq<u8>>, size: nat)
    ensures
        stash_taken(held, size).len() == size,
        held.len() > 0 ==> {
            &&& stash_left(held).push(held.last()) == held
            &&& forall|i: int|
                0 <= i < size && i < held.last().len() ==> #[trigger] stash_taken(held, size)[i]
                    == held.last()[i]
            &&& forall|i: int|
                held.last().len() <= i < size ==> #[trigger] stash_taken(held, size)[i] == 0
        },
        held.len() == 0 ==> {
            &&& stash_left(held).len() == 0
            &&& forall|i: int| 0 <= i < size ==> #[trigger] stash_taken(held, size)[i] == 0
        },
{
    if held.len() > 0 {
        assert(held.drop_last().push(held.last()) =~= held);
    }
}

/// A taker uses its own stash first. With that empty it moves the whole pool over and takes
/// from there. Each take uses up one buffer of both together, where there is one, and none is
/// lost or mixed up.
pub proof fn lemma_taker(stash: Seq<Seq<u8>>, pooled: Seq<Seq<u8>>, size: nat)
    ensures
        ({
            let (stash_then, pooled_then) = taker_left(stash, pooled);
            let source = if stash.len() > 0 {
                stash
            } else {
                pooled
            };
            &&& taker_taken(stash, pooled, size).len() == size
            &&& source.len() > 0 ==> {
                &&& taker_taken(stash, pooled, size) == restored(source.last(), size)
                &&& stash_then.push(source.last()) == source
            }
            &&& source.len() == 0 ==> {
                &&& stash_then.len() == 0
                &&& forall|i: int|
                    0 <= i < size ==> #[trigger] taker_taken(stash, pooled, size)[i] == 0
            }
            &&& stash.len() > 0 ==> pooled_then == pooled
            &&& stash.len() == 0 ==> pooled_then.len() == 0
        }),
{
    lemma_taken(stash, size);
    lemma_taken(pooled, size);
}

/// A released frame gives back its whole buffer, not only what the frame covers, and only
/// where the buffer came from a pool.
pub proof fn lemma_released(held: Seq<Seq<u8>>, frame: FrameView, capacity: nat, size: nat)
    ensures
        !frame.recycles ==> after_release(held, frame, capacity, size) == held,
        frame.recycles && capacity >= size && held.len() < 16 ==> after_release(
            held,
            frame,
            capacity,
            size,
        ) == held.push(frame.buffer),
        frame.recycles && (capacity < size || held.len() >= 16) ==> after_release(
            held,
            frame,
            capacity,
            size,
        ) == held,
{
}

/// A frame is the beginning of its buffer.
pub proof fn lemma_frame_bytes(frame: FrameView)
    requires
        frame.len <= frame.buffer.len(),
    ensures
        frame.bytes().len() == frame.len,
        forall|i: int| 0 <= i < frame.len ==> #[trigger] frame.bytes()[i] == frame.buffer[i],
{
}

/// Buffers and frames are seen one for one.
pub proof fn lemma_seen(bufs: Seq<Vec<u8>>, frames: Seq<AudioFrame>)
    ensures
        contents(bufs).len() == bufs.len(),
        forall|i: int| 0 <= i < bufs.len() ==> #[trigger] contents(bufs)[i] == bufs[i]@,
        views_of(frames).len() == frames.len(),
        forall|i: int| 0 <= i < frames.len() ==> #[trigger] views_of(frames)[i] == frames[i]@,
{
}

/// A frame that comes in is the newest in the ring. Those before it stay as they are, but for
/// the oldest where there was no room.
pub proof fn lemma_ring_step(held: Seq<FrameView>, frame: FrameView, capacity: nat)
    ensures
        ({
            let after = ring_pushed(held, frame, capacity);
            &&& after.len() > 0 && after.last() == frame
            &&& held.len() < capacity || held.len() == 0 ==> after.drop_last() == held
            &&& held.len() >= capacity && held.len() > 0 ==> after.drop_last() == held.skip(1)
        }),
{
    assert(held.push(frame).drop_last() =~= held);
    if held.len() > 0 {
        assert(held.skip(1).push(frame).drop_last() =~= held.skip(1));
    }
}

/// Every frame is accounted for: it is held, or one was dropped and counted for it, or the
/// ring was closed. A ring counts a drop exactly where it is at its limit, also where that is
/// zero.
pub proof fn lemma_frame_taken(before: DeliveryRing, after: DeliveryRing, frame: FrameView)
    requires
        took_frame(before, after, frame),
    ensures
        after.limit() == before.limit(),
        before@ is None ==> after@ is None && after.lost() == before.lost(),
        before@ matches Some(held) ==> {
            &&& after@ is Some
            &&& after@->0.len() > 0 && after@->0.last() == frame
            &&& held.len() < before.limit() ==> after@->0 == held.push(frame) && after.lost()
                == before.lost()
            &&& held.len() >= before.limit() && before.lost() < u64::MAX ==> after.lost()
                == before.lost() + 1
            &&& held.len() >= before.limit() && before.lost() == u64::MAX ==> after.lost() == 0
            &&& held.len() >= before.limit() && held.len() > 0 ==> after@->0 == held.skip(1).push(
                frame,
            )
            &&& held.len() == 0 ==> after@->0 == seq![frame]
        },
        RING_CAPACITY == 8,
{
    lemma_ring_step(
        if before@ is Some {
            before@->0
        } else {
            Seq::empty()
        },
        frame,
        before.limit(),
    );
    if before@ is Some && before@->0.len() == 0 {
        assert(before@->0.push(frame) =~= seq![frame]);
    }
}

/// Frames that come in faster than they are taken out: the ring holds the last of them all,
/// as many as it has room for.
pub proof fn lemma_ring_tail(held: Seq<FrameView>, frames: Seq<FrameView>, capacity: nat, i: int)
    requires
        capacity > 0,
        held.len() <= capacity,
    ensures
        ({
            let all = held + frames;
            let kept = ring_pushed_all(held, frames, capacity);
            &&& kept.len() == if all.len() < capacity {
                all.len()
            } else {
                capacity
            }
            &&& 0 <= i < kept.len() ==> kept[i] == all[all.len() - kept.len() + i]
        }),
{
    lemma_ring_keeps_newest(held, frames, capacity);
}

} // verus!
