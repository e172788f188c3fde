//! The bounded hand-off from the capture thread to the delivery thread.
//!
//! A slow callback must never stall the audio pump, and stale audio is worthless, so a full
//! ring drops its oldest frame. Closing it empties it and tells the consumer to leave.

use std::collections::VecDeque;

use vstd::prelude::*;

use crate::pool::{AudioFrame, FrameView};
use crate::red::newest;

verus! {

/// Frames of slack between capture and delivery.
pub const RING_CAPACITY: usize = 8;

/// What a ring holds after one more frame: at capacity, the oldest one makes room.
pub open spec fn ring_pushed(
    held: Seq<FrameView>,
    frame: FrameView,
    capacity: nat,
) -> Seq<FrameView> {
    if held.len() >= capacity && held.len() > 0 {
        held.skip(1).push(frame)
    } else {
        held.push(frame)
    }
}

/// The views of frames.
pub open spec fn views_of(frames: Seq<AudioFrame>) -> Seq<FrameView> {
    Seq::new(frames.len(), |i: int| frames[i]@)
}

/// What a consumer finds when it looks.
pub enum Popped {
    /// The oldest frame.
    Frame(AudioFrame),
    /// Nothing yet: wait to be woken, then look again.
    Wait,
    /// The ring is closed: leave.
    Closed,
}

/// Bounded, drop-oldest frame ring.
pub struct DeliveryRing {
    q: Option<VecDeque<AudioFrame>>,
    dropped: u64,
    capacity: usize,
}

impl View for DeliveryRing {
    type V = Option<Seq<FrameView>>;

    /// The frames held, oldest first; `None` once closed.
    closed spec fn view(&self) -> Option<Seq<FrameView>> {
        match self.q {
            None => None,
            Some(q) => Some(views_of(q@)),
        }
    }
}

impl DeliveryRing {
    /// How many stale frames were dropped, modulo 2^64.
    pub closed spec fn lost(&self) -> u64 {
        self.dropped
    }

    /// The number of frames that may be held.
    pub closed spec fn limit(&self) -> nat {
        self.capacity as nat
    }

    /// The contents respect the limit; a ring always has room for the newest frame.
    pub open spec fn wf(&self) -> bool {
        self@ matches Some(held) ==> held.len() <= self.limit() || held.len() <= 1
    }

    /// An open, empty ring.
    pub fn new(capacity: usize) -> (r: Self)
        ensures
            r.wf(),
            r@ == Some(Seq::<FrameView>::empty()),
            r.lost() == 0,
            r.limit() == capacity,
    {
        let q: VecDeque<AudioFrame> = VecDeque::new();
        assert(views_of(q@) =~= Seq::<FrameView>::empty());
        DeliveryRing { q: Some(q), dropped: 0, capacity }
    }

    /// Add one frame, dropping the oldest at capacity. Does nothing once closed. Whether a
    /// waiting consumer is to be woken.
    pub fn push(&mut self, frame: AudioFrame) -> (wake: bool)
        requires
            old(self).wf(),
        ensures
            final(self).wf(),
            wake == (old(self)@ is Some),
            took_frame(*old(self), *final(self), frame@),
    {
        match self.q.take() {
            None => false,
            Some(q0) => {
                let mut q: VecDeque<AudioFrame> = q0;
                let ghost held = views_of(q@);
                if q.len() >= self.capacity {
                    let ghost before = q@;
                    let _ = q.pop_front();
                    proof {
                        if before.len() > 0 {
                            assert(views_of(q@) =~= held.skip(1));
                        }
                    }
                    self.dropped = self.dropped.wrapping_add(1);
                }
                let ghost kept = q@;
                q.push_back(frame);
                assert(views_of(q@) =~= views_of(kept).push(frame@));
                self.q = Some(q);
                true
            },
        }
    }

    /// Look for the oldest frame.
    pub fn pop(&mut self) -> (r: Popped)
        requires
            old(self).wf(),
        ensures
            final(self).wf(),
            final(self).limit() == old(self).limit(),
            final(self).lost() == old(self).lost(),
            match old(self)@ {
                None => r is Closed && final(self)@ is None,
                Some(held) => if held.len() == 0 {
                    r is Wait && final(self)@ == Some(held)
                } else {
                    &&& r matches Popped::Frame(frame)
                    &&& frame@ == held[0]
                    &&& final(self)@ == Some(held.skip(1))
                },
            },
    {
        match self.q.take() {
            None => Popped::Closed,
            Some(q0) => {
                let mut q: VecDeque<AudioFrame> = q0;
                let ghost before = q@;
                let front: Option<AudioFrame> = q.pop_front();
                proof {
                    if before.len() > 0 {
                        assert(views_of(q@) =~= views_of(before).skip(1));
                    }
                }
                self.q = Some(q);
                match front {
                    None => Popped::Wait,
                    Some(frame) => Popped::Frame(frame),
                }
            },
        }
    }

    /// Close the ring for good, dropping what it holds; every waiter is to be woken.
    pub fn close(&mut self)
        ensures
            final(self).wf(),
            final(self)@ is None,
            final(self).lost() == old(self).lost(),
            final(self).limit() == old(self).limit(),
    {
        self.q = None;
    }

    /// How many stale frames were dropped so far.
    pub fn dropped(&self) -> (n: u64)
        ensures
            n == self.lost(),
    {
        self.dropped
    }
}

/// One more frame was handed to a ring: it is held, at the price of the oldest one when the
/// ring was full, which is counted; a closed ring stays as it is.
pub open spec fn took_frame(
    before: DeliveryRing,
    after: DeliveryRing,
    frame: FrameView,
) -> bool {
    &&& after.limit() == before.limit()
    &&& match before@ {
        None => after@ is None && after.lost() == before.lost(),
        Some(held) => {
            &&& after@ == Some(ring_pushed(held, frame, before.limit()))
            &&& after.lost() == if held.len() >= before.limit() {
                before.lost().wrapping_add(1)
            } else {
                before.lost()
            }
        },
    }
}

/// What a ring holds after `frames` came in, one by one, with nobody taking any out.
pub open spec fn ring_pushed_all(
    held: Seq<FrameView>,
    frames: Seq<FrameView>,
    capacity: nat,
) -> Seq<FrameView>
    decreases frames.len(),
{
    if frames.len() == 0 {
        held
    } else {
        ring_pushed(ring_pushed_all(held, frames.drop_last(), capacity), frames.last(), capacity)
    }
}

/// Drop-oldest: whatever comes in, a ring holds exactly the newest frames up to its
/// capacity, in the order in which they came.
pub proof fn lemma_ring_keeps_newest(
    held: Seq<FrameView>,
    frames: Seq<FrameView>,
    capacity: nat,
)
    requires
        capacity > 0,
        held.len() <= capacity,
    ensures
        ring_pushed_all(held, frames, capacity) == newest(held + frames, capacity),
    decreases frames.len(),
{
    if frames.len() == 0 {
        assert(held + frames =~= held);
    } else {
        let init = frames.drop_last();
        lemma_ring_keeps_newest(held, init, capacity);
        assert((held + init).push(frames.last()) =~= held + frames);
        assert(ring_pushed_all(held, frames, capacity) =~= newest(held + frames, capacity));
    }
}

} // verus!
