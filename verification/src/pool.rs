//! Recycling of outgoing frame buffers, so that the steady state allocates nothing.
//!
//! A buffer leaves the pool at full size, travels to the consumer inside an `AudioFrame` that
//! covers what was encoded, and comes back in full when the frame is released.

use vstd::prelude::*;
use vstd::slice::slice_subrange;

verus! {

/// Cap on pooled buffers; anything past it goes back to the allocator.
pub const MAX_POOLED: usize = 16;

/// The contents of buffers.
pub open spec fn contents(bufs: Seq<Vec<u8>>) -> Seq<Seq<u8>> {
    Seq::new(bufs.len(), |i: int| bufs[i]@)
}

/// A buffer brought to `size` bytes: what it holds, cut off or filled up with zeros.
pub open spec fn restored(buf: Seq<u8>, size: nat) -> Seq<u8> {
    Seq::new(
        size,
        |i: int|
            if i < buf.len() {
                buf[i]
            } else {
                0u8
            },
    )
}

/// What a stash of buffers holds after one with `capacity` allocated bytes is offered to it.
pub open spec fn stash_put(
    held: Seq<Seq<u8>>,
    buf: Seq<u8>,
    capacity: nat,
    buf_size: nat,
) -> Seq<Seq<u8>> {
    if capacity >= buf_size && held.len() < MAX_POOLED {
        held.push(buf)
    } else {
        held
    }
}

/// What taking a buffer out of a stash yields: the last one, restored, or a fresh one.
pub open spec fn stash_taken(held: Seq<Seq<u8>>, buf_size: nat) -> Seq<u8> {
    if held.len() > 0 {
        restored(held.last(), buf_size)
    } else {
        restored(Seq::empty(), buf_size)
    }
}

/// What taking a buffer leaves behind.
pub open spec fn stash_left(held: Seq<Seq<u8>>) -> Seq<Seq<u8>> {
    if held.len() > 0 {
        held.drop_last()
    } else {
        held
    }
}

/// What a taker hands out: from its stash, or from the pool when the stash is empty.
pub open spec fn taker_taken(
    stash: Seq<Seq<u8>>,
    pooled: Seq<Seq<u8>>,
    buf_size: nat,
) -> Seq<u8> {
    if stash.len() > 0 {
        stash_taken(stash, buf_size)
    } else {
        stash_taken(pooled, buf_size)
    }
}

/// What a take leaves in the stash and in the pool.
pub open spec fn taker_left(stash: Seq<Seq<u8>>, pooled: Seq<Seq<u8>>) -> (
    Seq<Seq<u8>>,
    Seq<Seq<u8>>,
) {
    if stash.len() > 0 {
        (stash_left(stash), pooled)
    } else {
        (stash_left(pooled), Seq::empty())
    }
}

/// The bytes allocated for a buffer.
///
/// Calls `Vec::capacity`. Taken on trust is that it is never less than the length; how much
/// more it is lies with the allocator and is left open.
#[verifier::external_body]
fn allocated(buf: &Vec<u8>) -> (n: usize)
    ensures
        n >= buf@.len(),
{
    buf.capacity()
}

fn push_within(stash: &mut Vec<Vec<u8>>, buf: Vec<u8>, capacity: usize, buf_size: usize)
    ensures
        contents(final(stash)@) == stash_put(
            contents(old(stash)@),
            buf@,
            capacity as nat,
            buf_size as nat,
        ),
{
    if capacity >= buf_size && stash.len() < MAX_POOLED {
        let ghost before = contents(stash@);
        stash.push(buf);
        assert(contents(stash@) =~= before.push(buf@));
    }
}

fn pop_restored(stash: &mut Vec<Vec<u8>>, buf_size: usize) -> (buf: Vec<u8>)
    requires
        buf_size <= isize::MAX,
    ensures
        buf@ == stash_taken(contents(old(stash)@), buf_size as nat),
        contents(final(stash)@) == stash_left(contents(old(stash)@)),
{
    let ghost before = contents(stash@);
    let top: Option<Vec<u8>> = stash.pop();
    match top {
        Some(v) => {
            let mut v: Vec<u8> = v;
            assert(contents(stash@) =~= before.drop_last());
            assert(before.last() == v@);
            v.resize(buf_size, 0);
            assert(v@ =~= stash_taken(before, buf_size as nat));
            v
        },
        None => {
            let v: Vec<u8> = vec![0u8; buf_size];
            assert(contents(stash@) =~= before);
            assert(v@ =~= stash_taken(before, buf_size as nat));
            v
        },
    }
}

/// Pool of frame buffers, shared between the capture thread and whoever releases frames.
pub struct BufferPool {
    bufs: Vec<Vec<u8>>,
    buf_size: usize,
}

impl View for BufferPool {
    type V = Seq<Seq<u8>>;

    closed spec fn view(&self) -> Seq<Seq<u8>> {
        contents(self.bufs@)
    }
}

impl BufferPool {
    /// The size at which buffers are handed out.
    pub closed spec fn size(&self) -> nat {
        self.buf_size as nat
    }

    /// A buffer of the pool's size can be allocated.
    pub open spec fn wf(&self) -> bool {
        self.size() <= isize::MAX
    }

    /// An empty pool for buffers of `buf_size` bytes.
    pub fn new(buf_size: usize) -> (p: Self)
        requires
            buf_size <= isize::MAX,
        ensures
            p.wf(),
            p@ == Seq::<Seq<u8>>::empty(),
            p.size() == buf_size,
    {
        let bufs: Vec<Vec<u8>> = Vec::new();
        assert(contents(bufs@) =~= Seq::<Seq<u8>>::empty());
        BufferPool { bufs, buf_size }
    }

    /// The size at which buffers are handed out.
    pub fn buf_size(&self) -> (n: usize)
        ensures
            n == self.size(),
    {
        self.buf_size
    }

    /// Take a buffer of exactly the pool's size, recycling a pooled one when there is one.
    pub fn take(&mut self) -> (buf: Vec<u8>)
        requires
            old(self).wf(),
        ensures
            final(self).wf(),
            final(self).size() == old(self).size(),
            buf@ == stash_taken(old(self)@, old(self).size()),
            final(self)@ == stash_left(old(self)@),
    {
        pop_restored(&mut self.bufs, self.buf_size)
    }

    /// Return a buffer whose allocation is `capacity` bytes: it is pooled unless it is too
    /// small or the pool is full.
    pub fn put_measured(&mut self, buf: Vec<u8>, capacity: usize)
        requires
            old(self).wf(),
        ensures
            final(self).wf(),
            final(self).size() == old(self).size(),
            final(self)@ == stash_put(old(self)@, buf@, capacity as nat, old(self).size()),
    {
        push_within(&mut self.bufs, buf, capacity, self.buf_size);
    }

    /// Return a buffer. One of the pool's size is always kept while there is room; whether a
    /// shorter one has the allocation for it, the allocator decides.
    pub fn put(&mut self, buf: Vec<u8>)
        requires
            old(self).wf(),
        ensures
            final(self).wf(),
            final(self).size() == old(self).size(),
            exists|capacity: nat|
                capacity >= buf@.len() && final(self)@ == #[trigger] stash_put(
                    old(self)@,
                    buf@,
                    capacity,
                    old(self).size(),
                ),
            buf@.len() >= old(self).size() && old(self)@.len() < MAX_POOLED ==> final(self)@
                == old(self)@.push(buf@),
    {
        let capacity: usize = allocated(&buf);
        self.put_measured(buf, capacity);
    }

    /// Exchange the pooled buffers for those in `into`: the refill of a taker whose own
    /// stash is empty.
    pub fn drain_into(&mut self, into: &mut Vec<Vec<u8>>)
        requires
            old(self).wf(),
        ensures
            final(self).wf(),
            final(self).size() == old(self).size(),
            contents(final(into)@) == old(self)@,
            final(self)@ == contents(old(into)@),
    {
        std::mem::swap(&mut self.bufs, into);
    }
}

/// The capture thread's own stash over the shared pool.
pub struct PoolTaker {
    local: Vec<Vec<u8>>,
}

impl View for PoolTaker {
    type V = Seq<Seq<u8>>;

    closed spec fn view(&self) -> Seq<Seq<u8>> {
        contents(self.local@)
    }
}

impl PoolTaker {
    /// A taker with nothing in its stash.
    pub fn new() -> (t: Self)
        ensures
            t@ == Seq::<Seq<u8>>::empty(),
    {
        let local: Vec<Vec<u8>> = Vec::new();
        assert(contents(local@) =~= Seq::<Seq<u8>>::empty());
        PoolTaker { local }
    }

    /// Take a buffer of exactly the pool's size: from the stash, which is refilled with the
    /// whole pool when it is empty, or a fresh one when both are.
    pub fn take(&mut self, pool: &mut BufferPool) -> (buf: Vec<u8>)
        requires
            old(pool).wf(),
        ensures
            final(pool).wf(),
            final(pool).size() == old(pool).size(),
            buf@ == taker_taken(old(self)@, old(pool)@, old(pool).size()),
            (final(self)@, final(pool)@) == taker_left(old(self)@, old(pool)@),
    {
        if self.local.len() == 0 {
            assert(contents(self.local@) =~= Seq::<Seq<u8>>::empty());
            pool.drain_into(&mut self.local);
        }
        pop_restored(&mut self.local, pool.buf_size)
    }

    /// Keep a buffer whose allocation is `capacity` bytes, under the pool's terms.
    pub fn put_measured(&mut self, buf: Vec<u8>, capacity: usize, pool: &BufferPool)
        ensures
            final(self)@ == stash_put(old(self)@, buf@, capacity as nat, pool.size()),
    {
        push_within(&mut self.local, buf, capacity, pool.buf_size);
    }

    /// Keep a buffer that was not sent after all.
    pub fn put(&mut self, buf: Vec<u8>, pool: &BufferPool)
        ensures
            exists|capacity: nat|
                capacity >= buf@.len() && final(self)@ == #[trigger] stash_put(
                    old(self)@,
                    buf@,
                    capacity,
                    pool.size(),
                ),
            buf@.len() >= pool.size() && old(self)@.len() < MAX_POOLED ==> final(self)@
                == old(self)@.push(buf@),
    {
        let capacity: usize = allocated(&buf);
        self.put_measured(buf, capacity, pool);
    }
}

/// A frame, as contracts speak of it.
#[verifier::ext_equal]
pub struct FrameView {
    /// The whole buffer that the frame travels in.
    pub buffer: Seq<u8>,
    /// How much of the buffer is the frame.
    pub len: nat,
    /// The presentation timestamp.
    pub pts: u64,
    /// The buffer goes back to a pool.
    pub recycles: bool,
}

impl FrameView {
    /// The bytes of the frame.
    pub open spec fn bytes(self) -> Seq<u8> {
        self.buffer.take(self.len as int)
    }
}

/// What a pool holds after a frame with `capacity` allocated bytes was released to it.
pub open spec fn after_release(
    held: Seq<Seq<u8>>,
    frame: FrameView,
    capacity: nat,
    buf_size: nat,
) -> Seq<Seq<u8>> {
    if frame.recycles {
        stash_put(held, frame.buffer, capacity, buf_size)
    } else {
        held
    }
}

/// An encoded frame on its way to the consumer. The buffer behind it is never cut down to
/// it, so that it comes back in full.
pub struct AudioFrame {
    data: Vec<u8>,
    len: usize,
    pts: u64,
    pooled: bool,
}

impl View for AudioFrame {
    type V = FrameView;

    closed spec fn view(&self) -> FrameView {
        FrameView {
            buffer: self.data@,
            len: self.len as nat,
            pts: self.pts,
            recycles: self.pooled,
        }
    }
}

impl AudioFrame {
    #[verifier::type_invariant]
    spec fn within_buffer(&self) -> bool {
        self.len <= self.data@.len()
    }

    /// A frame that fills its buffer; `pooled` when the buffer belongs to a pool.
    pub fn new(data: Vec<u8>, pts: u64, pooled: bool) -> (f: Self)
        ensures
            f@ == (FrameView { buffer: data@, len: data@.len(), pts, recycles: pooled }),
    {
        let len: usize = data.len();
        AudioFrame { data, len, pts, pooled }
    }

    /// A frame that is the first `len` bytes of a pool's buffer.
    pub fn within(data: Vec<u8>, len: usize, pts: u64) -> (f: Self)
        requires
            len <= data@.len(),
        ensures
            f@ == (FrameView { buffer: data@, len: len as nat, pts, recycles: true }),
    {
        AudioFrame { data, len, pts, pooled: true }
    }

    /// The size of the frame in bytes.
    pub fn len(&self) -> (n: usize)
        ensures
            n == self@.len,
            n == self@.bytes().len(),
    {
        proof {
            use_type_invariant(self);
        }
        self.len
    }

    /// The presentation timestamp in samples.
    pub fn pts(&self) -> (p: u64)
        ensures
            p == self@.pts,
    {
        self.pts
    }

    /// The bytes of the frame.
    pub fn bytes(&self) -> (b: &[u8])
        ensures
            b@ == self@.bytes(),
    {
        proof {
            use_type_invariant(self);
        }
        let b: &[u8] = slice_subrange(self.data.as_slice(), 0, self.len);
        assert(b@ =~= self@.bytes());
        b
    }

    /// Give up the frame, handing a pooled buffer back. A buffer of the pool's size is always
    /// kept while the pool has room.
    pub fn release(self, pool: &mut BufferPool)
        requires
            old(pool).wf(),
        ensures
            final(pool).wf(),
            final(pool).size() == old(pool).size(),
            exists|capacity: nat|
                capacity >= self@.buffer.len() && final(pool)@ == #[trigger] after_release(
                    old(pool)@,
                    self@,
                    capacity,
                    old(pool).size(),
                ),
            self@.recycles && self@.buffer.len() >= old(pool).size() && old(pool)@.len()
                < MAX_POOLED ==> final(pool)@ == old(pool)@.push(self@.buffer),
    {
        let ghost frame = self@;
        if self.pooled {
            pool.put(self.data);
            proof {
                let capacity = choose|capacity: nat|
                    capacity >= frame.buffer.len() && pool@ == #[trigger] stash_put(
                        old(pool)@,
                        frame.buffer,
                        capacity,
                        old(pool).size(),
                    );
                assert(pool@ == after_release(old(pool)@, frame, capacity, old(pool).size()));
            }
        } else {
            assert(pool@ == after_release(
                old(pool)@,
                frame,
                frame.buffer.len(),
                old(pool).size(),
            ));
        }
    }
}

/// A buffer that still has the pool's full length always finds its way back, as long as the
/// pool has room: the next take hands out the same bytes.
pub proof fn lemma_full_buffer_recycles(
    held: Seq<Seq<u8>>,
    buf: Seq<u8>,
    capacity: nat,
    buf_size: nat,
)
    requires
        buf.len() == buf_size,
        capacity >= buf.len(),
        held.len() < MAX_POOLED,
    ensures
        stash_taken(stash_put(held, buf, capacity, buf_size), buf_size) == buf,
        stash_left(stash_put(held, buf, capacity, buf_size)) == held,
{
    assert(restored(buf, buf_size) =~= buf);
    assert(held.push(buf).drop_last() =~= held);
}

/// The trip of a buffer: taken for a frame, sent inside it, and released, it is back in the
/// pool with the bytes of the trip, and no buffer was made or lost on the way. So the steady
/// state, in which stash or pool has a buffer to give, allocates nothing.
///
/// The pool has room for the buffer when it returns.
pub proof fn lemma_buffer_round_trip(
    stash: Seq<Seq<u8>>,
    pooled: Seq<Seq<u8>>,
    frame: FrameView,
    capacity: nat,
    buf_size: nat,
)
    requires
        stash.len() + pooled.len() > 0,
        frame.recycles,
        frame.buffer.len() == taker_taken(stash, pooled, buf_size).len(),
        capacity >= frame.buffer.len(),
        taker_left(stash, pooled).1.len() < MAX_POOLED,
    ensures
        ({
            let (stash_then, pooled_then) = taker_left(stash, pooled);
            let back = after_release(pooled_then, frame, capacity, buf_size);
            &&& back == pooled_then.push(frame.buffer)
            &&& stash_then.len() + back.len() == stash.len() + pooled.len()
            &&& stash_taken(back, buf_size) == frame.buffer
        }),
{
    let (_, pooled_then) = taker_left(stash, pooled);
    lemma_full_buffer_recycles(pooled_then, frame.buffer, capacity, buf_size);
}

/// Whatever is offered to it, a stash within the cap stays within it, and a taken buffer
/// always has the full size.
pub proof fn lemma_pool_bounded(held: Seq<Seq<u8>>, buf: Seq<u8>, capacity: nat, buf_size: nat)
    requires
        held.len() <= MAX_POOLED,
    ensures
        stash_put(held, buf, capacity, buf_size).len() <= MAX_POOLED,
        stash_taken(held, buf_size).len() == buf_size,
        stash_left(held).len() <= MAX_POOLED,
{
}

} // verus!
