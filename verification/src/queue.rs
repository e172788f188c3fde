//! The bounded byte queue between the mic uplink and the virtual sink.
//!
//! One bound holds all of the playback path's buffering. What overflows is dropped from the
//! old end, in whole sample frames: mic audio tolerates drift, stale samples are worthless,
//! and a drop in the middle of a frame would shift every later one.

use std::collections::VecDeque;

use vstd::arithmetic::div_mod::{
    lemma_fundamental_div_mod, lemma_mod_decreases, lemma_mod_multiples_basic,
};
use vstd::prelude::*;

verus! {

/// Byte bound of a queue before a run configures it.
pub const DEFAULT_MAX_BYTES: usize = 96000;

/// Frame size of a queue before a run configures it: one 16-bit mono sample.
pub const DEFAULT_FRAME_BYTES: usize = 2;

/// The frame size that a requested one stands for; at least one byte.
pub open spec fn frame_floor(frame_bytes: nat) -> nat {
    if frame_bytes == 0 {
        1
    } else {
        frame_bytes
    }
}

/// The byte bound that a requested one stands for: whole frames, at least one.
pub open spec fn bound_floor(max_bytes: nat, frame_bytes: nat) -> nat {
    let whole = max_bytes / frame_bytes * frame_bytes;
    if whole < frame_bytes {
        frame_bytes
    } else {
        whole
    }
}

/// How many bytes leave a queue of `len` bytes under a bound: the smallest number of whole
/// frames that brings it back to the bound.
pub open spec fn excess(len: nat, max_bytes: nat, frame_bytes: nat) -> nat {
    if len <= max_bytes {
        0
    } else {
        ((len - max_bytes + frame_bytes - 1) / (frame_bytes as int) * frame_bytes) as nat
    }
}

/// What is queued after `data` comes in: the newest window of everything.
pub open spec fn pushed(queued: Seq<u8>, data: Seq<u8>, max_bytes: nat, frame_bytes: nat) -> Seq<
    u8,
> {
    let all = queued + data;
    all.skip(excess(all.len(), max_bytes, frame_bytes) as int)
}

/// How many bytes a request for `n` yields: what is there, floored to whole frames.
pub open spec fn drained(len: nat, n: nat, frame_bytes: nat) -> nat {
    let most = if n < len {
        n
    } else {
        len
    };
    (most - most % frame_bytes) as nat
}

/// Bounded, drop-oldest byte queue for PCM on its way to the sink.
pub struct PlayQueue {
    buf: VecDeque<u8>,
    max_bytes: usize,
    frame_bytes: usize,
}

impl View for PlayQueue {
    type V = Seq<u8>;

    closed spec fn view(&self) -> Seq<u8> {
        self.buf@
    }
}

impl PlayQueue {
    /// The byte bound in effect.
    pub closed spec fn bound(&self) -> nat {
        self.max_bytes as nat
    }

    /// The frame size in effect.
    pub closed spec fn frame(&self) -> nat {
        self.frame_bytes as nat
    }

    /// The bound is a positive number of whole frames, and the contents respect it.
    pub open spec fn wf(&self) -> bool {
        &&& self.frame() >= 1
        &&& self.bound() >= self.frame()
        &&& self.bound() % self.frame() == 0
        &&& self@.len() <= self.bound()
    }

    /// An empty queue with the bounds of the client mic wire.
    pub fn new() -> (q: Self)
        ensures
            q.wf(),
            q@ == Seq::<u8>::empty(),
            q.bound() == DEFAULT_MAX_BYTES,
            q.frame() == DEFAULT_FRAME_BYTES,
    {
        PlayQueue {
            buf: VecDeque::new(),
            max_bytes: DEFAULT_MAX_BYTES,
            frame_bytes: DEFAULT_FRAME_BYTES,
        }
    }

    /// Apply a run's byte bound and frame size, and drop stale audio of an earlier run.
    pub fn configure(&mut self, max_bytes: usize, frame_bytes: usize)
        ensures
            final(self).wf(),
            final(self)@ == Seq::<u8>::empty(),
            final(self).frame() == frame_floor(frame_bytes as nat),
            final(self).bound() == bound_floor(max_bytes as nat, frame_floor(frame_bytes as nat)),
    {
        let fb: usize = if frame_bytes == 0 {
            1
        } else {
            frame_bytes
        };
        proof {
            lemma_fundamental_div_mod(max_bytes as int, fb as int);
            assert(fb as int * (max_bytes as int / fb as int) == max_bytes as int / fb as int
                * fb as int) by (nonlinear_arith);
            lemma_mod_multiples_basic(max_bytes as int / fb as int, fb as int);
            lemma_mod_multiples_basic(1, fb as int);
            assert(0 <= max_bytes as int / fb as int * fb as int <= max_bytes);
        }
        let whole: usize = max_bytes / fb * fb;
        self.frame_bytes = fb;
        self.max_bytes = if whole < fb {
            fb
        } else {
            whole
        };
        self.buf.clear();
    }

    /// Drop everything queued, keeping the bounds.
    pub fn clear(&mut self)
        requires
            old(self).wf(),
        ensures
            final(self).wf(),
            final(self)@ == Seq::<u8>::empty(),
            final(self).bound() == old(self).bound(),
            final(self).frame() == old(self).frame(),
    {
        self.buf.clear();
    }

    /// How many bytes are queued.
    pub fn len(&self) -> (n: usize)
        ensures
            n == self@.len(),
    {
        self.buf.len()
    }

    /// Append PCM, dropping the oldest whole frames once the queue passes its bound.
    pub fn push(&mut self, data: &[u8])
        requires
            old(self).wf(),
        ensures
            final(self).wf(),
            final(self)@ == pushed(old(self)@, data@, old(self).bound(), old(self).frame()),
            final(self).bound() == old(self).bound(),
            final(self).frame() == old(self).frame(),
    {
        let n: usize = data.len();
        let mut i: usize = 0;
        assert(data@.take(0) =~= Seq::<u8>::empty());
        assert(self.buf@ =~= old(self).buf@ + data@.take(0));
        while i < n
            invariant
                i <= n,
                n == data@.len(),
                self.buf@ == old(self).buf@ + data@.take(i as int),
                self.max_bytes == old(self).max_bytes,
                self.frame_bytes == old(self).frame_bytes,
            decreases n - i,
        {
            self.buf.push_back(data[i]);
            assert(data@.take(i as int).push(data@[i as int]) =~= data@.take(i + 1));
            assert(self.buf@ =~= old(self).buf@ + data@.take(i + 1));
            i = i + 1;
        }
        assert(data@.take(n as int) =~= data@);
        let ghost all = old(self)@ + data@;
        let len: usize = self.buf.len();
        if len > self.max_bytes {
            let over: usize = len - self.max_bytes;
            let rem: usize = over % self.frame_bytes;
            proof {
                lemma_excess(len as nat, self.max_bytes as nat, self.frame_bytes as nat);
            }
            let gone: usize = if rem == 0 {
                over
            } else {
                over + (self.frame_bytes - rem)
            };
            let mut k: usize = 0;
            assert(all.skip(0) =~= all);
            while k < gone
                invariant
                    k <= gone <= len,
                    len == all.len(),
                    self.buf@ == all.skip(k as int),
                    self.max_bytes == old(self).max_bytes,
                    self.frame_bytes == old(self).frame_bytes,
                decreases gone - k,
            {
                let _ = self.buf.pop_front();
                assert(all.skip(k as int).subrange(1, all.skip(k as int).len() as int)
                    =~= all.skip(k + 1));
                k = k + 1;
            }
        } else {
            assert(all.skip(0) =~= all);
        }
    }

    /// Move up to `n` bytes, floored to whole frames, from the old end into `out`, which
    /// holds nothing else afterwards.
    pub fn drain_upto(&mut self, n: usize, out: &mut Vec<u8>)
        requires
            old(self).wf(),
        ensures
            final(self).wf(),
            final(out)@ == old(self)@.take(
                drained(old(self)@.len(), n as nat, old(self).frame()) as int,
            ),
            final(self)@ == old(self)@.skip(
                drained(old(self)@.len(), n as nat, old(self).frame()) as int,
            ),
            final(self).bound() == old(self).bound(),
            final(self).frame() == old(self).frame(),
    {
        let len: usize = self.buf.len();
        let most: usize = if n < len {
            n
        } else {
            len
        };
        proof {
            lemma_mod_decreases(most as nat, self.frame_bytes as nat);
        }
        let take: usize = most - most % self.frame_bytes;
        out.clear();
        let mut k: usize = 0;
        assert(self.buf@.skip(0) =~= self.buf@);
        assert(self.buf@.take(0) =~= Seq::<u8>::empty());
        while k < take
            invariant
                k <= take <= len,
                len == old(self)@.len(),
                self.buf@ == old(self)@.skip(k as int),
                out@ == old(self)@.take(k as int),
                self.max_bytes == old(self).max_bytes,
                self.frame_bytes == old(self).frame_bytes,
            decreases take - k,
        {
            let front: Option<u8> = self.buf.pop_front();
            if let Some(b) = front {
                out.push(b);
            }
            proof {
                let here = old(self)@.skip(k as int);
                assert(here.subrange(1, here.len() as int) =~= old(self)@.skip(k + 1));
                assert(old(self)@.take(k as int).push(here[0]) =~= old(self)@.take(k + 1));
            }
            k = k + 1;
        }
    }
}

proof fn lemma_excess(len: nat, max_bytes: nat, frame_bytes: nat)
    requires
        frame_bytes >= 1,
        max_bytes >= frame_bytes,
        len > max_bytes,
    ensures
        ({
            let over = len - max_bytes;
            let rem = over % (frame_bytes as int);
            let gone = excess(len, max_bytes, frame_bytes);
            &&& gone == if rem == 0 {
                over
            } else {
                over + (frame_bytes - rem)
            }
            &&& gone % frame_bytes == 0
            &&& over <= gone <= len
            &&& 0 <= rem < frame_bytes
        }),
{
    let fb = frame_bytes as int;
    let over = len - max_bytes;
    let q = over / fb;
    let rem = over % fb;
    lemma_fundamental_div_mod(over, fb);
    let up = (over + fb - 1) / fb;
    lemma_fundamental_div_mod(over + fb - 1, fb);
    let rem_up = (over + fb - 1) % fb;
    assert(fb * q == q * fb) by (nonlinear_arith);
    assert(fb * up == up * fb) by (nonlinear_arith);
    assert(0 <= rem < fb && 0 <= rem_up < fb);
    if rem == 0 {
        assert(up == q) by (nonlinear_arith)
            requires
                up * fb + rem_up == over + fb - 1,
                over == q * fb,
                0 <= rem_up < fb,
                fb >= 1,
        ;
    } else {
        assert(up == q + 1) by (nonlinear_arith)
            requires
                up * fb + rem_up == over + fb - 1,
                over == q * fb + rem,
                0 < rem < fb,
                0 <= rem_up < fb,
                fb >= 1,
        ;
        assert((q + 1) * fb == q * fb + fb) by (nonlinear_arith);
    }
    lemma_mod_multiples_basic(up, fb);
}

/// A push never splits a frame: what leaves is whole frames, what stays is the newest part
/// of everything, within the bound and less than a frame short of it when anything left.
pub proof fn lemma_push_keeps_newest(
    queued: Seq<u8>,
    data: Seq<u8>,
    max_bytes: nat,
    frame_bytes: nat,
)
    requires
        frame_bytes >= 1,
        max_bytes >= frame_bytes,
    ensures
        ({
            let all = queued + data;
            let kept = pushed(queued, data, max_bytes, frame_bytes);
            &&& kept.len() <= max_bytes
            &&& kept == all.skip(all.len() - kept.len())
            &&& (all.len() - kept.len()) % (frame_bytes as int) == 0
            &&& all.len() <= max_bytes ==> kept == all
            &&& all.len() > max_bytes ==> kept.len() > max_bytes - frame_bytes
        }),
{
    let all = queued + data;
    if all.len() > max_bytes {
        lemma_excess(all.len(), max_bytes, frame_bytes);
    } else {
        assert(all.skip(0) =~= all);
        assert(0int % (frame_bytes as int) == 0) by {
            lemma_mod_multiples_basic(0, frame_bytes as int);
        }
    }
}

/// With whole frames in and a bound of whole frames, the queue holds exactly the newest
/// bytes up to its bound, still whole frames.
pub proof fn lemma_push_aligned(queued: Seq<u8>, data: Seq<u8>, max_bytes: nat, frame_bytes: nat)
    requires
        frame_bytes >= 1,
        max_bytes >= frame_bytes,
        max_bytes % frame_bytes == 0,
        queued.len() % frame_bytes == 0,
        data.len() % frame_bytes == 0,
    ensures
        ({
            let all = queued + data;
            let kept = pushed(queued, data, max_bytes, frame_bytes);
            &&& kept.len() % frame_bytes == 0
            &&& all.len() > max_bytes ==> kept == all.skip(all.len() - max_bytes)
        }),
{
    let fb = frame_bytes as int;
    let all = queued + data;
    let a = queued.len() as int;
    let b = data.len() as int;
    lemma_fundamental_div_mod(a, fb);
    lemma_fundamental_div_mod(b, fb);
    lemma_fundamental_div_mod(max_bytes as int, fb);
    let k = a / fb + b / fb;
    assert(a + b == k * fb) by (nonlinear_arith)
        requires
            a == fb * (a / fb),
            b == fb * (b / fb),
            k == a / fb + b / fb,
    ;
    lemma_mod_multiples_basic(k, fb);
    if all.len() > max_bytes {
        let m = max_bytes as int / fb;
        assert(a + b - max_bytes == (k - m) * fb) by (nonlinear_arith)
            requires
                a + b == k * fb,
                max_bytes == fb * m,
        ;
        lemma_mod_multiples_basic(k - m, fb);
        lemma_excess(all.len(), max_bytes, frame_bytes);
    } else {
        assert(all.skip(0) =~= all);
    }
}

/// For whole frames it makes no difference how the audio is cut into pushes: two pushes in
/// a row leave what one push of both leaves.
pub proof fn lemma_push_in_parts(
    queued: Seq<u8>,
    first: Seq<u8>,
    second: Seq<u8>,
    max_bytes: nat,
    frame_bytes: nat,
)
    requires
        frame_bytes >= 1,
        max_bytes >= frame_bytes,
        max_bytes % frame_bytes == 0,
        queued.len() % frame_bytes == 0,
        first.len() % frame_bytes == 0,
        second.len() % frame_bytes == 0,
    ensures
        pushed(pushed(queued, first, max_bytes, frame_bytes), second, max_bytes, frame_bytes)
            == pushed(queued, first + second, max_bytes, frame_bytes),
{
    let fb = frame_bytes as int;
    let mid = pushed(queued, first, max_bytes, frame_bytes);
    let all = queued + (first + second);
    lemma_push_aligned(queued, first, max_bytes, frame_bytes);
    lemma_push_aligned(mid, second, max_bytes, frame_bytes);
    let a = first.len() as int;
    let b = second.len() as int;
    lemma_fundamental_div_mod(a, fb);
    lemma_fundamental_div_mod(b, fb);
    assert(a + b == (a / fb + b / fb) * fb) by (nonlinear_arith)
        requires
            a == fb * (a / fb),
            b == fb * (b / fb),
    ;
    lemma_mod_multiples_basic(a / fb + b / fb, fb);
    lemma_push_aligned(queued, first + second, max_bytes, frame_bytes);
    lemma_push_keeps_newest(queued, first, max_bytes, frame_bytes);
    lemma_push_keeps_newest(mid, second, max_bytes, frame_bytes);
    lemma_push_keeps_newest(queued, first + second, max_bytes, frame_bytes);
    let end = pushed(mid, second, max_bytes, frame_bytes);
    let whole = pushed(queued, first + second, max_bytes, frame_bytes);
    assert(end.len() == whole.len());
    assert(end =~= whole);
}

/// A drain neither loses nor reorders a byte, and hands out whole frames, as many as asked
/// for and there.
pub proof fn lemma_drain_splits(queued: Seq<u8>, n: nat, frame_bytes: nat)
    requires
        frame_bytes >= 1,
    ensures
        ({
            let k = drained(queued.len(), n, frame_bytes);
            &&& k <= queued.len() && k <= n
            &&& queued.take(k as int) + queued.skip(k as int) == queued
            &&& k % frame_bytes == 0
            &&& k + frame_bytes > n || k + frame_bytes > queued.len()
        }),
{
    let fb = frame_bytes as int;
    let most = (if n < queued.len() {
        n
    } else {
        queued.len()
    }) as int;
    let k = drained(queued.len(), n, frame_bytes);
    lemma_fundamental_div_mod(most, fb);
    assert(fb * (most / fb) == (most / fb) * fb) by (nonlinear_arith);
    lemma_mod_multiples_basic(most / fb, fb);
    assert(0 <= most / fb * fb);
    assert(queued.take(k as int) + queued.skip(k as int) =~= queued);
}

/// A queue works in frames of at least one byte, and of the size asked for where that is one.
/// Its bound is whole frames, at least one, and otherwise the most that the request allows.
pub proof fn lemma_bounds_in_effect(max_bytes: nat, frame_bytes: nat)
    ensures
        frame_bytes == 0 ==> frame_floor(frame_bytes) == 1,
        frame_bytes > 0 ==> frame_floor(frame_bytes) == frame_bytes,
        frame_bytes > 0 ==> {
            let bound = bound_floor(max_bytes, frame_bytes);
            &&& bound % frame_bytes == 0
            &&& bound >= frame_bytes
            &&& max_bytes < frame_bytes ==> bound == frame_bytes
            &&& max_bytes >= frame_bytes ==> bound <= max_bytes < bound + frame_bytes
        },
        DEFAULT_MAX_BYTES == 96000 && DEFAULT_FRAME_BYTES == 2,
{
    if frame_bytes > 0 {
        let fb = frame_bytes as int;
        let q = max_bytes as int / fb;
        lemma_fundamental_div_mod(max_bytes as int, fb);
        assert(fb * q == q * fb) by (nonlinear_arith);
        lemma_mod_multiples_basic(q, fb);
        lemma_mod_multiples_basic(1, fb);
        if max_bytes >= frame_bytes {
            assert(q >= 1) by (nonlinear_arith)
                requires
                    max_bytes < q * fb + fb,
                    max_bytes >= fb,
                    fb > 0,
            ;
            assert(q * fb >= fb) by (nonlinear_arith)
                requires
                    q >= 1,
                    fb > 0,
            ;
        } else {
            assert(q * fb < fb);
        }
    }
}

/// A queue that is drained by the whole holds nothing but an unfinished frame, and in the
/// order of what came in: bytes leave from the old end alone.
pub proof fn lemma_drain_all(queued: Seq<u8>, n: nat, frame_bytes: nat)
    requires
        frame_bytes >= 1,
        n >= queued.len(),
    ensures
        drained(queued.len(), n, frame_bytes) <= queued.len(),
        queued.len() - drained(queued.len(), n, frame_bytes) < frame_bytes,
        queued.len() % frame_bytes == 0 ==> drained(queued.len(), n, frame_bytes) == queued.len(),
{
    lemma_drain_splits(queued, n, frame_bytes);
}

/// What a queue promises of itself at every moment: a bound of whole frames, at least one,
/// and no more bytes than that.
pub proof fn lemma_queue_bounded(queue: &PlayQueue)
    requires
        queue.wf(),
    ensures
        queue@.len() <= queue.bound(),
        queue.frame() >= 1,
        queue.bound() >= queue.frame(),
        queue.bound() % queue.frame() == 0,
{
}

} // verus!
