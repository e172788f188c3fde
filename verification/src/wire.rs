//! Integers and PCM samples as bytes.
//!
//! The wire formats of this crate are described over two notations for an integer, least
//! significant byte first (`le_bytes`) and most significant byte first (`be_bytes`), and one
//! for interleaved 16-bit PCM (`pcm_bytes`, the S16LE layout). Each has its reading
//! direction, and each reading direction undoes its notation.

use vstd::prelude::*;

verus! {

/// 256 to the power `n`.
pub open spec fn pow256(n: nat) -> nat
    decreases n,
{
    if n == 0 {
        1
    } else {
        256 * pow256((n - 1) as nat)
    }
}

/// The low `n` bytes of `x`, least significant first.
pub open spec fn le_bytes(x: nat, n: nat) -> Seq<u8>
    decreases n,
{
    if n == 0 {
        Seq::empty()
    } else {
        seq![(x % 256) as u8] + le_bytes(x / 256, (n - 1) as nat)
    }
}

/// The integer that `s` denotes, least significant byte first.
pub open spec fn from_le(s: Seq<u8>) -> nat
    decreases s.len(),
{
    if s.len() == 0 {
        0
    } else {
        s[0] as nat + 256 * from_le(s.skip(1))
    }
}

/// The low `n` bytes of `x`, most significant first.
pub open spec fn be_bytes(x: nat, n: nat) -> Seq<u8>
    decreases n,
{
    if n == 0 {
        Seq::empty()
    } else {
        be_bytes(x / 256, (n - 1) as nat).push((x % 256) as u8)
    }
}

/// The integer that `s` denotes, most significant byte first.
pub open spec fn from_be(s: Seq<u8>) -> nat
    decreases s.len(),
{
    if s.len() == 0 {
        0
    } else {
        256 * from_be(s.drop_last()) + s.last() as nat
    }
}

/// Reading a little-endian field gives back the integer it was written from.
pub proof fn lemma_le_round_trip(x: nat, n: nat)
    requires
        x < pow256(n),
    ensures
        le_bytes(x, n).len() == n,
        from_le(le_bytes(x, n)) == x,
    decreases n,
{
    if n > 0 {
        lemma_le_round_trip(x / 256, (n - 1) as nat);
        assert(le_bytes(x, n).skip(1) =~= le_bytes(x / 256, (n - 1) as nat));
    }
}

/// Reading a big-endian field gives back the integer it was written from.
pub proof fn lemma_be_round_trip(x: nat, n: nat)
    requires
        x < pow256(n),
    ensures
        be_bytes(x, n).len() == n,
        from_be(be_bytes(x, n)) == x,
    decreases n,
{
    if n > 0 {
        lemma_be_round_trip(x / 256, (n - 1) as nat);
        assert(be_bytes(x, n).drop_last() =~= be_bytes(x / 256, (n - 1) as nat));
    }
}

/// A little-endian field has the length it was asked for.
pub broadcast proof fn lemma_le_len(x: nat, n: nat)
    ensures
        #[trigger] le_bytes(x, n).len() == n,
    decreases n,
{
    if n > 0 {
        lemma_le_len(x / 256, (n - 1) as nat);
    }
}

/// A big-endian field has the length it was asked for.
pub broadcast proof fn lemma_be_len(x: nat, n: nat)
    ensures
        #[trigger] be_bytes(x, n).len() == n,
    decreases n,
{
    if n > 0 {
        lemma_be_len(x / 256, (n - 1) as nat);
    }
}

/// Append the low `n` bytes of `x`, least significant first.
pub fn push_le(out: &mut Vec<u8>, x: u64, n: usize)
    ensures
        final(out)@ == old(out)@ + le_bytes(x as nat, n as nat),
{
    let mut rest: u64 = x;
    let mut left: usize = n;
    let ghost start = out@;
    proof {
        assert(start + le_bytes(x as nat, n as nat) =~= out@ + le_bytes(rest as nat, left as nat));
    }
    while left > 0
        invariant
            start + le_bytes(x as nat, n as nat) == out@ + le_bytes(rest as nat, left as nat),
        decreases left,
    {
        let ghost before = out@;
        out.push((rest % 256) as u8);
        proof {
            let tail = le_bytes((rest / 256) as nat, (left - 1) as nat);
            assert(before + (seq![(rest % 256) as u8] + tail) =~= out@ + tail);
        }
        rest = rest / 256;
        left = left - 1;
    }
    assert(out@ + le_bytes(rest as nat, 0) =~= out@);
}

/// Append a slice of bytes.
pub fn push_slice(out: &mut Vec<u8>, s: &[u8])
    ensures
        final(out)@ == old(out)@ + s@,
{
    out.extend_from_slice(s);
    assert(out@ =~= old(out)@ + s@);
}

/// The four bytes of `x`, most significant first.
pub fn be4(x: u32) -> (b: [u8; 4])
    ensures
        b@ == be_bytes(x as nat, 4),
{
    let b0: u8 = (x / 16777216) as u8;
    let b1: u8 = (x / 65536 % 256) as u8;
    let b2: u8 = (x / 256 % 256) as u8;
    let b3: u8 = (x % 256) as u8;
    let b: [u8; 4] = [b0, b1, b2, b3];
    proof {
        reveal_with_fuel(be_bytes, 5);
        assert(x as nat / 256 / 256 == x as nat / 65536);
        assert(x as nat / 256 / 256 / 256 == x as nat / 16777216);
        assert(b@ =~= be_bytes(x as nat, 4));
    }
    b
}

/// The low byte (`k == 0`) or the high byte (`k == 1`) of a sample in two's complement.
pub open spec fn sample_byte(v: i16, k: int) -> u8 {
    let u = v as int % 65536;
    if k == 0 {
        (u % 256) as u8
    } else {
        (u / 256) as u8
    }
}

/// The sample whose low byte is `lo` and whose high byte is `hi`.
pub open spec fn sample_of(lo: u8, hi: u8) -> i16 {
    let u = lo as int + 256 * hi as int;
    if u >= 32768 {
        (u - 65536) as i16
    } else {
        u as i16
    }
}

/// Samples in S16LE order: two bytes each, low byte first.
pub open spec fn pcm_bytes(samples: Seq<i16>) -> Seq<u8> {
    Seq::new(2 * samples.len(), |k: int| sample_byte(samples[k / 2], k % 2))
}

/// The samples that S16LE bytes hold; a trailing odd byte belongs to none of them.
pub open spec fn pcm_samples(bytes: Seq<u8>) -> Seq<i16> {
    Seq::new(bytes.len() / 2, |i: int| sample_of(bytes[2 * i], bytes[2 * i + 1]))
}

/// Reading S16LE bytes gives back the samples they were written from.
pub proof fn lemma_pcm_round_trip(samples: Seq<i16>)
    ensures
        pcm_samples(pcm_bytes(samples)) == samples,
{
    let b = pcm_bytes(samples);
    assert forall|i: int| 0 <= i < samples.len() implies sample_of(b[2 * i], b[2 * i + 1])
        == samples[i] by {
        assert((2 * i) / 2 == i && (2 * i) % 2 == 0);
        assert((2 * i + 1) / 2 == i && (2 * i + 1) % 2 == 1);
    }
    assert(pcm_samples(b) =~= samples);
}

/// A frame is all zero samples exactly when its bytes are all zero.
pub proof fn lemma_pcm_zero(bytes: Seq<u8>)
    requires
        bytes.len() % 2 == 0,
    ensures
        (forall|i: int| 0 <= i < pcm_samples(bytes).len() ==> pcm_samples(bytes)[i] == 0) <==> (
        forall|k: int| 0 <= k < bytes.len() ==> bytes[k] == 0),
{
    if forall|i: int| 0 <= i < pcm_samples(bytes).len() ==> pcm_samples(bytes)[i] == 0 {
        assert forall|k: int| 0 <= k < bytes.len() implies bytes[k] == 0 by {
            assert(pcm_samples(bytes)[k / 2] == 0);
        }
    }
}

/// Append samples as S16LE bytes.
pub fn push_pcm(out: &mut Vec<u8>, samples: &[i16])
    ensures
        final(out)@ == old(out)@ + pcm_bytes(samples@),
{
    let ghost start = out@;
    let mut i: usize = 0;
    while i < samples.len()
        invariant
            i <= samples@.len(),
            out@ == start + pcm_bytes(samples@.take(i as int)),
        decreases samples@.len() - i,
    {
        let v: i16 = samples[i];
        let u: u16 = if v < 0 {
            (v as i32 + 65536) as u16
        } else {
            v as u16
        };
        out.push((u % 256) as u8);
        out.push((u / 256) as u8);
        i = i + 1;
        assert(out@ =~= start + pcm_bytes(samples@.take(i as int)));
    }
    assert(samples@.take(i as int) =~= samples@);
}

/// The samples that S16LE bytes hold.
pub fn read_pcm(bytes: &[u8]) -> (samples: Vec<i16>)
    ensures
        samples@ == pcm_samples(bytes@),
{
    let n: usize = bytes.len() / 2;
    let mut samples: Vec<i16> = Vec::with_capacity(n);
    let mut i: usize = 0;
    while i < n
        invariant
            i <= n,
            n == bytes@.len() / 2,
            2 * n <= usize::MAX,
            samples@ == pcm_samples(bytes@).take(i as int),
        decreases n - i,
    {
        let u: i32 = bytes[2 * i] as i32 + 256 * (bytes[2 * i + 1] as i32);
        let v: i16 = if u >= 32768 {
            (u - 65536) as i16
        } else {
            u as i16
        };
        samples.push(v);
        i = i + 1;
        assert(samples@ =~= pcm_samples(bytes@).take(i as int));
    }
    assert(samples@ =~= pcm_samples(bytes@));
    samples
}

} // verus!
