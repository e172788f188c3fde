//! What the byte orders are, digit by digit.

use vstd::arithmetic::div_mod::lemma_div_denominator;
use vstd::arithmetic::power::{lemma_pow_positive, pow};
use vstd::prelude::*;

use crate::wire::{
    be_bytes, from_be, from_le, le_bytes, lemma_be_len, lemma_le_len, pcm_bytes, pcm_samples,
};

verus! {

/// The byte of `x` that stands for 256 to the power `i`.
pub open spec fn digit(x: nat, i: nat) -> int {
    x as int / pow(256, i) % 256
}

proof fn lemma_digit_shift(x: nat, i: nat)
    ensures
        digit(x / 256, i) == digit(x, i + 1),
        digit(x, 0) == x % 256,
{
    reveal(pow);
    lemma_pow_positive(256, i);
    lemma_div_denominator(x as int, 256, pow(256, i));
    assert(pow(256, i + 1) == 256 * pow(256, i));
    assert(pow(256, 0) == 1);
    assert(x as int / 1 == x as int);
}

/// A little-endian field holds the digits of its number to base 256, the lowest first.
pub proof fn lemma_le_digits(x: nat, n: nat, i: int)
    requires
        0 <= i < n,
    ensures
        le_bytes(x, n).len() == n,
        le_bytes(x, n)[i] == digit(x, i as nat),
    decreases n,
{
    lemma_le_len(x, n);
    lemma_le_len(x / 256, (n - 1) as nat);
    lemma_digit_shift(x, if i == 0 {
        0
    } else {
        (i - 1) as nat
    });
    if i > 0 {
        lemma_le_digits(x / 256, (n - 1) as nat, i - 1);
    }
}

/// A big-endian field holds the same digits, the highest first.
pub proof fn lemma_be_digits(x: nat, n: nat, i: int)
    requires
        0 <= i < n,
    ensures
        be_bytes(x, n).len() == n,
        be_bytes(x, n)[i] == digit(x, (n - 1 - i) as nat),
    decreases n,
{
    lemma_be_len(x, n);
    lemma_be_len(x / 256, (n - 1) as nat);
    if i == n - 1 {
        lemma_digit_shift(x, 0);
    } else {
        lemma_be_digits(x / 256, (n - 1) as nat, i);
        lemma_digit_shift(x, (n - 2 - i) as nat);
    }
}

/// The two byte orders are each other's mirror image.
pub proof fn lemma_orders_mirror(x: nat, n: nat)
    ensures
        be_bytes(x, n) == le_bytes(x, n).reverse(),
{
    lemma_le_len(x, n);
    lemma_be_len(x, n);
    assert forall|i: int| 0 <= i < n implies be_bytes(x, n)[i] == le_bytes(x, n).reverse()[i] by {
        lemma_be_digits(x, n, i);
        lemma_le_digits(x, n, n - 1 - i);
    }
    assert(be_bytes(x, n) =~= le_bytes(x, n).reverse());
}

/// Two and four bytes, written out: each byte counts 256 times the one before it, or after it.
pub proof fn lemma_fields_add_up(s: Seq<u8>)
    ensures
        s.len() == 2 ==> from_le(s) == s[0] + 256 * s[1] && from_be(s) == 256 * s[0] + s[1],
        s.len() == 3 ==> from_be(s) == 65536 * s[0] + 256 * s[1] + s[2],
        s.len() == 4 ==> {
            &&& from_le(s) == s[0] + 256 * s[1] + 65536 * s[2] + 16777216 * s[3]
            &&& from_be(s) == 16777216 * s[0] + 65536 * s[1] + 256 * s[2] + s[3]
        },
{
    reveal_with_fuel(from_le, 5);
    reveal_with_fuel(from_be, 5);
    if s.len() == 4 {
        assert(s.skip(1).skip(1).skip(1)[0] == s[3]);
        assert(s.skip(1).skip(1)[0] == s[2]);
        assert(s.drop_last().drop_last().drop_last().len() == 1);
    } else if s.len() == 3 {
        assert(s.drop_last().drop_last().len() == 1);
    }
}

/// Bytes and numbers stand for each other: writing down what was read gives the bytes back.
pub proof fn lemma_read_then_write(s: Seq<u8>)
    ensures
        le_bytes(from_le(s), s.len()) == s,
        be_bytes(from_be(s), s.len()) == s,
    decreases s.len(),
{
    if s.len() > 0 {
        lemma_read_then_write(s.skip(1));
        lemma_read_then_write(s.drop_last());
        assert(from_le(s) % 256 == s[0] && from_le(s) / 256 == from_le(s.skip(1)));
        assert(from_be(s) % 256 == s.last() && from_be(s) / 256 == from_be(s.drop_last()));
        assert(seq![s[0]] + s.skip(1) =~= s);
        assert(s.drop_last().push(s.last()) =~= s);
    }
    assert(le_bytes(from_le(s), s.len()) =~= s);
    assert(be_bytes(from_be(s), s.len()) =~= s);
}

/// PCM is two bytes per sample, the low one first, in two's complement: what the two bytes
/// count up to is the sample, or the sample and 65536 when it is negative.
pub proof fn lemma_pcm_bytes_layout(samples: Seq<i16>, i: int)
    requires
        0 <= i < samples.len(),
    ensures
        pcm_bytes(samples).len() == 2 * samples.len(),
        pcm_bytes(samples)[2 * i] + 256 * pcm_bytes(samples)[2 * i + 1] == if samples[i] < 0 {
            samples[i] + 65536
        } else {
            samples[i] as int
        },
{
    assert((2 * i) / 2 == i && (2 * i) % 2 == 0);
    assert((2 * i + 1) / 2 == i && (2 * i + 1) % 2 == 1);
}

/// Reading PCM, sample by sample.
pub proof fn lemma_pcm_samples_layout(bytes: Seq<u8>, i: int)
    requires
        0 <= i < bytes.len() / 2,
    ensures
        pcm_samples(bytes).len() == bytes.len() / 2,
        bytes[2 * i] + 256 * bytes[2 * i + 1] == if pcm_samples(bytes)[i] < 0 {
            pcm_samples(bytes)[i] + 65536
        } else {
            pcm_samples(bytes)[i] as int
        },
{
}

/// Reading PCM loses nothing: written out again, the samples are the bytes they were read
/// from.
pub proof fn lemma_pcm_bytes_of_samples(bytes: Seq<u8>)
    requires
        bytes.len() % 2 == 0,
    ensures
        pcm_bytes(pcm_samples(bytes)) == bytes,
{
    let s = pcm_samples(bytes);
    assert forall|k: int| 0 <= k < bytes.len() implies pcm_bytes(s)[k] == bytes[k] by {
        let i = k / 2;
        lemma_pcm_samples_layout(bytes, i);
        lemma_pcm_bytes_layout(s, i);
        assert(k == 2 * i || k == 2 * i + 1);
    }
    assert(pcm_bytes(s) =~= bytes);
}

/// PCM of two stretches of samples is the PCM of the first and then that of the second.
pub proof fn lemma_pcm_joins(a: Seq<i16>, b: Seq<i16>)
    ensures
        pcm_bytes(a + b) == pcm_bytes(a) + pcm_bytes(b),
{
    assert(pcm_bytes(a + b) =~= pcm_bytes(a) + pcm_bytes(b));
}

} // verus!
