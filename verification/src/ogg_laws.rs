//! What a page, a checksum and the stream headers are, byte by byte.

use vstd::arithmetic::div_mod::lemma_mod_multiples_vanish;
use vstd::prelude::*;

use crate::ogg::{
    crc_bits, crc_of, crc_step, dropped, head_packet, kept, lacing_table,
    lemma_header_pages_read_back, msb_bit, next_seq, page_bytes, page_lead, page_with, read_page,
    sent_pages, tags_packet, OpusHead, SendOutcome, BEGIN_OF_STREAM, CLIENT_QUEUE_CAP,
};
use crate::wire::{
    be_bytes, from_le, le_bytes, lemma_be_len, lemma_le_len, lemma_le_round_trip, pow256,
};
use crate::wire_laws::lemma_fields_add_up;

verus! {

spec fn eight_bits(c: u32, b: u8) -> u32 {
    crc_step(
        crc_step(
            crc_step(
                crc_step(
                    crc_step(
                        crc_step(
                            crc_step(crc_step(c, msb_bit(b, 0)), msb_bit(b, 1)),
                            msb_bit(b, 2),
                        ),
                        msb_bit(b, 3),
                    ),
                    msb_bit(b, 4),
                ),
                msb_bit(b, 5),
            ),
            msb_bit(b, 6),
        ),
        msb_bit(b, 7),
    )
}

proof fn lemma_eight_bits(c: u32, b: u8)
    ensures
        crc_bits(c, b, 8) == eight_bits(c, b),
{
    reveal_with_fuel(crc_bits, 9);
}

proof fn lemma_crc_pushed(data: Seq<u8>, b: u8)
    ensures
        crc_of(data.push(b)) == eight_bits(crc_of(data), b),
        crc_of(seq![b]) == eight_bits(0, b),
{
    lemma_eight_bits(crc_of(data), b);
    lemma_eight_bits(0, b);
    assert(data.push(b).drop_last() =~= data);
    assert(seq![b].drop_last() =~= Seq::<u8>::empty());
    assert(crc_of(Seq::<u8>::empty()) == 0);
    assert(crc_of(seq![b]) == crc_bits(crc_of(seq![b].drop_last()), seq![b].last(), 8));
}

proof fn lemma_top_byte(c: u32, b: u8)
    by (bit_vector)
    ensures
        eight_bits(c, b) == (c << 8u32) ^ eight_bits(0, ((c >> 24u32) as u8) ^ b),
{
}

proof fn lemma_doubled_byte(t: u8)
    by (bit_vector)
    requires
        t < 128,
    ensures
        eight_bits(0, (2 * t) as u8) == (eight_bits(0, t) << 1u32) ^ (if eight_bits(0, t)
            & 0x8000_0000u32 != 0 {
            0x04c1_1db7u32
        } else {
            0u32
        }),
        eight_bits(0, (2 * t + 1) as u8) == eight_bits(0, (2 * t) as u8) ^ 0x04c1_1db7u32,
        eight_bits(0, 0) == 0u32,
{
}

/// The checksum, a byte at a time: one more byte shifts it by a byte, and what is shifted out,
/// together with the byte, comes back as the checksum of that one byte.
pub proof fn lemma_crc_by_bytes(data: Seq<u8>, b: u8)
    ensures
        crc_of(Seq::empty()) == 0,
        crc_of(data.push(b)) == (crc_of(data) << 8u32) ^ crc_of(
            seq![((crc_of(data) >> 24u32) as u8) ^ b],
        ),
{
    let top = ((crc_of(data) >> 24u32) as u8) ^ b;
    lemma_crc_pushed(data, b);
    lemma_crc_pushed(data, top);
    lemma_top_byte(crc_of(data), b);
}

/// The checksum of one byte, bit by bit: doubling the byte doubles the checksum modulo the
/// polynomial 0x04c11db7, and its lowest bit adds the polynomial.
pub proof fn lemma_crc_of_a_byte(t: u8)
    requires
        t < 128,
    ensures
        crc_of(seq![0u8]) == 0,
        crc_of(seq![(2 * t) as u8]) == (crc_of(seq![t]) << 1u32) ^ (if crc_of(seq![t])
            & 0x8000_0000u32 != 0 {
            0x04c1_1db7u32
        } else {
            0u32
        }),
        crc_of(seq![(2 * t + 1) as u8]) == crc_of(seq![(2 * t) as u8]) ^ 0x04c1_1db7u32,
{
    lemma_crc_pushed(Seq::empty(), t);
    lemma_crc_pushed(Seq::empty(), 0);
    lemma_crc_pushed(Seq::empty(), (2 * t) as u8);
    lemma_crc_pushed(Seq::empty(), (2 * t + 1) as u8);
    lemma_doubled_byte(t);
}

/// Data followed by its own checksum, most significant byte first, checks out to zero.
pub proof fn lemma_crc_residue(data: Seq<u8>)
    ensures
        crc_of(data + be_bytes(crc_of(data) as nat, 4)) == 0,
{
    let c = crc_of(data);
    let b = be_bytes(c as nat, 4);
    let (b0, b1, b2, b3) = (
        (c >> 24u32) as u8,
        ((c << 8u32) >> 24u32) as u8,
        ((c << 16u32) >> 24u32) as u8,
        ((c << 24u32) >> 24u32) as u8,
    );
    lemma_be_len(c as nat, 4);
    assert(b =~= seq![b0, b1, b2, b3]) by {
        reveal_with_fuel(be_bytes, 5);
        assert((c >> 24u32) as u8 == c / 256 / 256 / 256 % 256) by (bit_vector);
        assert(((c << 8u32) >> 24u32) as u8 == c / 256 / 256 % 256) by (bit_vector);
        assert(((c << 16u32) >> 24u32) as u8 == c / 256 % 256) by (bit_vector);
        assert(((c << 24u32) >> 24u32) as u8 == c % 256) by (bit_vector);
    }
    let d1 = data.push(b0);
    let d2 = d1.push(b1);
    let d3 = d2.push(b2);
    assert(data + b =~= d3.push(b3));
    lemma_crc_of_a_byte(0);
    lemma_crc_by_bytes(data, b0);
    lemma_crc_by_bytes(d1, b1);
    lemma_crc_by_bytes(d2, b2);
    lemma_crc_by_bytes(d3, b3);
    assert(forall|x: u8| #[trigger] (x ^ x) == 0u8) by (bit_vector);
    assert((c << 8u32) ^ 0u32 == c << 8u32) by (bit_vector);
    assert((c << 8u32) << 8u32 ^ 0u32 == c << 16u32) by (bit_vector);
    assert((c << 16u32) << 8u32 ^ 0u32 == c << 24u32) by (bit_vector);
    assert((c << 24u32) << 8u32 ^ 0u32 == 0u32) by (bit_vector);
}

/// Four bytes as the number they count up to, the low one first.
pub open spec fn number4(s: Seq<u8>, at: int) -> int {
    s[at] + 256 * s[at + 1] + 65536 * s[at + 2] + 16777216 * s[at + 3]
}

/// Eight bytes as the number they count up to, the low one first.
pub open spec fn number8(s: Seq<u8>, at: int) -> int {
    number4(s, at) + 0x1_0000_0000 * number4(s, at + 4)
}

proof fn lemma_number4(s: Seq<u8>, at: int, x: nat)
    requires
        0 <= at,
        at + 4 <= s.len(),
        s.subrange(at, at + 4) == le_bytes(x, 4),
        x < 0x1_0000_0000,
    ensures
        number4(s, at) == x,
{
    assert(pow256(4) == 0x1_0000_0000) by {
        reveal_with_fuel(pow256, 5);
    }
    lemma_le_round_trip(x, 4);
    lemma_fields_add_up(s.subrange(at, at + 4));
}

proof fn lemma_number8(s: Seq<u8>, at: int, x: nat)
    requires
        0 <= at,
        at + 8 <= s.len(),
        s.subrange(at, at + 8) == le_bytes(x, 8),
        x < 0x1_0000_0000_0000_0000,
    ensures
        number8(s, at) == x,
{
    assert(pow256(8) == 0x1_0000_0000_0000_0000) by {
        reveal_with_fuel(pow256, 9);
    }
    lemma_le_round_trip(x, 8);
    let f = s.subrange(at, at + 8);
    let (f1, f2, f3, f4) = (f.skip(1), f.skip(2), f.skip(3), f.skip(4));
    assert(f.skip(1) =~= f1 && f1.skip(1) =~= f2 && f2.skip(1) =~= f3 && f3.skip(1) =~= f4);
    assert(from_le(f) == f[0] + 256 * from_le(f1));
    assert(from_le(f1) == f[1] + 256 * from_le(f2));
    assert(from_le(f2) == f[2] + 256 * from_le(f3));
    assert(from_le(f3) == f[3] + 256 * from_le(f4));
    lemma_fields_add_up(f4);
}

/// A page, byte by byte: `OggS`, version 0, the header type, the granule, serial and sequence
/// numbers, the checksum, the number of segments in one byte, a segment of 255 bytes for each
/// full 255 of the packet and a shorter one at the end, and the packet. The checksum is that
/// of the page with zeros in its place.
pub proof fn lemma_page_layout(
    serial: u32,
    seq: u32,
    granule: u64,
    header_type: u8,
    packet: Seq<u8>,
)
    ensures
        ({
            let p = page_bytes(serial, seq, granule, header_type, packet);
            let full = packet.len() as int / 255;
            &&& p.len() == 28 + full + packet.len()
            &&& p[0] == 79 && p[1] == 103 && p[2] == 103 && p[3] == 83
            &&& p[4] == 0
            &&& p[5] == header_type
            &&& number8(p, 6) == granule
            &&& number4(p, 14) == serial
            &&& number4(p, 18) == seq
            &&& number4(p, 22) == crc_of(p.take(22) + seq![0u8, 0u8, 0u8, 0u8] + p.skip(26))
            &&& p[26] == (full + 1) % 256
            &&& forall|i: int| 0 <= i < full ==> #[trigger] p[27 + i] == 255
            &&& p[27 + full] == packet.len() - 255 * full
            &&& p[27 + full] < 255
            &&& p.skip(28 + full) == packet
        }),
{
    broadcast use lemma_le_len;

    let p = page_bytes(serial, seq, granule, header_type, packet);
    let blank = page_with(serial, seq, granule, header_type, packet, 0);
    let crc = crc_of(blank);
    let lead = page_lead(serial, seq, granule, header_type);
    let lacing = lacing_table(packet.len());
    let full = packet.len() as int / 255;
    assert(lead.len() == 22);
    assert(seq![0u8, 0u8, 0u8, 0u8] =~= le_bytes(0, 4)) by {
        reveal_with_fuel(le_bytes, 5);
    }
    assert(p.take(22) + seq![0u8, 0u8, 0u8, 0u8] + p.skip(26) =~= blank);
    assert(p.subrange(6, 14) =~= le_bytes(granule as nat, 8));
    assert(p.subrange(14, 18) =~= le_bytes(serial as nat, 4));
    assert(p.subrange(18, 22) =~= le_bytes(seq as nat, 4));
    assert(p.subrange(22, 26) =~= le_bytes(crc as nat, 4));
    lemma_number8(p, 6, granule as nat);
    lemma_number4(p, 14, serial as nat);
    lemma_number4(p, 18, seq as nat);
    lemma_number4(p, 22, crc as nat);
    assert(forall|i: int| 0 <= i <= full ==> #[trigger] p[27 + i] == lacing[i]);
    assert(p[27 + full] == packet.len() % 255);
    assert(p.skip(28 + full) =~= packet);
}

/// What a decoder learns from the identification header.
pub struct HeadView {
    /// Channels.
    pub channels: u8,
    /// Samples to skip at the start.
    pub pre_skip: int,
    /// Sample rate of the input.
    pub sample_rate: int,
    /// Output gain.
    pub gain: int,
    /// Streams, coupled streams and channel table; `None` for mono and stereo in one stream.
    pub mapping: Option<(u8, u8, Seq<u8>)>,
}

/// Read an identification header as the Ogg Opus format lays it out: the magic `OpusHead`,
/// version 1, and a mapping family. Family 0 ends there; family 1 continues with the two
/// stream counts and the channel table.
pub open spec fn read_head(p: Seq<u8>) -> Option<HeadView> {
    if p.len() < 19 || p.take(8) != seq![79u8, 112, 117, 115, 72, 101, 97, 100] || p[8] != 1 {
        None
    } else {
        let fixed = HeadView {
            channels: p[9],
            pre_skip: p[10] + 256 * p[11],
            sample_rate: number4(p, 12),
            gain: p[16] + 256 * p[17],
            mapping: None,
        };
        if p[18] == 0 && p.len() == 19 {
            Some(fixed)
        } else if p[18] == 1 && p.len() >= 21 {
            Some(HeadView { mapping: Some((p[19], p[20], p.skip(21))), ..fixed })
        } else {
            None
        }
    }
}

/// A decoder reads from the identification header exactly what it was made from, with gain
/// zero: mapping family 0 and nothing more without a mapping, family 1 and the mapping with
/// one.
pub proof fn lemma_head_reads_back(head: &OpusHead)
    ensures
        read_head(head_packet(head)) == Some(
            HeadView {
                channels: head.channels,
                pre_skip: head.pre_skip as int,
                sample_rate: head.input_sample_rate as int,
                gain: 0,
                mapping: match head.mapping {
                    None => None,
                    Some(m) => Some((m.0, m.1, m.2@)),
                },
            },
        ),
        head_packet(head).len() == match head.mapping {
            None => 19,
            Some(m) => 21 + m.2@.len(),
        },
{
    broadcast use lemma_le_len;

    let p = head_packet(head);
    assert(pow256(2) == 65536) by {
        reveal_with_fuel(pow256, 3);
    }
    lemma_le_round_trip(head.pre_skip as nat, 2);
    lemma_le_round_trip(0, 2);
    assert(p.subrange(10, 12) =~= le_bytes(head.pre_skip as nat, 2));
    assert(p.subrange(12, 16) =~= le_bytes(head.input_sample_rate as nat, 4));
    assert(p.subrange(16, 18) =~= le_bytes(0, 2));
    lemma_fields_add_up(p.subrange(10, 12));
    lemma_fields_add_up(p.subrange(16, 18));
    lemma_number4(p, 12, head.input_sample_rate as nat);
    assert(p.take(8) =~= seq![79u8, 112, 117, 115, 72, 101, 97, 100]);
    match head.mapping {
        None => {},
        Some(m) => {
            assert(p.skip(21) =~= m.2@);
        },
    }
}

/// The comment header: the magic `OpusTags`, the vendor string with its length, and no
/// comments.
pub proof fn lemma_tags_layout()
    ensures
        tags_packet() == seq![79u8, 112, 117, 115, 84, 97, 103, 115] + seq![7u8, 0, 0, 0]
            + seq![112u8, 99, 109, 102, 108, 117, 120] + seq![0u8, 0, 0, 0],
{
    reveal_with_fuel(le_bytes, 5);
    broadcast use lemma_le_len;

    assert(le_bytes(7, 4) =~= seq![7u8, 0, 0, 0]);
    assert(le_bytes(0, 4) =~= seq![0u8, 0, 0, 0]);
}

/// A decoder that is handed a stream finds its settings on the first page: the page is marked
/// as the first, numbered 0, and its packet reads as the head that the stream was made with.
/// The second page, numbered 1, holds the comment header, and then comes whatever follows.
///
/// The channel table is short enough for the head to stay on one page.
pub proof fn lemma_stream_opens_with_head(serial: u32, head: &OpusHead, rest: Seq<u8>)
    requires
        head.mapping matches Some(m) ==> m.2@.len() < 255 * 255 - 21,
    ensures
        ({
            let stream = page_bytes(serial, 0, 0, BEGIN_OF_STREAM, head_packet(head)) + page_bytes(
                serial,
                1,
                0,
                0,
                tags_packet(),
            ) + rest;
            &&& read_page(stream) matches Some(first) && {
                &&& first.0.header_type == 2 && first.0.seq == 0 && first.0.granule == 0
                &&& first.0.serial == serial
                &&& read_head(first.0.packet) matches Some(h) && {
                    &&& h.channels == head.channels
                    &&& h.pre_skip == head.pre_skip
                    &&& h.sample_rate == head.input_sample_rate
                    &&& h.gain == 0
                    &&& h.mapping is None <==> head.mapping is None
                    &&& head.mapping matches Some(m) ==> h.mapping == Some((m.0, m.1, m.2@))
                }
                &&& read_page(first.1) matches Some(second) && {
                    &&& second.0.header_type == 0 && second.0.seq == 1 && second.0.granule == 0
                    &&& second.0.serial == serial
                    &&& second.0.packet == tags_packet()
                    &&& second.1 == rest
                }
            }
        }),
{
    lemma_head_reads_back(head);
    lemma_header_pages_read_back(serial, head, rest);
}

/// The first page of a stream is marked as such; page numbers follow one another, and start
/// over after the last 32-bit number. A consumer may fall behind by two seconds of 20 ms
/// packets.
pub proof fn lemma_page_numbers(seq: u32)
    ensures
        BEGIN_OF_STREAM == 2,
        CLIENT_QUEUE_CAP * 20 == 2000,
        next_seq(seq) == if seq == 0xffff_ffff {
            0
        } else {
            seq + 1
        },
{
}

proof fn lemma_number_after(seq: u32, i: int)
    requires
        i > 0,
    ensures
        (next_seq(seq) + (i - 1)) % 0x1_0000_0000 == (seq + i) % 0x1_0000_0000,
{
    if seq == 0xffff_ffff {
        lemma_mod_multiples_vanish(1, i - 1, 0x1_0000_0000);
    }
}

/// What a consumer reads of a stream, packet by packet: one page each, with the packet, its
/// granule and consecutive page numbers, none of them marked as the first of the stream.
pub proof fn lemma_pages_in_order(serial: u32, seq: u32, packets: Seq<(Seq<u8>, u64)>, i: int)
    requires
        0 <= i < packets.len(),
    ensures
        sent_pages(serial, seq, packets).len() == packets.len(),
        ({
            let page = sent_pages(serial, seq, packets)[i];
            &&& page.header_type == 0
            &&& page.granule == packets[i].1
            &&& page.serial == serial
            &&& page.seq == (seq + i) % 0x1_0000_0000
            &&& page.packet == packets[i].0
        }),
    decreases packets.len(),
{
    let rest = packets.skip(1);
    let later = sent_pages(serial, next_seq(seq), rest);
    if rest.len() == 0 {
        assert(later.len() == 0);
    } else if i == 0 {
        lemma_pages_in_order(serial, next_seq(seq), rest, 0);
    } else {
        lemma_pages_in_order(serial, next_seq(seq), rest, i - 1);
        lemma_number_after(seq, i);
        assert(rest[i - 1] == packets[i]);
        assert(sent_pages(serial, seq, packets)[i] == later[i - 1]);
    }
}

/// How many of the first `n` consumers took their page.
pub open spec fn took(outcomes: Seq<SendOutcome>, n: int) -> int
    decreases n,
{
    if n <= 0 {
        0
    } else if outcomes[n - 1] == SendOutcome::Sent {
        took(outcomes, n - 1) + 1
    } else {
        took(outcomes, n - 1)
    }
}

/// Consumer `i` stands at `place` in `list`.
pub open spec fn stands_at(list: Seq<u64>, place: int, id: u64) -> bool {
    0 <= place < list.len() && list[place] == id
}

/// Settling sorts the consumers into those that took their page and those that did not, each
/// in the place that those of its kind before it leave to it. So nobody is lost, doubled or
/// moved, and no consumer that keeps up is dropped.
pub proof fn lemma_settle_places(clients: Seq<u64>, outcomes: Seq<SendOutcome>)
    requires
        outcomes.len() >= clients.len(),
    ensures
        kept(clients, outcomes).len() == took(outcomes, clients.len() as int),
        dropped(clients, outcomes).len() == clients.len() - took(outcomes, clients.len() as int),
        forall|i: int|
            0 <= i < clients.len() && outcomes[i] is Sent ==> #[trigger] stands_at(
                kept(clients, outcomes),
                took(outcomes, i),
                clients[i],
            ),
        forall|i: int|
            0 <= i < clients.len() && !(outcomes[i] is Sent) ==> #[trigger] stands_at(
                dropped(clients, outcomes),
                i - took(outcomes, i),
                clients[i],
            ),
    decreases clients.len(),
{
    if clients.len() > 0 {
        let init = clients.drop_last();
        lemma_settle_places(init, outcomes);
        let k = kept(clients, outcomes);
        let d = dropped(clients, outcomes);
        assert forall|i: int| 0 <= i < clients.len() && outcomes[i] is Sent implies
            #[trigger] stands_at(k, took(outcomes, i), clients[i]) by {
            if i < init.len() {
                assert(stands_at(kept(init, outcomes), took(outcomes, i), init[i]));
            }
        }
        assert forall|i: int| 0 <= i < clients.len() && !(outcomes[i] is Sent) implies
            #[trigger] stands_at(d, i - took(outcomes, i), clients[i]) by {
            if i < init.len() {
                assert(stands_at(dropped(init, outcomes), i - took(outcomes, i), init[i]));
            }
        }
    }
}

} // verus!
