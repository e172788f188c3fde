//! Ogg Opus framing: pages, the two stream headers, and the page sequence of one stream.
//!
//! A consumer of the stream reads the `OpusHead` and `OpusTags` pages, then one page per
//! encoded packet. `read_page` is that consumer's side; what it reads back from the bytes
//! produced here is stated by `lemma_page_reads_back` and `lemma_header_pages_read_back`.

use vstd::prelude::*;

use crate::wire::{from_le, le_bytes, lemma_le_len, lemma_le_round_trip, pow256, push_le, push_slice};

verus! {

/// The Ogg page checksum's polynomial, applied to the whole page with the field zeroed.
pub const CRC_POLY: u32 = 0x04c1_1db7;

/// Per-consumer backlog: two seconds of 20 ms packets before a consumer is dropped.
pub const CLIENT_QUEUE_CAP: usize = 100;

/// Header type of the page that begins a stream.
pub const BEGIN_OF_STREAM: u8 = 2;

/// Bit `i` of a byte, counted from the most significant one.
pub open spec fn msb_bit(b: u8, i: u32) -> bool {
    (b >> ((7 - i) as u8)) & 1u8 == 1u8
}

/// One message bit through the checksum register: the register shifts left by one, and the
/// polynomial is subtracted where the bit shifted out differs from the message bit.
pub open spec fn crc_step(crc: u32, bit: bool) -> u32 {
    if (crc >= 0x8000_0000u32) != bit {
        (crc << 1u32) ^ CRC_POLY
    } else {
        crc << 1u32
    }
}

/// The register after the first `n` bits of `b`, most significant bit first.
pub open spec fn crc_bits(crc: u32, b: u8, n: nat) -> u32
    decreases n,
{
    if n == 0 {
        crc
    } else {
        crc_step(crc_bits(crc, b, (n - 1) as nat), msb_bit(b, (n - 1) as u32))
    }
}

/// The checksum of `data`: every bit of it, in order, through a register that starts at zero.
pub open spec fn crc_of(data: Seq<u8>) -> u32
    decreases data.len(),
{
    if data.len() == 0 {
        0
    } else {
        crc_bits(crc_of(data.drop_last()), data.last(), 8)
    }
}

proof fn lemma_crc_shift(c: u32, b: u8, j: u32)
    by (bit_vector)
    requires
        j < 8,
    ensures
        ({
            let r = ((b as u32) << 24u32) << j;
            let x = c ^ r;
            let s = if x & 0x8000_0000u32 != 0u32 {
                (x << 1u32) ^ 0x04c1_1db7u32
            } else {
                x << 1u32
            };
            let t = if (c >= 0x8000_0000u32) != ((b >> ((7 - j) as u8)) & 1u8 == 1u8) {
                (c << 1u32) ^ 0x04c1_1db7u32
            } else {
                c << 1u32
            };
            s == t ^ (((b as u32) << 24u32) << ((j + 1) as u32))
        }),
{
}

/// The Ogg checksum of `data`.
pub fn crc32(data: &[u8]) -> (crc: u32)
    ensures
        crc == crc_of(data@),
{
    let mut crc: u32 = 0;
    let mut i: usize = 0;
    while i < data.len()
        invariant
            i <= data@.len(),
            crc == crc_of(data@.take(i as int)),
        decreases data@.len() - i,
    {
        let b: u8 = data[i];
        let ghost c0 = crc;
        crc = crc ^ ((b as u32) << 24u32);
        let mut j: u32 = 0;
        assert(crc == c0 ^ (((b as u32) << 24u32) << 0u32)) by (bit_vector)
            requires
                crc == c0 ^ ((b as u32) << 24u32),
        ;
        while j < 8
            invariant
                j <= 8,
                crc == crc_bits(c0, b, j as nat) ^ (((b as u32) << 24u32) << j),
            decreases 8 - j,
        {
            proof {
                lemma_crc_shift(crc_bits(c0, b, j as nat), b, j);
            }
            crc = if crc & 0x8000_0000u32 != 0 {
                (crc << 1u32) ^ CRC_POLY
            } else {
                crc << 1u32
            };
            j = j + 1;
        }
        proof {
            let c8 = crc_bits(c0, b, 8);
            assert(c8 ^ (((b as u32) << 24u32) << 8u32) == c8) by (bit_vector);
            let next = data@.take(i + 1);
            assert(next.drop_last() =~= data@.take(i as int));
        }
        i = i + 1;
    }
    assert(data@.take(i as int) =~= data@);
    crc
}


/// What `OpusHead` tells a decoder; `mapping` is `(streams, coupled, table)` for channel
/// mapping family 1, absent for family 0 (mono and stereo).
pub struct OpusHead {
    pub channels: u8,
    pub pre_skip: u16,
    pub input_sample_rate: u32,
    pub mapping: Option<(u8, u8, Vec<u8>)>,
}

/// The lacing table of a packet: a segment of 255 bytes for each full 255, then one short
/// segment (empty when the length is a multiple of 255) that closes the packet.
pub open spec fn lacing_table(len: nat) -> Seq<u8> {
    Seq::new(
        len / 255 + 1,
        |i: int|
            if i < len / 255 {
                255u8
            } else {
                (len % 255) as u8
            },
    )
}

/// `OggS`.
pub open spec fn capture_pattern() -> Seq<u8> {
    seq![0x4fu8, 0x67u8, 0x67u8, 0x53u8]
}

/// What precedes the checksum field of a page: capture pattern, version, header type,
/// granule position, serial number and page sequence number.
pub open spec fn page_lead(serial: u32, seq: u32, granule: u64, header_type: u8) -> Seq<u8> {
    capture_pattern() + seq![0u8, header_type] + le_bytes(granule as nat, 8) + le_bytes(
        serial as nat,
        4,
    ) + le_bytes(seq as nat, 4)
}

/// What follows the checksum field of a page: segment count, lacing table and packet. The
/// count is one byte, so it holds the number of segments only up to 255 of them.
pub open spec fn page_trail(packet: Seq<u8>) -> Seq<u8> {
    seq![((packet.len() / 255 + 1) % 256) as u8] + lacing_table(packet.len()) + packet
}

/// A page that carries one packet, with `crc` in the checksum field.
pub open spec fn page_with(
    serial: u32,
    seq: u32,
    granule: u64,
    header_type: u8,
    packet: Seq<u8>,
    crc: u32,
) -> Seq<u8> {
    page_lead(serial, seq, granule, header_type) + le_bytes(crc as nat, 4) + page_trail(packet)
}

/// A page that carries one packet, checksummed over the page with the field zeroed.
pub open spec fn page_bytes(
    serial: u32,
    seq: u32,
    granule: u64,
    header_type: u8,
    packet: Seq<u8>,
) -> Seq<u8> {
    page_with(
        serial,
        seq,
        granule,
        header_type,
        packet,
        crc_of(page_with(serial, seq, granule, header_type, packet, 0)),
    )
}

/// `page_lead` is the first 22 bytes of a page.
proof fn lemma_lead_len(serial: u32, seq: u32, granule: u64, header_type: u8)
    ensures
        page_lead(serial, seq, granule, header_type).len() == 22,
{
    broadcast use lemma_le_len;

}

/// Append the lacing table of a packet of `len` bytes.
fn push_lacing(out: &mut Vec<u8>, len: usize)
    ensures
        final(out)@ == old(out)@ + lacing_table(len as nat),
{
    let ghost start = out@;
    let full: usize = len / 255;
    let mut i: usize = 0;
    while i < full
        invariant
            i <= full,
            full == len / 255,
            out@ == start + lacing_table(len as nat).take(i as int),
        decreases full - i,
    {
        out.push(255);
        i = i + 1;
        assert(out@ =~= start + lacing_table(len as nat).take(i as int));
    }
    out.push((len % 255) as u8);
    assert(out@ =~= start + lacing_table(len as nat));
}

/// One page carrying one packet: the lacing table splits it into 255-byte segments, a
/// final short segment (empty when the length is a multiple of 255) closing it.
pub fn page(serial: u32, seq: u32, granule: u64, header_type: u8, packet: &[u8]) -> (out: Vec<u8>)
    ensures
        out@ == page_bytes(serial, seq, granule, header_type, packet@),
{
    let mut out: Vec<u8> = Vec::new();
    out.push(0x4f);
    out.push(0x67);
    out.push(0x67);
    out.push(0x53);
    out.push(0);
    out.push(header_type);
    assert(out@ =~= capture_pattern() + seq![0u8, header_type]);
    push_le(&mut out, granule, 8);
    push_le(&mut out, serial as u64, 4);
    push_le(&mut out, seq as u64, 4);
    let ghost lead = out@;
    assert(lead == page_lead(serial, seq, granule, header_type));
    push_le(&mut out, 0, 4);
    let len: usize = packet.len();
    let segments: u64 = len as u64 / 255 + 1;
    out.push((segments % 256) as u8);
    push_lacing(&mut out, len);
    push_slice(&mut out, packet);
    proof {
        lemma_lead_len(serial, seq, granule, header_type);
        lemma_le_len(0, 4);
        assert(out@ =~= lead + le_bytes(0, 4) + page_trail(packet@));
    }
    let crc: u32 = crc32(out.as_slice());
    let ghost unsigned = out@;
    let mut sum: Vec<u8> = Vec::new();
    push_le(&mut sum, crc as u64, 4);
    assert(sum@ =~= le_bytes(crc as nat, 4));
    proof {
        lemma_le_len(crc as nat, 4);
    }
    let mut k: usize = 0;
    while k < 4
        invariant
            k <= 4,
            sum@.len() == 4,
            unsigned.len() >= 26,
            out@.len() == unsigned.len(),
            forall|i: int|
                0 <= i < out@.len() ==> #[trigger] out@[i] == if 22 <= i < 22 + k {
                    sum@[i - 22]
                } else {
                    unsigned[i]
                },
        decreases 4 - k,
    {
        out[22 + k] = sum[k];
        k = k + 1;
    }
    assert(out@ =~= lead + sum@ + page_trail(packet@));
    out
}

/// `OpusHead` followed by what a decoder needs to know.
pub open spec fn head_packet(head: &OpusHead) -> Seq<u8> {
    seq![0x4fu8, 0x70u8, 0x75u8, 0x73u8, 0x48u8, 0x65u8, 0x61u8, 0x64u8, 1u8, head.channels]
        + le_bytes(head.pre_skip as nat, 2) + le_bytes(head.input_sample_rate as nat, 4) + le_bytes(
        0,
        2,
    ) + match head.mapping {
        None => seq![0u8],
        Some(m) => seq![1u8, m.0, m.1] + m.2@,
    }
}

/// `OpusTags` with the vendor string `pcmflux` and no comments.
pub open spec fn tags_packet() -> Seq<u8> {
    seq![0x4fu8, 0x70u8, 0x75u8, 0x73u8, 0x54u8, 0x61u8, 0x67u8, 0x73u8] + le_bytes(7, 4)
        + seq![0x70u8, 0x63u8, 0x6du8, 0x66u8, 0x6cu8, 0x75u8, 0x78u8] + le_bytes(0, 4)
}

/// The identification and comment headers as the stream's first two pages.
pub fn header_pages(serial: u32, head: &OpusHead) -> (out: Vec<u8>)
    ensures
        out@ == page_bytes(serial, 0, 0, BEGIN_OF_STREAM, head_packet(head)) + page_bytes(
            serial,
            1,
            0,
            0,
            tags_packet(),
        ),
{
    let mut id: Vec<u8> = vec![0x4f, 0x70, 0x75, 0x73, 0x48, 0x65, 0x61, 0x64];
    id.push(1);
    id.push(head.channels);
    push_le(&mut id, head.pre_skip as u64, 2);
    push_le(&mut id, head.input_sample_rate as u64, 4);
    push_le(&mut id, 0, 2);
    match &head.mapping {
        None => {
            id.push(0);
        },
        Some(m) => {
            id.push(1);
            id.push(m.0);
            id.push(m.1);
            push_slice(&mut id, m.2.as_slice());
        },
    }
    assert(id@ =~= head_packet(head));
    let mut tags: Vec<u8> = vec![0x4f, 0x70, 0x75, 0x73, 0x54, 0x61, 0x67, 0x73];
    push_le(&mut tags, 7, 4);
    let vendor: Vec<u8> = vec![0x70, 0x63, 0x6d, 0x66, 0x6c, 0x75, 0x78];
    push_slice(&mut tags, vendor.as_slice());
    push_le(&mut tags, 0, 4);
    assert(tags@ =~= tags_packet());
    let mut out: Vec<u8> = page(serial, 0, 0, BEGIN_OF_STREAM, id.as_slice());
    let second: Vec<u8> = page(serial, 1, 0, 0, tags.as_slice());
    push_slice(&mut out, second.as_slice());
    out
}

/// What a page holds, as a consumer reads it.
pub struct PageView {
    pub header_type: u8,
    pub granule: nat,
    pub serial: nat,
    pub seq: nat,
    pub packet: Seq<u8>,
}

/// The number of body bytes that a lacing table announces.
pub open spec fn segment_sum(lacing: Seq<u8>) -> nat
    decreases lacing.len(),
{
    if lacing.len() == 0 {
        0
    } else {
        segment_sum(lacing.drop_last()) + lacing.last() as nat
    }
}

/// The first page of a stream and what follows it: the capture pattern, a whole page, and a
/// stored checksum that the polynomial reproduces over the page with the field zeroed.
pub open spec fn read_page(stream: Seq<u8>) -> Option<(PageView, Seq<u8>)> {
    if stream.len() < 27 || stream.take(4) != capture_pattern() {
        None
    } else {
        let segments = stream[26] as int;
        if stream.len() < 27 + segments {
            None
        } else {
            let body = 27 + segments;
            let end = body + segment_sum(stream.subrange(27, body)) as int;
            if stream.len() < end {
                None
            } else {
                let zeroed = stream.take(22) + seq![0u8, 0u8, 0u8, 0u8] + stream.subrange(26, end);
                if crc_of(zeroed) != from_le(stream.subrange(22, 26)) {
                    None
                } else {
                    Some(
                        (
                            PageView {
                                header_type: stream[5],
                                granule: from_le(stream.subrange(6, 14)),
                                serial: from_le(stream.subrange(14, 18)),
                                seq: from_le(stream.subrange(18, 22)),
                                packet: stream.subrange(body, end),
                            },
                            stream.skip(end),
                        ),
                    )
                }
            }
        }
    }
}

proof fn lemma_segment_sum_full(n: nat)
    ensures
        segment_sum(Seq::new(n, |i: int| 255u8)) == 255 * n,
    decreases n,
{
    if n > 0 {
        let s = Seq::new(n, |i: int| 255u8);
        assert(s.drop_last() =~= Seq::new((n - 1) as nat, |i: int| 255u8));
        lemma_segment_sum_full((n - 1) as nat);
    }
}

/// A lacing table announces exactly the packet's bytes.
proof fn lemma_lacing_sum(len: nat)
    ensures
        segment_sum(lacing_table(len)) == len,
{
    let t = lacing_table(len);
    assert(t.drop_last() =~= Seq::new(len / 255, |i: int| 255u8));
    lemma_segment_sum_full(len / 255);
}

/// A consumer reads back exactly what a page was made from, and stops at the page's end.
/// Stated of packets whose segment count fits the page's count byte.
pub proof fn lemma_page_reads_back(
    serial: u32,
    seq: u32,
    granule: u64,
    header_type: u8,
    packet: Seq<u8>,
    rest: Seq<u8>,
)
    requires
        packet.len() < 255 * 255,
    ensures
        read_page(page_bytes(serial, seq, granule, header_type, packet) + rest) == Some(
            (
                PageView {
                    header_type,
                    granule: granule as nat,
                    serial: serial as nat,
                    seq: seq as nat,
                    packet,
                },
                rest,
            ),
        ),
{
    broadcast use lemma_le_len;

    let lead = page_lead(serial, seq, granule, header_type);
    let blank = page_with(serial, seq, granule, header_type, packet, 0);
    let crc = crc_of(blank);
    let field = le_bytes(crc as nat, 4);
    let trail = page_trail(packet);
    let p = page_bytes(serial, seq, granule, header_type, packet);
    let stream = p + rest;
    let lacing = lacing_table(packet.len());
    let n = (packet.len() / 255 + 1) as int;
    lemma_lead_len(serial, seq, granule, header_type);
    assert(stream.take(4) =~= capture_pattern());
    assert(stream[26] == trail[0]);
    assert(stream[26] == n);
    assert(stream.subrange(27, 27 + n) =~= lacing);
    lemma_lacing_sum(packet.len());
    let end = 27 + n + packet.len();
    assert(p.len() == end);
    assert(seq![0u8, 0u8, 0u8, 0u8] =~= le_bytes(0, 4)) by {
        reveal_with_fuel(le_bytes, 5);
    }
    assert(stream.take(22) + seq![0u8, 0u8, 0u8, 0u8] + stream.subrange(26, end) =~= blank);
    assert(stream.subrange(22, 26) =~= field);
    assert(pow256(4) == 0x1_0000_0000 && pow256(8) == 0x1_0000_0000_0000_0000) by {
        reveal_with_fuel(pow256, 9);
    }
    lemma_le_round_trip(crc as nat, 4);
    lemma_le_round_trip(granule as nat, 8);
    lemma_le_round_trip(serial as nat, 4);
    lemma_le_round_trip(seq as nat, 4);
    assert(stream[5] == header_type);
    assert(stream.subrange(6, 14) =~= le_bytes(granule as nat, 8));
    assert(stream.subrange(14, 18) =~= le_bytes(serial as nat, 4));
    assert(stream.subrange(18, 22) =~= le_bytes(seq as nat, 4));
    assert(stream.subrange(27 + n, end) =~= packet);
    assert(stream.skip(end) =~= rest);
}

/// The stream opens with two pages, numbered 0 and 1, that hold the identification and the
/// comment header. Stated of mapping tables that keep the identification header in one page.
pub proof fn lemma_header_pages_read_back(serial: u32, head: &OpusHead, rest: Seq<u8>)
    requires
        head_packet(head).len() < 255 * 255,
    ensures
        ({
            let first = page_bytes(serial, 0, 0, BEGIN_OF_STREAM, head_packet(head));
            let second = page_bytes(serial, 1, 0, 0, tags_packet());
            &&& read_page(first + second + rest) == Some(
                (
                    PageView {
                        header_type: BEGIN_OF_STREAM,
                        granule: 0,
                        serial: serial as nat,
                        seq: 0,
                        packet: head_packet(head),
                    },
                    second + rest,
                ),
            )
            &&& read_page(second + rest) == Some(
                (
                    PageView {
                        header_type: 0,
                        granule: 0,
                        serial: serial as nat,
                        seq: 1,
                        packet: tags_packet(),
                    },
                    rest,
                ),
            )
        }),
{
    broadcast use lemma_le_len;

    let first = page_bytes(serial, 0, 0, BEGIN_OF_STREAM, head_packet(head));
    let second = page_bytes(serial, 1, 0, 0, tags_packet());
    assert(first + second + rest =~= first + (second + rest));
    lemma_page_reads_back(serial, 0, 0, BEGIN_OF_STREAM, head_packet(head), second + rest);
    lemma_page_reads_back(serial, 1, 0, 0, tags_packet(), rest);
}

/// The sequence number of the page after page `seq`.
pub open spec fn next_seq(seq: u32) -> u32 {
    ((seq + 1) % 0x1_0000_0000) as u32
}

/// The pages of `packets`, each `(packet, granule)`, from sequence number `seq` on.
pub open spec fn stream_bytes(serial: u32, seq: u32, packets: Seq<(Seq<u8>, u64)>) -> Seq<u8>
    decreases packets.len(),
{
    if packets.len() == 0 {
        Seq::empty()
    } else {
        page_bytes(serial, seq, packets[0].1, 0, packets[0].0) + stream_bytes(
            serial,
            next_seq(seq),
            packets.skip(1),
        )
    }
}

/// The pages that a consumer reads from a stream, up to the first that is not one.
pub open spec fn read_pages(stream: Seq<u8>) -> Seq<PageView>
    decreases stream.len(),
{
    match read_page(stream) {
        None => Seq::empty(),
        Some(r) => if r.1.len() < stream.len() {
            seq![r.0] + read_pages(r.1)
        } else {
            Seq::empty()
        },
    }
}

/// What a consumer is to read of `packets` sent from sequence number `seq` on.
pub open spec fn sent_pages(serial: u32, seq: u32, packets: Seq<(Seq<u8>, u64)>) -> Seq<PageView>
    decreases packets.len(),
{
    if packets.len() == 0 {
        Seq::empty()
    } else {
        seq![
            PageView {
                header_type: 0,
                granule: packets[0].1 as nat,
                serial: serial as nat,
                seq: seq as nat,
                packet: packets[0].0,
            },
        ] + sent_pages(serial, next_seq(seq), packets.skip(1))
    }
}

/// A consumer of a stream reads every packet, in order, with the granule it was given and
/// with consecutive page numbers.
pub proof fn lemma_stream_reads_back(serial: u32, seq: u32, packets: Seq<(Seq<u8>, u64)>)
    requires
        forall|i: int| 0 <= i < packets.len() ==> (#[trigger] packets[i]).0.len() < 255 * 255,
    ensures
        read_pages(stream_bytes(serial, seq, packets)) == sent_pages(serial, seq, packets),
    decreases packets.len(),
{
    if packets.len() > 0 {
        let rest = stream_bytes(serial, next_seq(seq), packets.skip(1));
        lemma_stream_reads_back(serial, next_seq(seq), packets.skip(1));
        lemma_page_reads_back(serial, seq, packets[0].1, 0, packets[0].0, rest);
        lemma_lead_len(serial, seq, packets[0].1, 0);
    } else {
        assert(stream_bytes(serial, seq, packets).len() == 0);
    }
}

/// How handing a page to one consumer's bounded queue ended.
#[derive(Clone, Copy, PartialEq, Eq, Structural, Debug)]
pub enum SendOutcome {
    Sent,
    Full,
    Disconnected,
}

/// One Ogg Opus stream served to every consumer of a socket: the stream's serial number, the
/// number of its next page, and the consumers that are still keeping up.
///
/// A consumer that falls behind is dropped rather than waited on, so the stream never
/// perturbs the capture.
pub struct OggSink {
    pub path: String,
    pub serial: u32,
    pub seq: u32,
    pub clients: Vec<u64>,
}

/// The consumers whose page was taken, in their order.
pub open spec fn kept(clients: Seq<u64>, outcomes: Seq<SendOutcome>) -> Seq<u64>
    decreases clients.len(),
{
    if clients.len() == 0 {
        Seq::empty()
    } else {
        let before = kept(clients.drop_last(), outcomes);
        if outcomes[clients.len() - 1] == SendOutcome::Sent {
            before.push(clients.last())
        } else {
            before
        }
    }
}

/// The consumers whose queue was full or gone, in their order.
pub open spec fn dropped(clients: Seq<u64>, outcomes: Seq<SendOutcome>) -> Seq<u64>
    decreases clients.len(),
{
    if clients.len() == 0 {
        Seq::empty()
    } else {
        let before = dropped(clients.drop_last(), outcomes);
        if outcomes[clients.len() - 1] == SendOutcome::Sent {
            before
        } else {
            before.push(clients.last())
        }
    }
}

impl OggSink {
    /// True when a socket path is configured at all; without one no socket is touched.
    pub fn configured(path: &str) -> (r: bool)
        ensures
            r == (path@.len() > 0),
    {
        !path.is_empty()
    }

    /// The sink at `path`, or `None` when no path is configured or the socket could not be
    /// bound: the sink is optional and never takes the capture down. The serial number mixes
    /// the process id with the clock's nanoseconds, and pages 0 and 1 are the headers.
    pub fn try_bind(path: &str, bound: bool, pid: u32, subsec_nanos: u32) -> (sink: Option<OggSink>)
        ensures
            sink is Some <==> path@.len() > 0 && bound,
            sink matches Some(s) ==> s.path@ == path@ && s.serial == pid ^ subsec_nanos && s.seq
                == 2 && s.clients@.len() == 0,
    {
        if !OggSink::configured(path) || !bound {
            return None;
        }
        Some(
            OggSink {
                path: path.to_owned(),
                serial: pid ^ subsec_nanos,
                seq: 2,
                clients: Vec::new(),
            },
        )
    }

    /// What a new consumer is sent before any packet.
    pub fn headers(&self, head: &OpusHead) -> (out: Vec<u8>)
        ensures
            out@ == page_bytes(self.serial, 0, 0, BEGIN_OF_STREAM, head_packet(head)) + page_bytes(
                self.serial,
                1,
                0,
                0,
                tags_packet(),
            ),
    {
        header_pages(self.serial, head)
    }

    /// Admit a consumer.
    pub fn connect(&mut self, id: u64)
        ensures
            final(self).clients@ == old(self).clients@.push(id),
            final(self).path == old(self).path,
            final(self).serial == old(self).serial,
            final(self).seq == old(self).seq,
    {
        self.clients.push(id);
    }

    /// The page of one packet; `granule` is the 48 kHz sample count at its end. Every page
    /// takes the next sequence number, whoever is there to read it.
    pub fn write_packet(&mut self, packet: &[u8], granule: u64) -> (bytes: Vec<u8>)
        ensures
            bytes@ == page_bytes(old(self).serial, old(self).seq, granule, 0, packet@),
            final(self).seq == next_seq(old(self).seq),
            final(self).path == old(self).path,
            final(self).serial == old(self).serial,
            final(self).clients == old(self).clients,
    {
        let bytes: Vec<u8> = page(self.serial, self.seq, granule, 0, packet);
        self.seq = self.seq.wrapping_add(1);
        bytes
    }

    /// Keep the consumers that took the page, and return the others to be shut down.
    pub fn settle(&mut self, outcomes: &Vec<SendOutcome>) -> (gone: Vec<u64>)
        requires
            outcomes@.len() == old(self).clients@.len(),
        ensures
            final(self).clients@ == kept(old(self).clients@, outcomes@),
            gone@ == dropped(old(self).clients@, outcomes@),
            final(self).path == old(self).path,
            final(self).serial == old(self).serial,
            final(self).seq == old(self).seq,
    {
        let mut stay: Vec<u64> = Vec::new();
        let mut gone: Vec<u64> = Vec::new();
        let mut i: usize = 0;
        while i < self.clients.len()
            invariant
                i <= self.clients@.len(),
                outcomes@.len() == self.clients@.len(),
                *self == *old(self),
                stay@ == kept(self.clients@.take(i as int), outcomes@),
                gone@ == dropped(self.clients@.take(i as int), outcomes@),
            decreases self.clients@.len() - i,
        {
            let id: u64 = self.clients[i];
            if outcomes[i] == SendOutcome::Sent {
                stay.push(id);
            } else {
                gone.push(id);
            }
            i = i + 1;
            assert(self.clients@.take(i as int).drop_last() =~= self.clients@.take(i - 1));
        }
        assert(self.clients@.take(i as int) =~= self.clients@);
        self.clients = stay;
        gone
    }

    /// Let go of every consumer, returning them to be shut down.
    pub fn shutdown(&mut self) -> (gone: Vec<u64>)
        ensures
            gone@ == old(self).clients@,
            final(self).clients@.len() == 0,
            final(self).path == old(self).path,
            final(self).serial == old(self).serial,
            final(self).seq == old(self).seq,
    {
        let mut gone: Vec<u64> = Vec::new();
        std::mem::swap(&mut gone, &mut self.clients);
        gone
    }
}

/// Settling loses no consumer: each one is either kept or handed back.
pub proof fn lemma_settle_partitions(clients: Seq<u64>, outcomes: Seq<SendOutcome>)
    requires
        outcomes.len() >= clients.len(),
    ensures
        kept(clients, outcomes).len() + dropped(clients, outcomes).len() == clients.len(),
        forall|i: int|
            0 <= i < clients.len() && outcomes[i] == SendOutcome::Sent ==> kept(
                clients,
                outcomes,
            ).contains(#[trigger] clients[i]),
        forall|i: int|
            0 <= i < clients.len() && outcomes[i] != SendOutcome::Sent ==> dropped(
                clients,
                outcomes,
            ).contains(#[trigger] clients[i]),
    decreases clients.len(),
{
    if clients.len() > 0 {
        let init = clients.drop_last();
        lemma_settle_partitions(init, outcomes);
        let k = kept(init, outcomes);
        let d = dropped(init, outcomes);
        assert forall|i: int|
            0 <= i < clients.len() && outcomes[i] == SendOutcome::Sent implies kept(
            clients,
            outcomes,
        ).contains(#[trigger] clients[i]) by {
            if i < init.len() {
                assert(k.contains(init[i]));
                let j = choose|j: int| 0 <= j < k.len() && k[j] == init[i];
                assert(kept(clients, outcomes)[j] == clients[i]);
            } else {
                assert(kept(clients, outcomes).last() == clients[i]);
            }
        }
        assert forall|i: int|
            0 <= i < clients.len() && outcomes[i] != SendOutcome::Sent implies dropped(
            clients,
            outcomes,
        ).contains(#[trigger] clients[i]) by {
            if i < init.len() {
                assert(d.contains(init[i]));
                let j = choose|j: int| 0 <= j < d.len() && d[j] == init[i];
                assert(dropped(clients, outcomes)[j] == clients[i]);
            } else {
                assert(dropped(clients, outcomes).last() == clients[i]);
            }
        }
    }
}

} // verus!
