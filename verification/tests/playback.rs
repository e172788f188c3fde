use pcmflux::playback::{reopened, OpusPlaybackDecoder, PlaybackStats};
use pcmflux::queue::PlayQueue;
use pcmflux::red::RED_BLOCK_PT;
use pcmflux::session::Reaction;
use pcmflux::wire::{push_pcm, read_pcm};

/// Each decoded 20 ms mono frame is 480 samples of 2 bytes.
const FRAME_PCM_BYTES: usize = 480 * 2;

fn build_red_payload(reds: &[(u64, &[u8])], primary: &[u8]) -> Vec<u8> {
    let mut v = Vec::new();
    for (off, blk) in reds {
        let field = (((*off as u32) & 0x3FFF) << 10) | ((blk.len() as u32) & 0x3FF);
        v.push(0x80 | (RED_BLOCK_PT & 0x7F));
        v.push((field >> 16) as u8);
        v.push((field >> 8) as u8);
        v.push(field as u8);
    }
    v.push(RED_BLOCK_PT & 0x7F);
    for (_, blk) in reds {
        v.extend_from_slice(blk);
    }
    v.extend_from_slice(primary);
    v
}

/// Distinct packets.
fn opus_frames(n: usize) -> Vec<Vec<u8>> {
    (0..n).map(|s| (0..40).map(|k| (k * (s + 1)) as u8).collect()).collect()
}

/// A decoder for which every packet is 20 ms of its first byte but one.
fn decode(packet: &[u8]) -> Option<Vec<i16>> {
    Some(vec![packet[1] as i16; 480])
}

fn decode_red_into_queue(
    dec: &mut OpusPlaybackDecoder,
    payload: &[u8],
    ts: i64,
    queue: &mut PlayQueue,
) {
    let ranges = dec.begin_red(payload, ts);
    let decoded: Vec<Option<Vec<i16>>> =
        ranges.iter().map(|&(start, len)| decode(&payload[start..start + len])).collect();
    dec.finish_red(&decoded, queue);
}

#[test]
fn red_playback_timestamp_wraparound() {
    let f = opus_frames(3);
    let mut dec = OpusPlaybackDecoder::new(true, 1).unwrap();
    let mut q = PlayQueue::new();
    q.configure(1 << 20, 2);
    let wrap = (u32::MAX as i64) - 100;
    decode_red_into_queue(&mut dec, &build_red_payload(&[], &f[0]), wrap, &mut q);
    let next = (wrap.wrapping_add(480)) & 0xFFFF_FFFF;
    decode_red_into_queue(&mut dec, &build_red_payload(&[(480, &f[0])], &f[1]), next, &mut q);
    let mut out = Vec::new();
    q.drain_upto(1 << 20, &mut out);
    assert_eq!(
        out.len(),
        2 * FRAME_PCM_BYTES,
        "frame after the 32-bit wrap was dropped as a duplicate"
    );
}

#[test]
fn red_playback_recovers_lost_frame() {
    let f = opus_frames(3);
    let mut dec = OpusPlaybackDecoder::new(true, 1).unwrap();
    let mut q = PlayQueue::new();
    q.configure(1 << 20, 2);

    decode_red_into_queue(&mut dec, &build_red_payload(&[], &f[0]), 1000, &mut q);
    let pkt3 = build_red_payload(&[(960, &f[0]), (480, &f[1])], &f[2]);
    decode_red_into_queue(&mut dec, &pkt3, 1960, &mut q);

    let mut out = Vec::new();
    q.drain_upto(1 << 20, &mut out);
    assert_eq!(out.len(), 3 * FRAME_PCM_BYTES);
    assert_eq!(dec.last_ts(), Some(1960));
    let samples = read_pcm(&out);
    assert_eq!((samples[0], samples[480], samples[960]), (1, 2, 3));
}

#[test]
fn red_playback_no_double_decode() {
    let f = opus_frames(3);
    let mut dec = OpusPlaybackDecoder::new(true, 1).unwrap();
    let mut q = PlayQueue::new();
    q.configure(1 << 20, 2);

    decode_red_into_queue(&mut dec, &build_red_payload(&[], &f[0]), 1000, &mut q);
    decode_red_into_queue(&mut dec, &build_red_payload(&[(480, &f[0])], &f[1]), 1480, &mut q);
    decode_red_into_queue(&mut dec, &build_red_payload(&[(480, &f[1])], &f[2]), 1960, &mut q);

    let mut out = Vec::new();
    q.drain_upto(1 << 20, &mut out);
    assert_eq!(out.len(), 3 * FRAME_PCM_BYTES);
    assert_eq!(dec.last_ts(), Some(1960));
}

#[test]
fn decoder_needs_creating() {
    assert!(OpusPlaybackDecoder::new(false, 2).is_none());
    assert_eq!(OpusPlaybackDecoder::new(true, 0).unwrap().scratch_len(), 5760);
    assert_eq!(OpusPlaybackDecoder::new(true, 2).unwrap().scratch_len(), 11520);
    assert_eq!(OpusPlaybackDecoder::new(true, 2).unwrap().last_ts(), None);
    assert!(OpusPlaybackDecoder::mono(1) && OpusPlaybackDecoder::mono(-3));
    assert!(!OpusPlaybackDecoder::mono(2));
}

#[test]
fn pcm_is_little_endian_and_interleaved() {
    let dec = OpusPlaybackDecoder::new(true, 2).unwrap();
    let scratch = [1i16, -1, 0x1234, i16::MIN, 99, 99];
    assert_eq!(
        dec.decode_to_pcm(&[5], &scratch, Some(2)),
        Some(vec![1, 0, 0xFF, 0xFF, 0x34, 0x12, 0x00, 0x80])
    );
    assert_eq!(dec.decoded_samples(&scratch, Some(2)), Some(vec![1, -1, 0x1234, i16::MIN]));
    assert_eq!(dec.decoded_samples(&scratch, None), None);
    assert_eq!(dec.decode_to_pcm(&[], &scratch, Some(2)), None);
    assert_eq!(dec.decode_to_pcm(&[5], &scratch, None), None);
    assert_eq!(dec.decode_to_pcm(&[5], &scratch, Some(0)), Some(vec![]));
}

#[test]
fn pcm_round_trips() {
    let samples = [0i16, 1, -1, i16::MAX, i16::MIN, 255, 256, -256];
    let mut bytes = Vec::new();
    push_pcm(&mut bytes, &samples);
    assert_eq!(read_pcm(&bytes), samples.to_vec());
    assert_eq!(read_pcm(&[1, 2, 3]), vec![0x0201]);
}

#[test]
fn undecodable_packets_leave_no_gap() {
    let dec = OpusPlaybackDecoder::new(true, 1).unwrap();
    let mut q = PlayQueue::new();
    dec.finish_red(&vec![Some(vec![1i16]), None, Some(vec![2i16, 3])], &mut q);
    let mut out = Vec::new();
    q.drain_upto(100, &mut out);
    assert_eq!(out, vec![1, 0, 2, 0, 3, 0]);
}

#[test]
fn outage_empties_the_queue() {
    let mut q = PlayQueue::new();
    q.push(&[1, 2, 3, 4]);
    reopened(Reaction::Started, &mut q);
    assert_eq!(q.len(), 4);
    reopened(Reaction::Resumed, &mut q);
    assert_eq!(q.len(), 0);
}

#[test]
fn server_gets_what_it_can_take() {
    let mut q = PlayQueue::new();
    let mut stats = PlaybackStats::new();
    let mut out = vec![7u8];
    q.push(&[1, 2, 3, 4, 5, 6]);
    assert!(!stats.fill(None, &mut q, &mut out));
    assert!(!stats.fill(Some(0), &mut q, &mut out));
    assert_eq!(out, vec![7]);
    assert!(stats.fill(Some(5), &mut q, &mut out));
    assert_eq!(out, vec![1, 2, 3, 4]);
    stats.wrote(out.len());
    assert!(!stats.fill(Some(1), &mut q, &mut out));
    assert!(out.is_empty());
    assert_eq!(stats, PlaybackStats { writable_hits: 2, bytes_written: 4 });
}
