use std::collections::VecDeque;

use pcmflux::red::{
    build_ws_body, select_red, write_ws_prefix_into, RED_BLOCK_PT, RED_MAX_LEN, RED_PREFIX_MAX,
};
use pcmflux::settings::MAX_OPUS_PACKET;

/// A RED payload: redundant blocks oldest first, each with its offset back from the primary.
fn build_red_payload(reds: &[(u64, &[u8])], primary: &[u8]) -> Vec<u8> {
    let mut v = Vec::new();
    for (off, blk) in reds {
        let field = (((*off as u32) & 0x3FFF) << 10) | ((blk.len() as u32) & 0x3FF);
        v.push(0x80 | (RED_BLOCK_PT & 0x7F));
        v.push((field >> 16) as u8);
        v.push((field >> 8) as u8);
        v.push(field as u8);
    }
    v.push(RED_BLOCK_PT & 0x7F);
    for (_, blk) in reds {
        v.extend_from_slice(blk);
    }
    v.extend_from_slice(primary);
    v
}

fn packets(payload: &[u8], ranges: &[(usize, usize)]) -> Vec<Vec<u8>> {
    ranges.iter().map(|&(s, n)| payload[s..s + n].to_vec()).collect()
}

#[test]
fn red_zero_is_byte_identical() {
    let opus = vec![0xDE, 0xAD, 0xBE, 0xEF, 0x42];
    let hist: VecDeque<(Vec<u8>, u64)> = VecDeque::new();

    let bare_expected = {
        let mut v = vec![0x01u8, 0x00];
        v.extend_from_slice(&opus);
        v
    };
    assert_eq!(build_ws_body(&opus, 4096, &hist, 0, true), bare_expected);
    assert_eq!(build_ws_body(&opus, 4096, &hist, 0, false), opus);
}

#[test]
fn red_two_roundtrips() {
    let f_n2 = vec![0xA0, 0xA1, 0xA2];
    let f_n1 = vec![0xB0, 0xB1, 0xB2, 0xB3];
    let primary = vec![0xC0, 0xC1];
    let mut hist: VecDeque<(Vec<u8>, u64)> = VecDeque::new();
    hist.push_back((f_n2.clone(), 0));
    hist.push_back((f_n1.clone(), 960));

    let body = build_ws_body(&primary, 1920, &hist, 2, true);
    assert_eq!(body[0], 0x01);
    let n_red = body[1] as usize;
    assert_eq!(n_red, 2);
    assert_eq!(u32::from_be_bytes([body[2], body[3], body[4], body[5]]), 1920);

    let mut idx = 6;
    let mut offsets = Vec::new();
    let mut lens = Vec::new();
    for _ in 0..n_red {
        assert_eq!(body[idx] & 0x80, 0x80, "redundant header F bit must be set");
        let word = ((body[idx + 1] as u32) << 16)
            | ((body[idx + 2] as u32) << 8)
            | (body[idx + 3] as u32);
        offsets.push((word >> 10) & 0x3FFF);
        lens.push((word & 0x3FF) as usize);
        idx += 4;
    }
    assert_eq!(body[idx] & 0x80, 0x00, "primary header F bit must be clear");
    idx += 1;

    assert_eq!(offsets, vec![1920, 960]);
    assert_eq!(lens, vec![f_n2.len(), f_n1.len()]);

    let b0 = &body[idx..idx + lens[0]];
    idx += lens[0];
    let b1 = &body[idx..idx + lens[1]];
    idx += lens[1];
    let prim = &body[idx..];
    assert_eq!(b0, &f_n2[..]);
    assert_eq!(b1, &f_n1[..]);
    assert_eq!(prim, &primary[..]);
}

#[test]
fn red_skips_oversize_and_too_old() {
    let too_old = vec![0x11u8; 3];
    let oversize = vec![0x22u8; 1100];
    let good = vec![0x33u8; 5];
    let primary = vec![0x44u8; 2];
    let primary_pts = 100_000u64;

    let mut hist: VecDeque<(Vec<u8>, u64)> = VecDeque::new();
    hist.push_back((too_old, primary_pts - 20_000));
    hist.push_back((oversize, primary_pts - 1920));
    hist.push_back((good.clone(), primary_pts - 960));

    let body = build_ws_body(&primary, primary_pts, &hist, 4, true);
    assert_eq!(body[0], 0x01);
    assert_eq!(body[1], 1, "only the in-range block survives");
    assert_eq!(u32::from_be_bytes([body[2], body[3], body[4], body[5]]), primary_pts as u32);

    let word = ((body[7] as u32) << 16) | ((body[8] as u32) << 8) | (body[9] as u32);
    assert_eq!((word >> 10) & 0x3FFF, 960);
    let len = (word & 0x3FF) as usize;
    assert_eq!(len, good.len());
    assert_eq!(body[10] & 0x80, 0x00, "primary header follows the one redundant header");
    assert_eq!(&body[11..11 + len], &good[..]);
    assert_eq!(&body[11 + len..], &primary[..]);
}

#[test]
fn red_empty_history_collapses_to_bare_header() {
    let opus = vec![0x77u8; 4];
    let hist: VecDeque<(Vec<u8>, u64)> = VecDeque::new();
    let body = build_ws_body(&opus, 960, &hist, 2, true);
    assert_eq!(body[0], 0x01);
    assert_eq!(body[1], 0x00);
    assert_eq!(&body[2..], &opus[..]);
    assert_eq!(body.len(), 2 + opus.len());
}

#[test]
fn prefix_writer_matches_build_ws_body() {
    let primary: Vec<u8> = (0u8..200).collect();
    let mut mixed: VecDeque<(Vec<u8>, u64)> = VecDeque::new();
    mixed.push_back((vec![1u8; 100], 0));
    mixed.push_back((vec![2u8; RED_MAX_LEN + 1], 960));
    mixed.push_back((vec![3u8; 50], 1440));
    mixed.push_back((vec![4u8; 900], 1900));
    for hist in [VecDeque::new(), mixed] {
        for red in [0usize, 1, 2, 4] {
            for hdr in [true, false] {
                for pts in [960u64, 3840, 20000] {
                    let reference = build_ws_body(&primary, pts, &hist, red, hdr);
                    let mut buf = vec![0u8; RED_PREFIX_MAX + MAX_OPUS_PACKET];
                    let prefix = write_ws_prefix_into(&mut buf, pts, &hist, red, hdr);
                    buf[prefix..prefix + primary.len()].copy_from_slice(&primary);
                    buf.truncate(prefix + primary.len());
                    assert_eq!(buf, reference, "red={red} hdr={hdr} pts={pts}");
                }
            }
        }
    }
}

#[test]
fn exact_bytes_of_a_redundant_frame() {
    let mut hist: VecDeque<(Vec<u8>, u64)> = VecDeque::new();
    hist.push_back((vec![0xAA, 0xBB], 0x1_0000_0000));
    // Offset 960 over length 2: (960 << 10) | 2 == 0x0F0002.
    let body = build_ws_body(&[0xCC], 0x1_0000_03C0, &hist, 1, true);
    assert_eq!(
        body,
        vec![1, 1, 0, 0, 3, 0xC0, 0x80, 0x0F, 0x00, 0x02, 0x00, 0xAA, 0xBB, 0xCC]
    );
}

#[test]
fn longest_prefix_fits_its_reserve() {
    let mut hist: VecDeque<(Vec<u8>, u64)> = VecDeque::new();
    for i in 0..4u64 {
        hist.push_back((vec![i as u8; RED_MAX_LEN], 960 * i));
    }
    let mut buf = vec![0u8; RED_PREFIX_MAX];
    let n = write_ws_prefix_into(&mut buf, 3840, &hist, 4, true);
    assert_eq!(n, RED_PREFIX_MAX);
}

#[test]
fn only_the_newest_frames_are_repeated() {
    let mut hist: VecDeque<(Vec<u8>, u64)> = VecDeque::new();
    hist.push_back((vec![1], 0));
    hist.push_back((vec![2], 960));
    hist.push_back((vec![3], 1920));
    let body = build_ws_body(&[9], 2880, &hist, 2, true);
    let (ranges, last) = select_red(Some(-1), &body[6..], 2880);
    assert_eq!(packets(&body[6..], &ranges), vec![vec![2], vec![3], vec![9]]);
    assert_eq!(last, Some(2880));
}

#[test]
fn lost_frames_come_back_from_the_next_one() {
    let mut hist: VecDeque<(Vec<u8>, u64)> = VecDeque::new();
    hist.push_back((vec![1, 1], 960));
    hist.push_back((vec![2, 2], 1920));
    hist.push_back((vec![3, 3], 2880));
    let body = build_ws_body(&[4, 4], 3840, &hist, 4, true);
    let payload = &body[6..];
    let (ranges, last) = select_red(Some(960), payload, 3840);
    assert_eq!(packets(payload, &ranges), vec![vec![2, 2], vec![3, 3], vec![4, 4]]);
    assert_eq!(last, Some(3840));
    let (again, still) = select_red(last, payload, 3840);
    assert!(again.is_empty());
    assert_eq!(still, Some(3840));
}

#[test]
fn first_payload_anchors_on_its_primary() {
    let payload = build_red_payload(&[(960, &[1]), (480, &[2])], &[3]);
    let (ranges, last) = select_red(None, &payload, 5000);
    assert_eq!(packets(&payload, &ranges), vec![vec![3]]);
    assert_eq!(last, Some(5000));
}

#[test]
fn unreadable_payloads_change_nothing() {
    for bad in [
        vec![],
        vec![0x80],
        vec![0x80, 0, 0],
        vec![0x80, 0, 0, 9, 0, 1, 2],
        vec![0x80, 0, 0, 0, 0x80, 0, 0, 0, 0x80, 0, 0, 0, 0x80, 0, 0, 0, 0x80, 0, 0, 0, 0, 7],
    ] {
        assert_eq!(select_red(Some(5), &bad, 1000), (vec![], Some(5)));
        assert_eq!(select_red(None, &bad, 1000), (vec![], None));
    }
}

#[test]
fn empty_blocks_are_passed_over() {
    let payload = build_red_payload(&[(960, &[]), (480, &[2])], &[]);
    let (ranges, last) = select_red(Some(0), &payload, 1000);
    assert_eq!(packets(&payload, &ranges), vec![vec![2]]);
    assert_eq!(last, Some(520));
    assert_eq!(select_red(None, &payload, 1000), (vec![], Some(1000)));
}

#[test]
fn playback_only_moves_forward() {
    let frame = |ts: i64| {
        let k = (ts / 480) as u8;
        build_red_payload(&[(960, &[k - 2]), (480, &[k - 1])], &[k])
    };
    let mut last = Some(960);
    let mut heard = Vec::new();
    // Lost, repeated, late and damaged payloads.
    for ts in [1440i64, 1440, 2880, 1920, 2400, 2880, 4800] {
        let payload = frame(ts);
        let (ranges, next) = select_red(last, &payload, ts);
        heard.extend(packets(&payload, &ranges).concat());
        last = next;
        let (none, same) = select_red(last, &payload[..3], ts);
        assert!(none.is_empty() && same == last);
    }
    assert_eq!(heard, vec![3, 4, 5, 6, 8, 9, 10]);
    assert_eq!(last, Some(4800));
}
