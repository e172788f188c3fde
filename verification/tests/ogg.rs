use pcmflux::ogg::{crc32, header_pages, page, OggSink, OpusHead, SendOutcome};

/// The pages of a stream as `(granule, sequence number, body)`, each checked against its
/// own checksum.
fn parse(got: &[u8]) -> Vec<(u64, u32, Vec<u8>)> {
    let mut pages = Vec::new();
    let mut at = 0;
    while at + 27 <= got.len() {
        assert_eq!(&got[at..at + 4], b"OggS");
        let segments = got[at + 26] as usize;
        let body: usize = got[at + 27..at + 27 + segments].iter().map(|&l| l as usize).sum();
        let end = at + 27 + segments + body;
        let mut copy = got[at..end].to_vec();
        let stored = u32::from_le_bytes([copy[22], copy[23], copy[24], copy[25]]);
        copy[22..26].copy_from_slice(&[0; 4]);
        assert_eq!(crc32(&copy), stored, "page {} checksum", pages.len());
        let mut granule = [0u8; 8];
        granule.copy_from_slice(&copy[6..14]);
        let seq = u32::from_le_bytes([copy[18], copy[19], copy[20], copy[21]]);
        pages.push((u64::from_le_bytes(granule), seq, copy[27 + segments..].to_vec()));
        at = end;
    }
    pages
}

#[test]
fn consumers_read_a_well_formed_stream() {
    let head = OpusHead { channels: 2, pre_skip: 312, input_sample_rate: 48000, mapping: None };
    let mut sink = OggSink::try_bind("/run/audio.sock", true, 100, 7).expect("bind");
    sink.connect(1);
    let mut got = sink.headers(&head);
    got.extend(sink.write_packet(&[0xfc, 1, 2, 3], 960));
    got.extend(sink.write_packet(&vec![0xfc; 255], 1920));
    let pages = parse(&got);
    assert_eq!(pages.len(), 4);
    assert!(pages[0].2.starts_with(b"OpusHead"));
    assert_eq!(pages[0].2[9], 2);
    assert!(pages[1].2.starts_with(b"OpusTags"));
    assert_eq!(pages[2], (960, 2, vec![0xfc, 1, 2, 3]));
    assert_eq!((pages[3].0, pages[3].1), (1920, 3));
    assert_eq!(pages[3].2.len(), 255);
}

#[test]
fn checksums_of_known_strings() {
    assert_eq!(crc32(b""), 0);
    assert_eq!(crc32(b"OggS"), 0x5fb0_a94f);
    assert_eq!(crc32(b"123456789"), 0x89a1_897f);
    assert_eq!(crc32(&[0; 4]), 0);
}

#[test]
fn exact_bytes_of_a_page() {
    assert_eq!(
        page(0x0102_0304, 2, 960, 0, &[0xfc, 1, 2, 3]),
        vec![
            79, 103, 103, 83, 0, 0, 192, 3, 0, 0, 0, 0, 0, 0, 4, 3, 2, 1, 2, 0, 0, 0, 1, 132, 53,
            242, 1, 4, 252, 1, 2, 3
        ]
    );
    assert_eq!(
        page(7, 0, 0, 2, &[]),
        vec![
            79, 103, 103, 83, 0, 2, 0, 0, 0, 0, 0, 0, 0, 0, 7, 0, 0, 0, 0, 0, 0, 0, 24, 109, 177,
            181, 1, 0
        ]
    );
}

#[test]
fn long_packets_are_laced() {
    for (len, lacing) in [
        (254usize, vec![254u8]),
        (255, vec![255, 0]),
        (256, vec![255, 1]),
        (510, vec![255, 255, 0]),
    ] {
        let p = page(1, 1, 1, 0, &vec![9; len]);
        assert_eq!(p[26] as usize, lacing.len());
        assert_eq!(&p[27..27 + lacing.len()], &lacing[..]);
        assert_eq!(p.len(), 27 + lacing.len() + len);
    }
    assert_eq!(parse(&page(1, 1, 1, 0, &vec![9; 255 * 255 - 1]))[0].2.len(), 255 * 255 - 1);
}

#[test]
fn headers_describe_surround() {
    let head = OpusHead {
        channels: 6,
        pre_skip: 312,
        input_sample_rate: 48000,
        mapping: Some((4, 2, vec![0, 4, 1, 2, 3, 5])),
    };
    let pages = parse(&header_pages(9, &head));
    let mut id = b"OpusHead".to_vec();
    id.extend([1, 6, 0x38, 0x01, 0x80, 0xbb, 0, 0, 0, 0, 1, 4, 2, 0, 4, 1, 2, 3, 5]);
    assert_eq!(pages[0].2, id);
    let mut tags = b"OpusTags".to_vec();
    tags.extend([7, 0, 0, 0]);
    tags.extend(b"pcmflux");
    tags.extend([0, 0, 0, 0]);
    assert_eq!(pages[1].2, tags);
    assert_eq!((pages[0].1, pages[1].1), (0, 1));
}

#[test]
fn sink_is_optional() {
    assert!(!OggSink::configured(""));
    assert!(OggSink::configured("/x"));
    assert!(OggSink::try_bind("", true, 1, 2).is_none());
    assert!(OggSink::try_bind("/x", false, 1, 2).is_none());
    let sink = OggSink::try_bind("/x", true, 0b1100, 0b1010).unwrap();
    assert_eq!((sink.serial, sink.seq, sink.path.as_str()), (0b0110, 2, "/x"));
}

#[test]
fn slow_consumers_are_dropped() {
    let mut sink = OggSink::try_bind("/x", true, 1, 2).unwrap();
    for id in [10, 20, 30, 40] {
        sink.connect(id);
    }
    let gone = sink.settle(&vec![
        SendOutcome::Sent,
        SendOutcome::Full,
        SendOutcome::Disconnected,
        SendOutcome::Sent,
    ]);
    assert_eq!(gone, vec![20, 30]);
    assert_eq!(sink.clients, vec![10, 40]);
    assert_eq!(sink.shutdown(), vec![10, 40]);
    assert!(sink.clients.is_empty());
}

#[test]
fn sequence_numbers_wrap() {
    let mut sink = OggSink::try_bind("/x", true, 1, 2).unwrap();
    sink.seq = u32::MAX;
    let _ = sink.write_packet(&[1], 0);
    assert_eq!(sink.seq, 0);
}
