use pcmflux::pool::AudioFrame;
use pcmflux::ring::{DeliveryRing, Popped, RING_CAPACITY};

fn frame(data: Vec<u8>, pts: u64) -> AudioFrame {
    AudioFrame::new(data, pts, true)
}

fn drain(ring: &mut DeliveryRing) -> Vec<(Vec<u8>, u64)> {
    let mut out = Vec::new();
    loop {
        match ring.pop() {
            Popped::Frame(frame) => out.push((frame.bytes().to_vec(), frame.pts())),
            Popped::Wait | Popped::Closed => return out,
        }
    }
}

#[test]
fn ring_drops_the_oldest_frames() {
    let mut ring = DeliveryRing::new(RING_CAPACITY);
    for i in 0..11u64 {
        assert!(ring.push(frame(vec![i as u8], 960 * i)));
    }
    assert_eq!(ring.dropped(), 3);
    let got = drain(&mut ring);
    let expected: Vec<(Vec<u8>, u64)> = (3..11u64).map(|i| (vec![i as u8], 960 * i)).collect();
    assert_eq!(got, expected);
    assert!(matches!(ring.pop(), Popped::Wait));
}

#[test]
fn closed_ring_stays_closed() {
    let mut ring = DeliveryRing::new(2);
    ring.push(frame(vec![1], 0));
    ring.close();
    assert!(matches!(ring.pop(), Popped::Closed));
    assert!(!ring.push(frame(vec![2], 1)));
    assert!(matches!(ring.pop(), Popped::Closed));
    assert_eq!(ring.dropped(), 0);
}

#[test]
fn ring_without_capacity_holds_the_newest_frame() {
    let mut ring = DeliveryRing::new(0);
    ring.push(frame(vec![1], 1));
    ring.push(frame(vec![2], 2));
    assert_eq!(drain(&mut ring), vec![(vec![2], 2)]);
    assert_eq!(ring.dropped(), 2);
}
