use pcmflux::queue::PlayQueue;

#[test]
fn playqueue_drop_oldest_keeps_newest() {
    let mut q = PlayQueue::new();
    q.configure(8, 2);
    q.push(&[1, 2, 3, 4, 5, 6]);
    q.push(&[7, 8, 9, 10, 11, 12]);
    let mut out = Vec::new();
    q.drain_upto(100, &mut out);
    assert_eq!(out, vec![5, 6, 7, 8, 9, 10, 11, 12]);
    q.drain_upto(100, &mut out);
    assert!(out.is_empty());
}

#[test]
fn playqueue_drain_is_frame_aligned() {
    let mut q = PlayQueue::new();
    q.configure(1000, 4);
    q.push(&[0, 1, 2, 3, 4, 5, 6, 7, 8, 9]);
    let mut out = Vec::new();
    q.drain_upto(7, &mut out);
    assert_eq!(out, vec![0, 1, 2, 3]);
    q.drain_upto(100, &mut out);
    assert_eq!(out, vec![4, 5, 6, 7]);
    q.drain_upto(100, &mut out);
    assert!(out.is_empty());
}

#[test]
fn playqueue_configure_resets() {
    let mut q = PlayQueue::new();
    q.push(&[1, 2, 3, 4]);
    q.configure(96000, 2);
    let mut out = Vec::new();
    q.drain_upto(100, &mut out);
    assert!(out.is_empty(), "configure must clear stale audio");
}

#[test]
fn playqueue_misaligned_bound_never_splits_frames() {
    let mut q = PlayQueue::new();
    q.configure(9, 4); // floors the bound to 8 = two 4-byte frames
    q.push(&[0, 1, 2, 3]);
    q.push(&[4, 5, 6, 7]);
    q.push(&[8, 9, 10, 11]); // 12 queued, bound 8: exactly the oldest frame goes
    let mut out = Vec::new();
    q.drain_upto(100, &mut out);
    assert_eq!(out, vec![4, 5, 6, 7, 8, 9, 10, 11]);
}

#[test]
fn bounds_are_floored() {
    let mut q = PlayQueue::new();
    q.configure(0, 0);
    q.push(&[1, 2, 3]);
    assert_eq!(q.len(), 1);
    q.configure(3, 4);
    q.push(&[1, 2, 3, 4, 5, 6, 7, 8]);
    let mut out = Vec::new();
    q.drain_upto(100, &mut out);
    assert_eq!(out, vec![5, 6, 7, 8]);
}

#[test]
fn default_bound_is_two_seconds_of_mic_audio() {
    let mut q = PlayQueue::new();
    q.push(&vec![1u8; 96000]);
    assert_eq!(q.len(), 96000);
    q.push(&[2, 2]);
    assert_eq!(q.len(), 96000);
    q.clear();
    assert_eq!(q.len(), 0);
}

#[test]
fn ragged_pushes_drop_whole_frames() {
    let mut q = PlayQueue::new();
    q.configure(8, 4);
    q.push(&[0, 1, 2, 3, 4, 5, 6, 7]);
    q.push(&[8]); // one byte over costs one whole frame
    let mut out = Vec::new();
    q.drain_upto(100, &mut out);
    assert_eq!(out, vec![4, 5, 6, 7]);
    assert_eq!(q.len(), 1);
}

#[test]
fn cutting_a_push_in_two_changes_nothing() {
    let data: Vec<u8> = (0..40).collect();
    for cut in (0..=40).step_by(4) {
        let mut whole = PlayQueue::new();
        whole.configure(16, 4);
        whole.push(&data);
        let mut parts = PlayQueue::new();
        parts.configure(16, 4);
        parts.push(&data[..cut]);
        parts.push(&data[cut..]);
        let (mut a, mut b) = (Vec::new(), Vec::new());
        whole.drain_upto(100, &mut a);
        parts.drain_upto(100, &mut b);
        assert_eq!(a, b);
        assert_eq!(a, data[24..].to_vec());
    }
}
