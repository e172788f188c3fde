use pcmflux::pool::{AudioFrame, BufferPool, PoolTaker, MAX_POOLED};

#[test]
fn buffer_pool_recycles_and_restores_length() {
    let mut pool = BufferPool::new(64);
    let mut a = pool.take();
    assert_eq!(a.len(), 64);
    let ptr = a.as_ptr() as usize;
    a.truncate(7);
    pool.put(a);
    let b = pool.take();
    assert_eq!(b.as_ptr() as usize, ptr, "buffer must be recycled");
    assert_eq!(b.len(), 64, "length must be restored");
    pool.put(Vec::new());
    assert_eq!(pool.take().len(), 64);
}

#[test]
fn audio_frame_drop_refills_pool() {
    let mut pool = BufferPool::new(32);
    let buf = pool.take();
    let ptr = buf.as_ptr() as usize;
    AudioFrame::new(buf, 0, true).release(&mut pool);
    let recycled = pool.take();
    assert_eq!(recycled.as_ptr() as usize, ptr);
}

#[test]
fn foreign_frames_are_not_pooled() {
    let mut pool = BufferPool::new(4);
    let frame = AudioFrame::new(vec![9; 4], 77, false);
    assert_eq!((frame.len(), frame.pts()), (4, 77));
    assert_eq!(frame.bytes(), &[9, 9, 9, 9]);
    frame.release(&mut pool);
    assert_eq!(pool.take(), vec![0; 4]);
    AudioFrame::new(vec![8; 4], 0, true).release(&mut pool);
    assert_eq!(pool.take(), vec![8; 4]);
}

#[test]
fn undersized_buffers_are_refused() {
    let mut pool = BufferPool::new(64);
    pool.put(Vec::new());
    pool.put_measured(vec![1; 3], 63);
    assert_eq!(pool.take(), vec![0; 64]);
    pool.put_measured(vec![1; 3], 64);
    let mut expected = vec![0; 64];
    expected[..3].copy_from_slice(&[1, 1, 1]);
    assert_eq!(pool.take(), expected);
}

#[test]
fn pool_never_outgrows_its_cap() {
    let mut pool = BufferPool::new(2);
    assert_eq!(pool.buf_size(), 2);
    for i in 0..20u8 {
        pool.put(vec![i; 2]);
    }
    let mut all = Vec::new();
    pool.drain_into(&mut all);
    assert_eq!(all.len(), MAX_POOLED);
    assert_eq!(all[15], vec![15; 2]);
}

#[test]
fn taker_refills_from_the_pool_when_empty() {
    let mut pool = BufferPool::new(1);
    let mut taker = PoolTaker::new();
    pool.put(vec![1]);
    pool.put(vec![2]);
    assert_eq!(taker.take(&mut pool), vec![2]);
    pool.put(vec![3]);
    assert_eq!(taker.take(&mut pool), vec![1]);
    assert_eq!(taker.take(&mut pool), vec![3]);
    assert_eq!(taker.take(&mut pool), vec![0]);
    taker.put(vec![5], &pool);
    taker.put_measured(vec![6], 0, &pool);
    assert_eq!(taker.take(&mut pool), vec![5]);
    assert_eq!(taker.take(&mut pool), vec![0]);
}

#[test]
fn frames_bring_their_whole_buffer_back() {
    let mut pool = BufferPool::new(8);
    let mut buf = pool.take();
    let ptr = buf.as_ptr() as usize;
    buf[..3].copy_from_slice(&[1, 2, 3]);
    let frame = AudioFrame::within(buf, 3, 960);
    assert_eq!((frame.bytes(), frame.len(), frame.pts()), (&[1u8, 2, 3][..], 3, 960));
    frame.release(&mut pool);
    let back = pool.take();
    assert_eq!(back.as_ptr() as usize, ptr);
    assert_eq!(back, vec![1, 2, 3, 0, 0, 0, 0, 0]);
}
