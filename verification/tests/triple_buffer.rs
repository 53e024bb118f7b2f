use rsift_opt_gfx::triple_buffer::TripleBuffer;

#[test]
fn cpu_gpu_handoff() {
    let mut buf = TripleBuffer::<Vec<u8>>::new();
    buf.with_cpu_write(|d| {
        d.clear();
        d.extend_from_slice(&[1, 2, 3]);
    });
    let view = buf.begin_gpu_read();
    assert_eq!(view, vec![1, 2, 3]);
    assert!(buf.published_generation() >= 1);
}

#[test]
fn write_slots_rotate_without_touching_published() {
    let mut buf = TripleBuffer::<Vec<u8>>::new();
    let mut seq = Vec::new();
    for k in 1..=7usize {
        let idx = buf.begin_cpu_write();
        let published = buf.published_index();
        assert_ne!(idx, published, "write #{k}: writing into the published slot is forbidden");
        seq.push(idx);
        buf.end_cpu_write(idx);
    }
    assert_eq!(seq, vec![2, 0, 1, 2, 0, 1, 2], "rotation from read slot");
}

#[test]
fn generations_increase_strictly_per_completed_write() {
    let mut buf = TripleBuffer::<Vec<u8>>::new();
    for want in 1..=4u64 {
        buf.with_cpu_write(|d| d.push(want as u8));
        assert_eq!(buf.published_generation(), want, "after {want}-th write");
    }
}

#[test]
fn write_and_publish_rotates_and_keeps_other_slots() {
    let mut buf = TripleBuffer::<Vec<u8>>::default();
    assert_eq!(buf.published_index(), 1);
    assert_eq!(buf.write_and_publish(vec![7]), 2);
    assert_eq!(buf.begin_gpu_read(), vec![7]);
    assert_eq!(buf.write_and_publish(vec![8, 8]), 0);
    assert_eq!(buf.begin_gpu_read(), vec![8, 8]);
    assert_eq!(buf.published_generation(), 2);
    // Slot 1 still holds its default data: a fresh read after publishing it.
    buf.end_cpu_write(1);
    assert_eq!(buf.begin_gpu_read(), Vec::<u8>::new());
    assert_eq!(buf.published_generation(), 0);
}
