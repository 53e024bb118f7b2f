use rsift_opt_gfx::stutter_guard::{FrameArena, TimeSlice};

#[test]
fn time_slice_defers_over_budget() {
    let mut ts: TimeSlice<u32> = TimeSlice::new(1000);
    for i in 0..10 {
        ts.push(i);
    }
    let done = ts.run_frame(|_| 400);
    assert!(done <= 3, "must stop around budget, done={done}");
    assert!(ts.backlog_len() >= 7);
    let done2 = ts.run_frame(|_| 400);
    assert!(done2 >= 2);
    assert_eq!(ts.completed as usize, done + done2);
}

#[test]
fn time_slice_exact_counts() {
    let mut ts: TimeSlice<u32> = TimeSlice::new(50);
    assert_eq!(ts.budget_us, 200);
    for i in 0..5 {
        ts.push(i);
    }
    // Spent 0, then 150 (both within 200): two items run; at 300 the
    // frame stops and three items wait.
    let done = ts.run_frame(|_| 150);
    assert_eq!(done, 2);
    assert_eq!(ts.backlog_len(), 3);
    assert_eq!(ts.deferred, 3);
    let done = ts.run_frame(|_| 0);
    assert_eq!(done, 3);
    assert_eq!(ts.backlog_len(), 0);
    assert_eq!((ts.completed, ts.deferred), (5, 3));
}

#[test]
fn arena_bump_and_reset() {
    let mut a = FrameArena::new(1024);
    let p1 = a.alloc_bytes(100).unwrap();
    let p2 = a.alloc_bytes(200).unwrap();
    assert_ne!(p1, p2);
    assert!(a.used() >= 300);
    assert_eq!(a.allocations(), 2);
    a.reset();
    assert_eq!(a.used(), 0);
    let p3 = a.alloc_bytes(16).unwrap();
    assert_eq!(p3, p1, "after reset must reuse the same base");
}

#[test]
fn arena_full_returns_none_not_panic() {
    let mut a = FrameArena::new(4096);
    let mut total = 0;
    while a.alloc_bytes(512).is_some() {
        total += 512;
    }
    assert_eq!(total, 4096);
    assert!(a.alloc_bytes(1).is_none());
}

#[test]
fn arena_blocks_are_eight_byte_aligned_offsets() {
    let mut a = FrameArena::new(0);
    assert_eq!(a.capacity(), 4096);
    assert_eq!(a.alloc_bytes(1), Some(0));
    assert_eq!(a.alloc_bytes(9), Some(8));
    assert_eq!(a.alloc_bytes(0), Some(24));
    assert_eq!(a.used(), 24);
    assert_eq!(a.allocations(), 3);
    // 10 u64 values take 80 bytes.
    assert_eq!(a.alloc_pod_slice::<u64>(10), Some(24));
    assert_eq!(a.used(), 104);
    // A refused block changes nothing.
    assert_eq!(a.alloc_bytes(5000), None);
    assert_eq!(a.used(), 104);
    assert_eq!(a.allocations(), 4);
}
