use perp_signal_hft::ring::{RingError, RingQueue};

#[test]
fn create_rejects_zero_and_non_power_of_two() {
    assert!(matches!(RingQueue::create(0), Err(RingError::InvalidCapacity)));
    assert!(matches!(RingQueue::create(3), Err(RingError::InvalidCapacity)));
    assert!(matches!(RingQueue::create(100), Err(RingError::InvalidCapacity)));
    assert!(RingQueue::create(1).is_ok());
    assert!(RingQueue::create(64).is_ok());
    assert!(RingQueue::create(1 << 20).is_ok());
}

#[test]
fn pop_on_empty_ring_is_none() {
    let mut ring = RingQueue::create(64).unwrap();
    assert_eq!(ring.pop(), None);
}

#[test]
fn frames_come_out_in_push_order() {
    let mut ring = RingQueue::create(256).unwrap();
    let frames: Vec<Vec<u8>> = (0..5u8).map(|i| vec![i; (i as usize) * 7 + 1]).collect();
    for f in &frames {
        ring.push(f).unwrap();
    }
    for f in &frames {
        assert_eq!(ring.pop().as_ref(), Some(f));
    }
    assert_eq!(ring.pop(), None);
}

#[test]
fn full_ring_rejects_push_until_a_pop_frees_space() {
    // capacity 64: each 20-byte payload occupies 24 bytes on the ring
    let mut ring = RingQueue::create(64).unwrap();
    let frame = vec![7u8; 20];
    ring.push(&frame).unwrap();
    ring.push(&frame).unwrap();
    // inflight 48; 24 > 64 - 48 = 16
    assert_eq!(ring.push(&frame), Err(RingError::QueueFull));
    assert_eq!(ring.pop(), Some(frame.clone()));
    // the retried frame now crosses the wrap point
    ring.push(&frame).unwrap();
    assert_eq!(ring.pop(), Some(frame.clone()));
    assert_eq!(ring.pop(), Some(frame.clone()));
    assert_eq!(ring.pop(), None);
}

#[test]
fn payloads_crossing_the_wrap_point_come_back_identical() {
    let mut ring = RingQueue::create(64).unwrap();
    // alternate pushes and pops so the cursors walk around the ring
    for round in 0..32u32 {
        let payload: Vec<u8> = (0..23u8).map(|i| i.wrapping_add(round as u8)).collect();
        ring.push(&payload).unwrap();
        assert_eq!(ring.pop(), Some(payload));
        assert_eq!(ring.pop(), None);
    }
}

#[test]
fn frame_too_large_for_the_ring_never_fits() {
    let mut ring = RingQueue::create(16).unwrap();
    let frame = vec![1u8; 13]; // 17 bytes on the wire
    assert_eq!(ring.push(&frame), Err(RingError::QueueFull));
    let frame = vec![1u8; 12]; // exactly 16 bytes on the wire
    assert_eq!(ring.push(&frame), Ok(()));
    assert_eq!(ring.pop(), Some(frame));
}

#[test]
fn empty_payload_round_trips() {
    let mut ring = RingQueue::create(8).unwrap();
    let empty: Vec<u8> = Vec::new();
    ring.push(&empty).unwrap();
    ring.push(&empty).unwrap();
    assert_eq!(ring.push(&empty), Err(RingError::QueueFull));
    assert_eq!(ring.pop(), Some(Vec::new()));
    assert_eq!(ring.pop(), Some(Vec::new()));
    assert_eq!(ring.pop(), None);
}
