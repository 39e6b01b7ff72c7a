use tiny_rust::bump::{BumpAlloc, HEAP_SIZE};

#[test]
fn demo_sequence() {
    let mut a = BumpAlloc::new();
    assert_eq!(a.allocate(4, 4), Some(0));
    assert_eq!(a.allocate(4, 4), Some(4));
    assert_eq!(a.allocate(8, 8), Some(8));
    assert_eq!(a.allocate(30, 1), Some(16));
    assert_eq!(a.used(), 46);
    assert_eq!(a.capacity(), HEAP_SIZE);
    assert_eq!(a.allocate(1, 16), Some(48));
    a.reset();
    assert_eq!(a.used(), 0);
}

#[test]
fn full_heap() {
    let mut a = BumpAlloc::new();
    assert_eq!(a.allocate(5000, 1), None);
    assert_eq!(a.used(), 0);
    assert_eq!(a.allocate(4095, 1), Some(0));
    assert_eq!(a.allocate(1, 2), None);
    assert_eq!(a.allocate(1, 1), Some(4095));
    assert_eq!(a.allocate(0, 1), Some(4096));
    assert_eq!(a.allocate(1, 1), None);
}

#[test]
fn reset_frees_everything() {
    let mut a = BumpAlloc::new();
    assert_eq!(a.allocate(100, 1), Some(0));
    assert_eq!(a.allocate(8, 64), Some(128));
    a.reset();
    assert_eq!(a.used(), 0);
    assert_eq!(a.allocate(4096, 4096), Some(0));
    assert_eq!(a.allocate(1, 1), None);
}
