//! Tests of the bump allocator: the alignment, rewind and reset behavior,
//! exhaustion, and zero-size requests.

use rezos::staticalloc::StaticAllocator;

#[test]
fn aligned_allocations() {
    // B = 1024: serve 100 bytes at align 8, then 50 at align 16.
    let mut a = StaticAllocator::new(1024);
    assert_eq!(a.allocate(100, 8), Some(0));
    assert_eq!(a.cursor(), 100);
    assert_eq!(a.allocate(50, 16), Some(112));
    assert_eq!(a.cursor(), 162);
    assert_eq!(a.refcount(), 2);
    // Freeing the trailing block rewinds the cursor by its size; the
    // alignment padding before it is not recorded and stays behind.
    a.dealloc(112, 50, 16);
    assert_eq!(a.cursor(), 112);
    assert_eq!(a.refcount(), 1);
    assert_eq!(a.allocate(10, 1), Some(112));
}

#[test]
fn results_are_multiples_of_align() {
    let mut a = StaticAllocator::new(4096);
    for (size, align) in [(3usize, 1usize), (5, 2), (7, 4), (1, 8), (9, 16), (21, 32)] {
        let p = a.allocate(size, align).unwrap();
        assert_eq!(p % align, 0, "offset {} not aligned to {}", p, align);
    }
}

#[test]
fn consecutive_allocations_do_not_alias() {
    let mut a = StaticAllocator::new(4096);
    let p1 = a.allocate(100, 8).unwrap();
    let p2 = a.allocate(200, 16).unwrap();
    let p3 = a.allocate(50, 4).unwrap();
    assert!(p1 + 100 <= p2);
    assert!(p2 + 200 <= p3);
}

#[test]
fn lifo_rewind_restores_cursor() {
    let mut a = StaticAllocator::new(1024);
    let _keep = a.allocate(64, 1).unwrap();
    let before = a.cursor();
    let p = a.allocate(100, 1).unwrap();
    a.dealloc(p, 100, 1);
    assert_eq!(a.cursor(), before);
}

#[test]
fn exhaustion_returns_null() {
    // Fill 1023 of 1024 bytes; two more bytes do not fit.
    let mut a = StaticAllocator::new(1024);
    assert_eq!(a.allocate(1023, 1), Some(0));
    assert_eq!(a.refcount(), 1);
    assert_eq!(a.allocate(2, 1), None);
    // The failed request changed nothing.
    assert_eq!(a.refcount(), 1);
    assert_eq!(a.cursor(), 1023);
    // The remaining free returns the cursor to the base.
    a.dealloc(0, 1023, 1);
    assert_eq!(a.cursor(), 0);
    assert_eq!(a.refcount(), 0);
}

#[test]
fn reset_on_quiescence() {
    let mut a = StaticAllocator::new(1024);
    let p1 = a.allocate(10, 1).unwrap();
    let p2 = a.allocate(10, 1).unwrap();
    // Free out of order: the first free cannot rewind, the block leaks
    // until the refcount reaches zero.
    a.dealloc(p1, 10, 1);
    assert_eq!(a.cursor(), 20);
    a.dealloc(p2, 10, 1);
    // Quiescent: the whole arena resets.
    assert_eq!(a.cursor(), 0);
    assert_eq!(a.refcount(), 0);
    // The next allocation starts at the base again.
    assert_eq!(a.allocate(5, 4), Some(0));
}

#[test]
fn zero_size_is_null() {
    let mut a = StaticAllocator::new(1024);
    assert_eq!(a.allocate(0, 8), None);
    assert_eq!(a.cursor(), 0);
    assert_eq!(a.refcount(), 0);
}

#[test]
fn allocator_size_is_fixed() {
    let mut a = StaticAllocator::new(256);
    assert_eq!(a.size(), 256);
    let _ = a.allocate(10, 1);
    assert_eq!(a.size(), 256);
}
