use kernel::allocator::{Allocation, Allocator, PAGE_SIZE};
use kernel::tree::{DoubleFreeError, OutOfMemoryError};

#[test]
fn allocator() {
    let base: usize = 0x4000_0000;
    let start = base + 0x1100;
    let end = base + 0x100000;

    let mut allocator = Allocator::new(start, end);
    assert_eq!(allocator.tree_len(), 128);
    assert_eq!(allocator.heap_len_pages(), 254);

    let a1 = allocator.allocate(13).unwrap();
    let a2 = allocator.allocate(13).unwrap();
    let a3 = allocator.allocate(13).unwrap();
    assert_eq!(a1.ptr - base, 0x2000);
    assert_eq!(a2.ptr - base, 0x12000);
    assert_eq!(a3.ptr - base, 0x22000);
    // 13 pages round up to 16
    assert_eq!(a1.size, 0x10000);
    assert_eq!(a2.size, 0x10000);
    assert_eq!(a3.size, 0x10000);

    allocator.free(a2).unwrap();
    let a4 = allocator.allocate(17).unwrap();
    let a5 = allocator.allocate(4).unwrap();
    assert_eq!(a4.ptr - base, 0x42000);
    assert_eq!(a5.ptr - base, 0x12000);
    // 17 pages round up to 32, 4 pages stay 4
    assert_eq!(a4.size, 0x20000);
    assert_eq!(a5.size, 0x4000);
}

#[test]
fn heap_overflow() {
    let base: usize = 0x4000_0000;
    let start = base + 0x1100;
    let end = base + 0x5000;

    // The tree has depth 2, so it can manage the allocation of up to 4 blocks,
    // but there are only 3 pages of usable heap space (0x2000..0x5000).
    let mut allocator = Allocator::new(start, end);
    assert_eq!(allocator.tree_len(), 2);
    assert_eq!(allocator.heap_len_pages(), 3);

    // Allocate 2 blocks (offset 0, size 2).
    let a1 = allocator.allocate(2).unwrap();
    assert_eq!(a1.ptr - base, 0x2000);
    assert_eq!(a1.size, 0x2000);

    // The tree thinks it can allocate another 2 blocks (offset 2, size 2),
    // but it would overflow our heap, so we still return OutOfMemoryError.
    assert_eq!(allocator.allocate(2), Err(OutOfMemoryError));

    // Allocate 1 block (offset 2, size 1).
    let a2 = allocator.allocate(1).unwrap();
    assert_eq!(a2.ptr - base, 0x4000);
    assert_eq!(a2.size, 0x1000);
}

#[test]
fn rejected_allocation_leaves_state_usable() {
    let base: usize = 0x4000_0000;
    let mut allocator = Allocator::new(base + 0x1100, base + 0x5000);

    let a1 = allocator.allocate(2).unwrap();
    // rejected: the only remaining 2-block extent overflows the 3-page heap
    assert_eq!(allocator.allocate(2), Err(OutOfMemoryError));
    // the rejected attempt freed its tentative block back into the tree
    let a2 = allocator.allocate(1).unwrap();
    assert_eq!(a2.ptr - base, 0x4000);

    allocator.free(a1).unwrap();
    let a3 = allocator.allocate(2).unwrap();
    assert_eq!(a3.ptr - base, 0x2000);
}

#[test]
fn free_of_foreign_pointer() {
    let base: usize = 0x4000_0000;
    let mut allocator = Allocator::new(base + 0x1100, base + 0x100000);

    // below the heap
    assert_eq!(
        allocator.free(Allocation { ptr: base, size: PAGE_SIZE }),
        Err(DoubleFreeError)
    );
    // past the heap end
    assert_eq!(
        allocator.free(Allocation { ptr: base + 0x300000, size: PAGE_SIZE }),
        Err(DoubleFreeError)
    );
    // inside the heap, but never allocated
    assert_eq!(
        allocator.free(Allocation { ptr: base + 0x2000, size: PAGE_SIZE }),
        Err(DoubleFreeError)
    );
}

#[test]
fn page_size_multiples() {
    let base: usize = 0x4000_0000;
    let mut allocator = Allocator::new(base + 0x1100, base + 0x100000);

    let a = allocator.allocate(3).unwrap();
    assert_eq!(a.size, 4 * PAGE_SIZE);
    assert_eq!((a.ptr - base - 0x2000) % a.size, 0);
}
