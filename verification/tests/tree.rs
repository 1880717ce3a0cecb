use kernel::tree::{Action, Allocation, BlockIndex, DoubleFreeError, OutOfMemoryError, Tree, Visitor};

#[test]
fn storage_depth_required() {
    fn assert_storage_bits_required(leaf_blocks: usize, storage_bits_required: usize) {
        let bits = Tree::storage_bits_required(leaf_blocks);
        assert_eq!(
            bits, storage_bits_required,
            "with leaf_blocks = {}",
            leaf_blocks
        );
    }

    // 0 leaf blocks:
    // -> rejected by the constructor's contract, no test

    // 1 leaf block:
    //        1
    for leaf_blocks in [1] {
        assert_storage_bits_required(leaf_blocks, 1 * Tree::LEAF_BITS);
    }

    // 2 leaf blocks:
    //        2
    //    1       1
    for leaf_blocks in [2] {
        assert_storage_bits_required(leaf_blocks, 1 * Tree::NONLEAF_BITS + 2 * Tree::LEAF_BITS);
    }

    // 3 to 4 leaf blocks:
    //        2
    //    2       2
    //  1   1   1   1
    for leaf_blocks in [3, 4] {
        assert_storage_bits_required(leaf_blocks, 3 * Tree::NONLEAF_BITS + 4 * Tree::LEAF_BITS);
    }

    // 5 to 8 leaf blocks:
    //        2
    //    2       2
    //  2   2   2   2
    // 1 1 1 1 1 1 1 1
    for leaf_blocks in [5, 6, 7, 8] {
        assert_storage_bits_required(leaf_blocks, 7 * Tree::NONLEAF_BITS + 8 * Tree::LEAF_BITS);
    }
}

// offsets:
//        0         depth = 0, height = 3
//    0       4     depth = 1, height = 2
//  0   2   4   6   depth = 2, height = 1
// 0 1 2 3 4 5 6 7  depth = 3, height = 0
//
// block indices:
//        0         depth = 0, height = 3
//    1       2     depth = 1, height = 2
//  3   4   5   6   depth = 2, height = 1
// 7 8 9 a b c d e  depth = 3, height = 0

#[test]
fn allocate() {
    let storage = vec![0; 4];
    let mut tree = Tree::new(storage, 8);

    // block index 7
    assert_eq!(tree.allocate(1), Ok(Allocation { offset: 0, size: 1 }));

    // block index 8
    assert_eq!(tree.allocate(1), Ok(Allocation { offset: 1, size: 1 }));

    // block index 9
    assert_eq!(tree.allocate(1), Ok(Allocation { offset: 2, size: 1 }));

    // block index 5
    assert_eq!(tree.allocate(2), Ok(Allocation { offset: 4, size: 2 }));

    // block index 10
    assert_eq!(tree.allocate(1), Ok(Allocation { offset: 3, size: 1 }));

    // block index 13
    assert_eq!(tree.allocate(1), Ok(Allocation { offset: 6, size: 1 }));

    // block index 14
    assert_eq!(tree.allocate(1), Ok(Allocation { offset: 7, size: 1 }));

    assert_eq!(tree.allocate(1), Err(OutOfMemoryError));
}

struct Walk {
    seen: Vec<BlockIndex>,
    skip_at: Vec<usize>,
    yield_at: Option<usize>,
}

impl Walk {
    fn descending() -> Self {
        Walk { seen: Vec::new(), skip_at: Vec::new(), yield_at: None }
    }
}

impl Visitor for Walk {
    type Output = BlockIndex;

    fn visit(&mut self, block: BlockIndex) -> Action<BlockIndex> {
        self.seen.push(block);

        if self.yield_at == Some(block.0) {
            Action::Yield(block)
        } else if self.skip_at.contains(&block.0) {
            Action::Skip
        } else {
            Action::Descend
        }
    }
}

#[test]
fn preorder_descend() {
    let storage = vec![0; 4];
    let tree = Tree::new(storage, 8);

    let mut walk = Walk::descending();
    let result = tree.preorder(&mut walk);

    assert_eq!(
        walk.seen,
        [0, 1, 3, 7, 8, 4, 9, 10, 2, 5, 11, 12, 6, 13, 14]
            .into_iter()
            .map(BlockIndex)
            .collect::<Vec<_>>()
    );
    assert_eq!(result, None);
}

#[test]
fn preorder_skip() {
    let storage = vec![0; 4];
    let tree = Tree::new(storage, 8);

    let mut walk = Walk { skip_at: vec![4, 2], ..Walk::descending() };
    let result = tree.preorder(&mut walk);

    assert_eq!(
        walk.seen,
        [0, 1, 3, 7, 8, 4, 2]
            .into_iter()
            .map(BlockIndex)
            .collect::<Vec<_>>()
    );
    assert_eq!(result, None);
}

#[test]
fn preorder_yield() {
    let storage = vec![0; 4];
    let tree = Tree::new(storage, 8);

    let mut walk = Walk { yield_at: Some(5), ..Walk::descending() };
    let result = tree.preorder(&mut walk);

    assert_eq!(
        walk.seen,
        [0, 1, 3, 7, 8, 4, 9, 10, 2, 5]
            .into_iter()
            .map(BlockIndex)
            .collect::<Vec<_>>()
    );
    assert_eq!(result, Some(BlockIndex(5)));
}

#[test]
fn block_index() {
    // depth 0, height 3
    let block = BlockIndex(0);
    assert_eq!(block.superblock(), None);
    assert_eq!(block.buddy(), None);
    assert_eq!(block.depth(), 0);
    assert_eq!(block.offset(), 0);

    // depth 1, height 2
    let block = BlockIndex(1);
    assert_eq!(block.superblock(), Some(BlockIndex(0)));
    assert_eq!(block.buddy(), Some(BlockIndex(2)));
    assert_eq!(block.depth(), 1);
    assert_eq!(block.offset(), 0);

    let block = BlockIndex(2);
    assert_eq!(block.superblock(), Some(BlockIndex(0)));
    assert_eq!(block.buddy(), Some(BlockIndex(1)));
    assert_eq!(block.depth(), 1);
    assert_eq!(block.offset(), 1);

    // depth 2, height 1
    let block = BlockIndex(3);
    assert_eq!(block.superblock(), Some(BlockIndex(1)));
    assert_eq!(block.buddy(), Some(BlockIndex(4)));
    assert_eq!(block.depth(), 2);
    assert_eq!(block.offset(), 0);

    let block = BlockIndex(4);
    assert_eq!(block.superblock(), Some(BlockIndex(1)));
    assert_eq!(block.buddy(), Some(BlockIndex(3)));
    assert_eq!(block.depth(), 2);
    assert_eq!(block.offset(), 1);

    let block = BlockIndex(5);
    assert_eq!(block.superblock(), Some(BlockIndex(2)));
    assert_eq!(block.buddy(), Some(BlockIndex(6)));
    assert_eq!(block.depth(), 2);
    assert_eq!(block.offset(), 2);

    let block = BlockIndex(6);
    assert_eq!(block.superblock(), Some(BlockIndex(2)));
    assert_eq!(block.buddy(), Some(BlockIndex(5)));
    assert_eq!(block.depth(), 2);
    assert_eq!(block.offset(), 3);

    // depth 3, height 0
    let block = BlockIndex(7);
    assert_eq!(block.superblock(), Some(BlockIndex(3)));
    assert_eq!(block.buddy(), Some(BlockIndex(8)));
    assert_eq!(block.depth(), 3);
    assert_eq!(block.offset(), 0);

    let block = BlockIndex(8);
    assert_eq!(block.superblock(), Some(BlockIndex(3)));
    assert_eq!(block.buddy(), Some(BlockIndex(7)));
    assert_eq!(block.depth(), 3);
    assert_eq!(block.offset(), 1);

    let block = BlockIndex(9);
    assert_eq!(block.superblock(), Some(BlockIndex(4)));
    assert_eq!(block.buddy(), Some(BlockIndex(10)));
    assert_eq!(block.depth(), 3);
    assert_eq!(block.offset(), 2);

    let block = BlockIndex(10);
    assert_eq!(block.superblock(), Some(BlockIndex(4)));
    assert_eq!(block.buddy(), Some(BlockIndex(9)));
    assert_eq!(block.depth(), 3);
    assert_eq!(block.offset(), 3);

    let block = BlockIndex(11);
    assert_eq!(block.superblock(), Some(BlockIndex(5)));
    assert_eq!(block.buddy(), Some(BlockIndex(12)));
    assert_eq!(block.depth(), 3);
    assert_eq!(block.offset(), 4);

    let block = BlockIndex(12);
    assert_eq!(block.superblock(), Some(BlockIndex(5)));
    assert_eq!(block.buddy(), Some(BlockIndex(11)));
    assert_eq!(block.depth(), 3);
    assert_eq!(block.offset(), 5);

    let block = BlockIndex(13);
    assert_eq!(block.superblock(), Some(BlockIndex(6)));
    assert_eq!(block.buddy(), Some(BlockIndex(14)));
    assert_eq!(block.depth(), 3);
    assert_eq!(block.offset(), 6);

    let block = BlockIndex(14);
    assert_eq!(block.superblock(), Some(BlockIndex(6)));
    assert_eq!(block.buddy(), Some(BlockIndex(13)));
    assert_eq!(block.depth(), 3);
    assert_eq!(block.offset(), 7);
}

#[test]
fn rounds_up_and_exhausts() {
    let mut tree = Tree::new(vec![0; 4], 8);

    // 3 blocks round up to 4
    assert_eq!(tree.allocate(3), Ok(Allocation { offset: 0, size: 4 }));
    assert_eq!(tree.allocate(4), Ok(Allocation { offset: 4, size: 4 }));
    assert_eq!(tree.allocate(1), Err(OutOfMemoryError));
}

#[test]
fn free_then_reallocate() {
    let mut tree = Tree::new(vec![0; 4], 8);

    for expected in [0, 1, 2] {
        assert_eq!(tree.allocate(1), Ok(Allocation { offset: expected, size: 1 }));
    }
    assert_eq!(tree.allocate(2), Ok(Allocation { offset: 4, size: 2 }));

    // freeing the two-block allocation lets an equal request reuse it
    assert_eq!(tree.free(4), Ok(()));
    assert_eq!(tree.allocate(2), Ok(Allocation { offset: 4, size: 2 }));
}

#[test]
fn balanced_history_restores_storage() {
    let mut tree = Tree::new(vec![0; 4], 8);
    let fresh = tree.storage().clone();

    let a = tree.allocate(2).unwrap();
    let b = tree.allocate(1).unwrap();
    let c = tree.allocate(3).unwrap();
    assert_ne!(tree.storage(), &fresh);

    assert_eq!(tree.free(b.offset), Ok(()));
    assert_eq!(tree.free(a.offset), Ok(()));
    assert_eq!(tree.free(c.offset), Ok(()));

    // every allocation freed: the bit buffer is exactly the initial one
    assert_eq!(tree.storage(), &fresh);
}

#[test]
fn allocate_then_free_is_identity() {
    let mut tree = Tree::new(vec![0; 4], 8);
    let before = tree.storage().clone();

    let a = tree.allocate(5).unwrap();
    assert_eq!(tree.free(a.offset), Ok(()));

    assert_eq!(tree.storage(), &before);
}

#[test]
fn double_free() {
    let mut tree = Tree::new(vec![0; 4], 8);

    let a = tree.allocate(2).unwrap();

    // a free of the just-returned offset succeeds; a second one fails
    assert_eq!(tree.free(a.offset), Ok(()));
    assert_eq!(tree.free(a.offset), Err(DoubleFreeError));
}

#[test]
fn free_of_unallocated_offset() {
    let mut tree = Tree::new(vec![0; 4], 8);
    let _ = tree.allocate(1).unwrap();
    let snapshot = tree.storage().clone();

    // offset 5 was never returned by an allocation
    assert_eq!(tree.free(5), Err(DoubleFreeError));
    assert_eq!(tree.storage(), &snapshot);
}

#[test]
fn allocation_is_aligned_to_its_size() {
    let mut tree = Tree::new(vec![0; 8], 16);

    let _ = tree.allocate(1).unwrap();
    for request in [3, 2, 5] {
        let a = tree.allocate(request).unwrap();
        assert!(a.size >= request);
        assert!(a.size.is_power_of_two());
        assert_eq!(a.offset % a.size, 0);
    }
}

#[test]
fn storage_bits_required_is_monotone() {
    let mut previous: usize = 0;
    for leaf_blocks in 1..=64 {
        let bits = Tree::storage_bits_required(leaf_blocks);
        assert!(bits >= previous);
        if leaf_blocks > 1 && leaf_blocks.next_power_of_two() == (leaf_blocks - 1).next_power_of_two() {
            assert_eq!(bits, previous);
        }
        previous = bits;
    }
}

#[test]
fn depth_and_bytes_required() {
    assert_eq!(Tree::depth_required(1), 0);
    assert_eq!(Tree::depth_required(2), 1);
    assert_eq!(Tree::depth_required(3), 2);
    assert_eq!(Tree::depth_required(8), 3);
    assert_eq!(Tree::depth_required(9), 4);

    // uniform two-bits-per-node budget, rounded up to whole bytes
    assert_eq!(Tree::storage_bytes_required(1), 1);
    assert_eq!(Tree::storage_bytes_required(2), 1);
    assert_eq!(Tree::storage_bytes_required(3), 2);
    assert_eq!(Tree::storage_bytes_required(4), 2);
    assert_eq!(Tree::storage_bytes_required(254), 128);
}
