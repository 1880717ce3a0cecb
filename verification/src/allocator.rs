//! The page allocator: adapts the buddy [`Tree`](crate::tree::Tree) to a
//! physical byte range `[start, end)`.
//!
//! The front of the range is carved off to back the tree's bit buffer, the
//! rest is a page-aligned heap. The tree is sized over the range *before*
//! the metadata is carved out, so it can hand back blocks that extend past
//! the real heap end; `allocate` frees those back immediately and reports
//! the request as out of memory. Addresses are plain `usize` values.

use vstd::prelude::*;

verus! {

use crate::math::{log2_up, next_pow2, pow2, MAX_LEAF_BLOCKS};
use crate::tree::model::{
    available,
    depth_of,
    unit_offset,
    unit_size,
    valid,
    wf,
    BlockState,
};
use crate::tree::{
    spec_storage_bytes_required,
    DoubleFreeError,
    OutOfMemoryError,
    Tree,
};

/// Size of one page, in bytes.
pub const PAGE_SIZE: usize = 4096;

/// `a` rounded up to the next page boundary.
pub open spec fn page_align_up(a: int) -> int {
    ((a + 4095) / 4096) * 4096
}

/// Pages of the nominal extent: the page-aligned range before the metadata
/// prefix is carved out.
pub open spec fn nominal_pages_of(start: int, end: int) -> int {
    (end - page_align_up(start)) / 4096
}

/// A successful allocation: a page-aligned address and a size in bytes.
#[derive(PartialEq, Eq, Structural, Debug)]
pub struct Allocation {
    /// Address of the first allocated page.
    pub ptr: usize,
    /// Number of bytes spanned: the rounded-up block count times `PAGE_SIZE`.
    pub size: usize,
}

/// The leftmost reachable free block of the target depth: the one the tree
/// hands to an allocation request.
pub open spec fn chosen_block(nodes: Seq<BlockState>, depth: nat, td: nat, b: int) -> bool {
    &&& valid(b, depth)
    &&& depth_of(b) == td
    &&& available(nodes, b)
    &&& (forall|j: int|
        valid(j, depth) && depth_of(j) == td && j < b ==> !(#[trigger] available(nodes, j)))
}

/// Creates a vector of `n` bytes.
fn byte_buffer(n: usize) -> (v: Vec<u8>)
    ensures
        v.len() == n,
{
    let mut v: Vec<u8> = Vec::new();
    let mut k: usize = 0;
    while k < n
        invariant
            k <= n,
            v.len() == k,
        decreases n - k,
    {
        v.push(0);
        k = k + 1;
    }
    v
}

/// A page allocator over the byte range it was built with.
#[derive(Debug)]
pub struct Allocator {
    tree: Tree,
    heap: usize,
    tree_len: usize,
    heap_len_pages: usize,
}

impl Allocator {
    pub closed spec fn spec_tree(&self) -> Tree {
        self.tree
    }

    pub closed spec fn spec_heap(&self) -> int {
        self.heap as int
    }

    pub closed spec fn spec_tree_len(&self) -> int {
        self.tree_len as int
    }

    pub closed spec fn spec_heap_len_pages(&self) -> int {
        self.heap_len_pages as int
    }

    /// Structural invariant: a well-formed tree over a page-aligned heap
    /// whose real extent never exceeds the tree's nominal one.
    pub closed spec fn inv(&self) -> bool {
        &&& self.tree.inv()
        &&& wf(self.tree.nodes(), self.tree.spec_depth())
        &&& self.heap as int % 4096 == 0
        &&& self.heap_len_pages <= pow2(self.tree.spec_depth())
        &&& self.heap + self.heap_len_pages * 4096 <= usize::MAX
    }

    /// Facts about the invariant that callers may rely on: the allocator's
    /// tree is itself a valid, well-formed tree (so its depth equals
    /// `log2_up` of its leaf count, via [`Tree::lemma_inv_facts`]), the heap
    /// is page-aligned, and the real heap never exceeds the tree's extent.
    pub proof fn lemma_inv_facts(&self)
        requires
            self.inv(),
        ensures
            self.spec_tree().inv(),
            wf(self.spec_tree().nodes(), self.spec_tree().spec_depth()),
            self.spec_tree().spec_depth() == log2_up(self.spec_tree().spec_leaf_blocks()),
            self.spec_heap() % 4096 == 0,
            0 <= self.spec_heap_len_pages() <= pow2(self.spec_tree().spec_depth()),
            self.spec_heap() + self.spec_heap_len_pages() * 4096 <= usize::MAX,
    {
        self.tree.lemma_inv_facts();
    }

    /// Builds an allocator over `[start, end)`.
    ///
    /// The range must end on a page boundary, hold at least one page past
    /// the aligned start, and stay within the tree's supported extent.
    pub fn new(start: usize, end: usize) -> (a: Allocator)
        requires
            end as int % 4096 == 0,
            page_align_up(start as int) + 4096 <= end,
            nominal_pages_of(start as int, end as int) <= MAX_LEAF_BLOCKS,
        ensures
            a.inv(),
            a.spec_tree().inv(),
            wf(a.spec_tree().nodes(), a.spec_tree().spec_depth()),
            a.spec_tree().spec_leaf_blocks() == nominal_pages_of(start as int, end as int),
            a.spec_tree().spec_depth() == log2_up(
                nominal_pages_of(start as int, end as int) as nat,
            ),
            a.spec_tree_len() == spec_storage_bytes_required(
                nominal_pages_of(start as int, end as int) as nat,
            ),
            a.spec_heap() == page_align_up(start as int + a.spec_tree_len()),
            a.spec_heap_len_pages() == (end - a.spec_heap()) / 4096,
            a.spec_heap_len_pages() <= nominal_pages_of(start as int, end as int),
            forall|i: int|
                valid(i, a.spec_tree().spec_depth()) ==> #[trigger] a.spec_tree().nodes()[i]
                    is Free,
    {
        let start_aligned = ((start + (PAGE_SIZE - 1)) / PAGE_SIZE) * PAGE_SIZE;
        let nominal_pages = (end - start_aligned) / PAGE_SIZE;
        let tree_len = Tree::storage_bytes_required(nominal_pages);
        proof {
            crate::math::lemma_next_pow2_bounds(nominal_pages as nat);
            vstd::arithmetic::power2::lemma2_to64();
            if nominal_pages == 1 {
                assert(log2_up(1nat) == 0);
            }
            assert(tree_len <= 2 * nominal_pages);
        }
        let storage = byte_buffer(tree_len);
        let tree = Tree::new(storage, nominal_pages);
        let tree_end = start + tree_len;
        let heap = ((tree_end + (PAGE_SIZE - 1)) / PAGE_SIZE) * PAGE_SIZE;
        let heap_len_pages = (end - heap) / PAGE_SIZE;
        proof {
            tree.lemma_inv_facts();
            crate::math::lemma_next_pow2_bounds(nominal_pages as nat);
            crate::math::lemma_log2_up_unique(nominal_pages as nat, tree.spec_depth());
        }
        Allocator { tree, heap, tree_len, heap_len_pages }
    }

    /// Bytes carved off the front of the range for the tree's bit buffer.
    pub fn tree_len(&self) -> (n: usize)
        ensures
            n as int == self.spec_tree_len(),
    {
        self.tree_len
    }

    /// Number of real heap pages below the range's end.
    pub fn heap_len_pages(&self) -> (n: usize)
        ensures
            n as int == self.spec_heap_len_pages(),
    {
        self.heap_len_pages
    }

    /// Return false iff the given allocation overflows the actual end of the
    /// heap, which may be less than the space representable by the tree.
    fn is_within_heap(&self, allocation: &crate::tree::Allocation) -> (r: bool)
        requires
            allocation.offset + allocation.size <= usize::MAX,
        ensures
            r == (allocation.offset + allocation.size <= self.spec_heap_len_pages()),
    {
        allocation.offset + allocation.size <= self.heap_len_pages
    }

    /// Attempts to allocate `block_count` contiguous pages.
    ///
    /// Succeeds exactly when the tree's leftmost free block of the rounded
    /// size lies wholly inside the real heap; the returned address is
    /// `heap + offset * PAGE_SIZE` and the size is the rounded block count
    /// in bytes. On failure the tree is unchanged.
    pub fn allocate(&mut self, block_count: usize) -> (r: Result<Allocation, OutOfMemoryError>)
        requires
            old(self).inv(),
        ensures
            final(self).inv(),
            final(self).spec_heap() == old(self).spec_heap(),
            final(self).spec_tree_len() == old(self).spec_tree_len(),
            final(self).spec_heap_len_pages() == old(self).spec_heap_len_pages(),
            final(self).spec_tree().spec_depth() == old(self).spec_tree().spec_depth(),
            final(self).spec_tree().spec_leaf_blocks() == old(self).spec_tree().spec_leaf_blocks(),
            r is Err ==> final(self).spec_tree().nodes() == old(self).spec_tree().nodes()
                && final(self).spec_tree().storage_bytes() == old(self).spec_tree().storage_bytes(),
            r is Ok <==> (1 <= block_count && log2_up(block_count as nat) <= old(self).spec_tree().spec_depth() && exists|b: int|
                {
                    &&& #[trigger] chosen_block(
                        old(self).spec_tree().nodes(),
                        old(self).spec_tree().spec_depth(),
                        (old(self).spec_tree().spec_depth() - log2_up(block_count as nat)) as nat,
                        b,
                    )
                    &&& unit_offset(b, old(self).spec_tree().spec_depth()) + unit_size(
                        b,
                        old(self).spec_tree().spec_depth(),
                    ) <= old(self).spec_heap_len_pages()
                }),
            (match r {
                Ok(a) => exists|b: int|
                    {
                        &&& #[trigger] chosen_block(
                            old(self).spec_tree().nodes(),
                            old(self).spec_tree().spec_depth(),
                            (old(self).spec_tree().spec_depth() - log2_up(
                                block_count as nat,
                            )) as nat,
                            b,
                        )
                        &&& unit_offset(b, old(self).spec_tree().spec_depth()) + unit_size(
                            b,
                            old(self).spec_tree().spec_depth(),
                        ) <= old(self).spec_heap_len_pages()
                        &&& a.ptr == old(self).spec_heap() + unit_offset(
                            b,
                            old(self).spec_tree().spec_depth(),
                        ) * 4096
                        &&& a.size == next_pow2(block_count as nat) * 4096
                        &&& (forall|i: int|
                            valid(i, old(self).spec_tree().spec_depth()) ==> ((
                            #[trigger] final(self).spec_tree().nodes()[i] is Allocated) <==> (old(self).spec_tree().nodes()[i] is Allocated || i == b)))
                    },
                Err(_) => true,
            }),
    {
        let ghost t0 = self.tree;
        let ghost d = self.tree.spec_depth();
        let ghost td = (d - log2_up(block_count as nat)) as nat;
        let tentative = self.tree.allocate(block_count);
        match tentative {
            Err(e) => {
                proof {
                    if 1 <= block_count && log2_up(block_count as nat) <= d {
                        assert forall|b: int|
                            chosen_block(t0.nodes(), d, td, b) implies !available(
                            t0.nodes(),
                            b,
                        ) by {}
                    }
                }
                Err(e)
            },
            Ok(al) => {
                proof {
                    self.tree.lemma_inv_facts();
                    crate::math::lemma_max_leaf_blocks_pow2();
                    crate::math::lemma_pow2_le(d, 28);
                    let b = choose|b: int|
                        {
                            &&& valid(b, d)
                            &&& depth_of(b) == td
                            &&& #[trigger] available(t0.nodes(), b)
                            &&& unit_offset(b, d) == al.offset
                            &&& (forall|j: int|
                                valid(j, d) && depth_of(j) == td && j < b ==> !(
                                #[trigger] available(t0.nodes(), j)))
                            &&& (forall|i: int|
                                valid(i, d) ==> ((#[trigger] self.tree.nodes()[i] is Allocated)
                                    <==> (t0.nodes()[i] is Allocated || i == b)))
                        };
                    crate::tree::model::lemma_unit_span(b, d);
                    assert(chosen_block(t0.nodes(), d, td, b));
                }
                if !self.is_within_heap(&al) {
                    let ghost t1 = self.tree;
                    let freed = self.tree.free(al.offset);
                    match freed {
                        Ok(()) => {},
                        Err(_) => {
                            proof {
                                let b = choose|b: int|
                                    {
                                        &&& valid(b, d)
                                        &&& depth_of(b) == td
                                        &&& #[trigger] available(t0.nodes(), b)
                                        &&& unit_offset(b, d) == al.offset
                                        &&& (forall|j: int|
                                            valid(j, d) && depth_of(j) == td && j < b ==> !(
                                            #[trigger] available(t0.nodes(), j)))
                                        &&& (forall|i: int|
                                            valid(i, d) ==> ((#[trigger] t1.nodes()[i]
                                                is Allocated) <==> (t0.nodes()[i] is Allocated || i
                                                == b)))
                                    };
                                assert(t1.nodes()[b] is Allocated);
                                assert(false);
                            }
                        },
                    }
                    proof {
                        let b = choose|b: int|
                            {
                                &&& valid(b, d)
                                &&& depth_of(b) == td
                                &&& #[trigger] available(t0.nodes(), b)
                                &&& unit_offset(b, d) == al.offset
                                &&& (forall|j: int|
                                    valid(j, d) && depth_of(j) == td && j < b ==> !(
                                    #[trigger] available(t0.nodes(), j)))
                                &&& (forall|i: int|
                                    valid(i, d) ==> ((#[trigger] t1.nodes()[i] is Allocated) <==> (
                                    t0.nodes()[i] is Allocated || i == b)))
                            };
                        let b2 = choose|b2: int|
                            {
                                &&& valid(b2, d)
                                &&& #[trigger] t1.nodes()[b2] is Allocated
                                &&& unit_offset(b2, d) == al.offset
                                &&& (forall|i: int|
                                    valid(i, d) ==> ((#[trigger] self.tree.nodes()[i]
                                        is Allocated) <==> (t1.nodes()[i] is Allocated && i
                                        != b2)))
                            };
                        crate::tree::model::lemma_allocated_offset_unique(t1.nodes(), d, b, b2);
                        assert forall|i: int|
                            valid(i, d) implies ((#[trigger] self.tree.nodes()[i] is Allocated)
                            <==> t0.nodes()[i] is Allocated) by {}
                        crate::tree::model::lemma_state_determined(
                            self.tree.nodes(),
                            t0.nodes(),
                            d,
                        );
                        crate::tree::lemma_storage_determined(&self.tree, &t0);
                        // no block of this size both reachable and inside the heap
                        assert forall|b3: int|
                            chosen_block(t0.nodes(), d, td, b3) implies !(unit_offset(b3, d)
                            + unit_size(b3, d) <= old(self).spec_heap_len_pages()) by {
                            if b3 < b {
                                assert(!available(t0.nodes(), b3));
                            } else if b3 > b {
                                assert(!available(t0.nodes(), b));
                            }
                        }
                    }
                    Err(OutOfMemoryError)
                } else {
                    proof {
                        assert(al.offset + al.size <= self.heap_len_pages);
                        assert(al.offset * 4096 + al.size * 4096 <= self.heap_len_pages * 4096)
                            by (nonlinear_arith)
                            requires
                                al.offset + al.size <= self.heap_len_pages,
                        ;
                    }
                    Ok(
                        Allocation {
                            ptr: self.heap + al.offset * PAGE_SIZE,
                            size: al.size * PAGE_SIZE,
                        },
                    )
                }
            },
        }
    }

    /// Frees a previous allocation, identified by its address.
    ///
    /// Succeeds exactly when the address maps to a page offset inside the
    /// heap at which an allocated block sits. On failure the tree is
    /// unchanged.
    pub fn free(&mut self, allocation: Allocation) -> (r: Result<(), DoubleFreeError>)
        requires
            old(self).inv(),
        ensures
            final(self).inv(),
            final(self).spec_heap() == old(self).spec_heap(),
            final(self).spec_tree_len() == old(self).spec_tree_len(),
            final(self).spec_heap_len_pages() == old(self).spec_heap_len_pages(),
            final(self).spec_tree().spec_depth() == old(self).spec_tree().spec_depth(),
            final(self).spec_tree().spec_leaf_blocks() == old(self).spec_tree().spec_leaf_blocks(),
            r is Err ==> final(self).spec_tree().nodes() == old(self).spec_tree().nodes()
                && final(self).spec_tree().storage_bytes() == old(self).spec_tree().storage_bytes(),
            r is Err <==> (allocation.ptr < old(self).spec_heap() || (allocation.ptr - old(self).spec_heap()) / 4096 > old(self).spec_heap_len_pages() || (forall|j: int|
                valid(j, old(self).spec_tree().spec_depth()) && (#[trigger] old(self).spec_tree().nodes()[j] is Allocated) ==> unit_offset(
                    j,
                    old(self).spec_tree().spec_depth(),
                ) != (allocation.ptr - old(self).spec_heap()) / 4096)),
            r is Ok ==> exists|b: int|
                {
                    &&& valid(b, old(self).spec_tree().spec_depth())
                    &&& #[trigger] old(self).spec_tree().nodes()[b] is Allocated
                    &&& unit_offset(b, old(self).spec_tree().spec_depth()) == (allocation.ptr
                        - old(self).spec_heap()) / 4096
                    &&& (forall|i: int|
                        valid(i, old(self).spec_tree().spec_depth()) ==> ((#[trigger] final(self).spec_tree().nodes()[i] is Allocated) <==> (old(self).spec_tree().nodes()[i] is Allocated && i != b)))
                },
    {
        if allocation.ptr < self.heap {
            return Err(DoubleFreeError);
        }
        let offset = (allocation.ptr - self.heap) / PAGE_SIZE;
        if offset > self.heap_len_pages {
            return Err(DoubleFreeError);
        }
        self.tree.free(offset)
    }
}

} // verus!
