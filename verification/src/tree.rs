//! The buddy tree: a bit-packed complete binary tree of block states backing
//! power-of-two block allocation.
//!
//! Internal nodes take two bits each (`subdivided`, `allocated_or_full`);
//! leaves take one. The abstract view of a tree is the sequence of its nodes'
//! states, and every operation's contract speaks of that view through the
//! predicates of [`model`].

pub mod model;

use vstd::prelude::*;

verus! {

use crate::math::{
    lemma_log2_up_unique,
    lemma_max_leaf_blocks_pow2,
    lemma_next_pow2_bounds,
    lemma_pow2_double,
    lemma_pow2_le,
    log2_up,
    log2_up_exec,
    next_pow2,
    pow2,
    MAX_LEAF_BLOCKS,
};
use model::{
    available,
    clean_between,
    depth_of,
    first_at_depth,
    in_subtree,
    is_ancestor,
    is_internal,
    is_subdivided,
    left_child,
    node_count,
    offset_of,
    path_clear,
    right_child,
    unit_offset,
    valid,
    wf,
    wf_at,
    BlockState,
};

/// A successful allocation, measured in blocks.
#[derive(PartialEq, Eq, Structural, Debug)]
pub struct Allocation {
    /// Start of the allocation.
    pub offset: usize,
    /// Number of blocks spanned by this allocation.
    ///
    /// May be larger than the requested number of blocks.
    pub size: usize,
}

/// No free block of the requested size is reachable.
#[derive(PartialEq, Eq, Structural, Debug)]
pub struct OutOfMemoryError;

/// No allocated block matches the offset handed to `free`.
#[derive(PartialEq, Eq, Structural, Debug)]
pub struct DoubleFreeError;

/// Value of bit `i` of a byte buffer, most significant bit first.
pub open spec fn bit_of(bytes: Seq<u8>, i: int) -> bool {
    (bytes[i / 8] >> ((7 - i % 8) as u8)) & 1 == 1
}

/// State decoded from an internal node's two bits.
pub open spec fn decode2(subdivided: bool, allocated_or_full: bool) -> BlockState {
    if subdivided {
        if allocated_or_full {
            BlockState::SuperblockFull
        } else {
            BlockState::Superblock
        }
    } else {
        if allocated_or_full {
            BlockState::Allocated
        } else {
            BlockState::Free
        }
    }
}

/// State of node `i` as stored in the bit buffer of a tree whose first leaf
/// is node `first_leaf`.
pub open spec fn node_state_of(bytes: Seq<u8>, first_leaf: int, i: int) -> BlockState {
    if i < first_leaf {
        decode2(bit_of(bytes, 2 * i), bit_of(bytes, 2 * i + 1))
    } else {
        if bit_of(bytes, 2 * first_leaf + (i - first_leaf)) {
            BlockState::Allocated
        } else {
            BlockState::Free
        }
    }
}

/// Bits needed for a tree of the given depth: two per internal node, one per
/// leaf.
pub open spec fn bits_for_depth(depth: nat) -> int {
    3 * pow2(depth) - 2
}

/// Minimum bits to back a tree with at least `leaf_blocks` leaves.
pub open spec fn spec_storage_bits_required(leaf_blocks: nat) -> int {
    (next_pow2(leaf_blocks) - 1) * 2 + next_pow2(leaf_blocks)
}

/// Bytes that back a tree with at least `leaf_blocks` leaves under a uniform
/// two-bits-per-node budget: a whole-byte bound that is never below
/// `spec_storage_bits_required` in bits.
pub open spec fn spec_storage_bytes_required(leaf_blocks: nat) -> int {
    ((2 * next_pow2(leaf_blocks) - 1) * 2 + 7) / 8
}

/// Flipping one stored bit leaves every other bit of the byte as it was.
proof fn lemma_u8_bit_update(x: u8, s: u8, t: u8, b: bool)
    by (bit_vector)
    requires
        s < 8,
        t < 8,
    ensures
        ({
            let y = if b {
                x | (1u8 << s)
            } else {
                x & !(1u8 << s)
            };
            ((y >> t) & 1 == 1) == (if t == s {
                b
            } else {
                (x >> t) & 1 == 1
            })
        }),
{
}

/// Every bit of the zero byte is clear.
proof fn lemma_u8_zero_bits(t: u8)
    by (bit_vector)
    requires
        t < 8,
    ensures
        (0u8 >> t) & 1 != 1,
{
}

/// A byte is determined by its eight bits.
proof fn lemma_u8_from_bits(x: u8, y: u8)
    by (bit_vector)
    requires
        ((x >> 0u8) & 1 == 1) == ((y >> 0u8) & 1 == 1),
        ((x >> 1u8) & 1 == 1) == ((y >> 1u8) & 1 == 1),
        ((x >> 2u8) & 1 == 1) == ((y >> 2u8) & 1 == 1),
        ((x >> 3u8) & 1 == 1) == ((y >> 3u8) & 1 == 1),
        ((x >> 4u8) & 1 == 1) == ((y >> 4u8) & 1 == 1),
        ((x >> 5u8) & 1 == 1) == ((y >> 5u8) & 1 == 1),
        ((x >> 6u8) & 1 == 1) == ((y >> 6u8) & 1 == 1),
        ((x >> 7u8) & 1 == 1) == ((y >> 7u8) & 1 == 1),
    ensures
        x == y,
{
}

/// Reads bit `i` of the buffer, most significant bit first.
fn read_bit(bytes: &Vec<u8>, i: usize) -> (b: bool)
    requires
        i < 8 * bytes.len(),
    ensures
        b == bit_of(bytes@, i as int),
{
    let byte = bytes[i / 8];
    let sh: u8 = (7 - (i % 8)) as u8;
    ((byte >> sh) & 1) == 1
}

/// Sets bit `i` of the buffer, leaving all other bits unchanged.
fn write_bit(bytes: &mut Vec<u8>, i: usize, b: bool)
    requires
        i < 8 * old(bytes).len(),
    ensures
        final(bytes).len() == old(bytes).len(),
        forall|j: int|
            0 <= j < 8 * old(bytes).len() ==> #[trigger] bit_of(final(bytes)@, j) == (if j
                == i as int {
                b
            } else {
                bit_of(old(bytes)@, j)
            }),
{
    let sh: u8 = (7 - (i % 8)) as u8;
    let mask: u8 = 1u8 << sh;
    let byte = bytes[i / 8];
    let updated = if b {
        byte | mask
    } else {
        byte & !mask
    };
    bytes.set(i / 8, updated);
    proof {
        assert forall|j: int| 0 <= j < 8 * old(bytes).len() implies #[trigger] bit_of(
            bytes@,
            j,
        ) == (if j == i as int {
            b
        } else {
            bit_of(old(bytes)@, j)
        }) by {
            if j / 8 == i as int / 8 {
                lemma_u8_bit_update(byte, sh, (7 - j % 8) as u8, b);
                assert(j == i as int <==> (7 - j % 8) as u8 == sh);
            }
        }
    }
}

/// The storage requirement grows with the leaf count, and is unchanged as
/// long as the rounded-up leaf count is unchanged.
pub proof fn lemma_storage_bits_monotone(k1: nat, k2: nat)
    requires
        1 <= k1 <= k2,
    ensures
        spec_storage_bits_required(k1) <= spec_storage_bits_required(k2),
        next_pow2(k1) == next_pow2(k2) ==> spec_storage_bits_required(k1)
            == spec_storage_bits_required(k2),
{
    crate::math::lemma_log2_up_monotone(k1, k2);
    lemma_pow2_le(log2_up(k1), log2_up(k2));
}

/// Equal abstract states mean equal bit buffers. Together with
/// `model::lemma_state_determined` and `model::lemma_no_allocated_all_free`:
/// after a balanced history of allocations and frees, a tree's buffer equals
/// the freshly initialised one, and one allocation followed by its free
/// restores the buffer exactly.
pub proof fn lemma_storage_determined(t1: &Tree, t2: &Tree)
    requires
        t1.inv(),
        t2.inv(),
        t1.spec_depth() == t2.spec_depth(),
        t1.nodes() == t2.nodes(),
    ensures
        t1.storage_bytes() == t2.storage_bytes(),
{
    let d = t1.spec_depth();
    let s1 = t1.storage_bytes();
    let s2 = t2.storage_bytes();
    let fl = first_at_depth(d);
    vstd::arithmetic::power2::lemma_pow2_pos(d);
    lemma_pow2_double(d);
    assert(s1.len() == s2.len());
    assert forall|j: int| 0 <= j < 8 * s1.len() implies bit_of(s1, j) == bit_of(s2, j) by {
        if j < bits_for_depth(d) {
            if j < 2 * fl {
                let n = j / 2;
                assert(valid(n, d));
                assert(t1.nodes()[n] == node_state_of(s1, fl, n));
                assert(t2.nodes()[n] == node_state_of(s2, fl, n));
                assert(t1.nodes()[n] == t2.nodes()[n]);
                assert(bit_of(s1, 2 * n) == bit_of(s2, 2 * n) && bit_of(s1, 2 * n + 1) == bit_of(
                    s2,
                    2 * n + 1,
                ));
                assert(j == 2 * n || j == 2 * n + 1);
            } else {
                let n = j - fl;
                assert(valid(n, d));
                assert(t1.nodes()[n] == node_state_of(s1, fl, n));
                assert(t2.nodes()[n] == node_state_of(s2, fl, n));
                assert(t1.nodes()[n] == t2.nodes()[n]);
                assert(j == 2 * fl + (n - fl));
            }
        }
    }
    assert forall|k: int| 0 <= k < s1.len() implies s1[k] == s2[k] by {
        assert(bit_of(s1, 8 * k) == bit_of(s2, 8 * k));
        assert(bit_of(s1, 8 * k + 1) == bit_of(s2, 8 * k + 1));
        assert(bit_of(s1, 8 * k + 2) == bit_of(s2, 8 * k + 2));
        assert(bit_of(s1, 8 * k + 3) == bit_of(s2, 8 * k + 3));
        assert(bit_of(s1, 8 * k + 4) == bit_of(s2, 8 * k + 4));
        assert(bit_of(s1, 8 * k + 5) == bit_of(s2, 8 * k + 5));
        assert(bit_of(s1, 8 * k + 6) == bit_of(s2, 8 * k + 6));
        assert(bit_of(s1, 8 * k + 7) == bit_of(s2, 8 * k + 7));
        lemma_u8_from_bits(s1[k], s2[k]);
    }
    assert(s1 =~= s2);
}

/// A tree with no live allocation is indistinguishable from a freshly
/// initialised one, buffer included: every balanced sequence of allocations
/// and frees returns the bit buffer to its initial state.
pub proof fn lemma_balanced_tree_is_fresh(t: &Tree, fresh: &Tree)
    requires
        t.inv(),
        fresh.inv(),
        wf(t.nodes(), t.spec_depth()),
        wf(fresh.nodes(), fresh.spec_depth()),
        t.spec_depth() == fresh.spec_depth(),
        forall|i: int|
            valid(i, t.spec_depth()) ==> !(#[trigger] t.nodes()[i] is Allocated),
        forall|i: int|
            valid(i, fresh.spec_depth()) ==> #[trigger] fresh.nodes()[i] is Free,
    ensures
        t.nodes() == fresh.nodes(),
        t.storage_bytes() == fresh.storage_bytes(),
{
    model::lemma_no_allocated_all_free(t.nodes(), t.spec_depth());
    model::lemma_state_determined(t.nodes(), fresh.nodes(), t.spec_depth());
    lemma_storage_determined(t, fresh);
}

/// No two live allocations overlap: two distinct allocated blocks of a
/// well-formed tree occupy disjoint runs of leaf units.
pub proof fn lemma_live_allocations_disjoint(t: &Tree, i: int, j: int)
    requires
        t.inv(),
        wf(t.nodes(), t.spec_depth()),
        valid(i, t.spec_depth()),
        valid(j, t.spec_depth()),
        i != j,
        t.nodes()[i] is Allocated,
        t.nodes()[j] is Allocated,
    ensures
        unit_offset(i, t.spec_depth()) + model::unit_size(i, t.spec_depth()) <= unit_offset(
            j,
            t.spec_depth(),
        ) || unit_offset(j, t.spec_depth()) + model::unit_size(j, t.spec_depth()) <= unit_offset(
            i,
            t.spec_depth(),
        ),
{
    model::lemma_allocated_disjoint(t.nodes(), t.spec_depth(), i, j);
}

/// A bitmap-backed binary tree tracking the state of power-of-two memory
/// blocks within a buddy allocation scheme.
#[derive(Debug)]
pub struct Tree {
    /// Bit-level storage of block states.
    storage: Vec<u8>,
    /// Count of leaf blocks requested for the tree.
    leaf_blocks: usize,
    /// Total depth of the tree: the number of edges between the root block
    /// and a leaf block.
    depth: usize,
    /// Block index of the first leaf block.
    first_leaf: usize,
}

impl Tree {
    /// Size, in bits, of a non-leaf block.
    pub const NONLEAF_BITS: usize = 2;

    /// Size, in bits, of a leaf block.
    pub const LEAF_BITS: usize = 1;

    /// The sequence of node states the bit buffer encodes: the tree's
    /// abstract value.
    pub closed spec fn nodes(&self) -> Seq<BlockState> {
        Seq::new(
            node_count(self.depth as nat) as nat,
            |i: int| node_state_of(self.storage@, self.first_leaf as int, i),
        )
    }

    pub closed spec fn spec_depth(&self) -> nat {
        self.depth as nat
    }

    pub closed spec fn spec_leaf_blocks(&self) -> nat {
        self.leaf_blocks as nat
    }

    /// The raw bit buffer.
    pub closed spec fn storage_bytes(&self) -> Seq<u8> {
        self.storage@
    }

    /// Structural invariant: the depth matches the requested leaf count, the
    /// buffer is exactly wide enough, and the padding bits of the last byte
    /// are clear.
    pub closed spec fn inv(&self) -> bool {
        &&& 1 <= self.leaf_blocks <= MAX_LEAF_BLOCKS
        &&& self.depth == log2_up(self.leaf_blocks as nat)
        &&& self.depth <= 28
        &&& self.first_leaf == pow2(self.depth as nat) - 1
        &&& 8 * self.storage.len() >= bits_for_depth(self.depth as nat)
        &&& self.storage.len() == (bits_for_depth(self.depth as nat) + 7) / 8
        &&& forall|j: int|
            bits_for_depth(self.depth as nat) <= j < 8 * self.storage.len()
                ==> !#[trigger] bit_of(self.storage@, j)
    }

    /// The number of nodes in the tree.
    pub closed spec fn spec_block_count(&self) -> int {
        node_count(self.depth as nat)
    }

    /// Facts about the invariant that callers may rely on.
    pub proof fn lemma_inv_facts(&self)
        requires
            self.inv(),
        ensures
            self.nodes().len() == node_count(self.spec_depth()),
            self.spec_depth() == log2_up(self.spec_leaf_blocks()),
            self.spec_depth() <= 28,
            1 <= self.spec_leaf_blocks() <= MAX_LEAF_BLOCKS,
            pow2(self.spec_depth()) >= self.spec_leaf_blocks(),
    {
        lemma_next_pow2_bounds(self.leaf_blocks as nat);
        vstd::arithmetic::power2::lemma_pow2_pos(self.spec_depth());
        lemma_pow2_double(self.spec_depth());
    }

    /// Returns the number of bits required to store a tree with at least the
    /// specified number of leaf blocks.
    pub fn storage_bits_required(leaf_blocks: usize) -> (bits: usize)
        requires
            1 <= leaf_blocks <= MAX_LEAF_BLOCKS,
        ensures
            bits == spec_storage_bits_required(leaf_blocks as nat),
            bits == bits_for_depth(log2_up(leaf_blocks as nat)),
    {
        let (_, l) = log2_up_exec(leaf_blocks);
        let nonleaf_blocks = l - 1;
        nonleaf_blocks * Self::NONLEAF_BITS + l * Self::LEAF_BITS
    }

    /// Returns the number of whole bytes that back a tree with at least the
    /// specified number of leaf blocks, budgeting two bits for every node.
    ///
    /// This is the metadata prefix a page allocator carves off; it always
    /// covers `storage_bits_required` of the same leaf count.
    pub fn storage_bytes_required(leaf_blocks: usize) -> (bytes: usize)
        requires
            1 <= leaf_blocks <= MAX_LEAF_BLOCKS,
        ensures
            bytes == spec_storage_bytes_required(leaf_blocks as nat),
            8 * bytes >= spec_storage_bits_required(leaf_blocks as nat),
            bytes >= 1,
    {
        let (_, l) = log2_up_exec(leaf_blocks);
        ((2 * l - 1) * 2 + 7) / 8
    }

    /// Returns the depth required for a tree with at least the specified
    /// number of leaf blocks: the smallest `d` with `2^d >= leaf_blocks`.
    pub fn depth_required(leaf_blocks: usize) -> (d: usize)
        requires
            1 <= leaf_blocks <= MAX_LEAF_BLOCKS,
        ensures
            d == log2_up(leaf_blocks as nat),
    {
        let (d, _) = log2_up_exec(leaf_blocks);
        d
    }

    /// Creates a new tree with all blocks initially marked as free.
    ///
    /// The buffer must be wide enough for the rounded-up leaf count; the tree
    /// keeps exactly the bytes it needs and clears them.
    pub fn new(storage: Vec<u8>, leaf_blocks: usize) -> (t: Tree)
        requires
            1 <= leaf_blocks <= MAX_LEAF_BLOCKS,
            8 * storage.len() >= spec_storage_bits_required(leaf_blocks as nat),
        ensures
            t.inv(),
            t.spec_depth() == log2_up(leaf_blocks as nat),
            t.spec_leaf_blocks() == leaf_blocks,
            wf(t.nodes(), t.spec_depth()),
            forall|i: int| valid(i, t.spec_depth()) ==> #[trigger] t.nodes()[i] is Free,
    {
        let (depth, l) = log2_up_exec(leaf_blocks);
        let first_leaf = l - 1;
        let bits = (l - 1) * 2 + l;
        let nbytes = (bits + 7) / 8;
        let mut storage = storage;
        storage.truncate(nbytes);
        let mut k: usize = 0;
        while k < storage.len()
            invariant
                k <= storage.len(),
                storage.len() == nbytes,
                forall|j: int| 0 <= j < k ==> #[trigger] storage@[j] == 0u8,
            decreases storage.len() - k,
        {
            storage.set(k, 0);
            k = k + 1;
        }
        let t = Tree { storage, leaf_blocks, depth, first_leaf };
        proof {
            lemma_pow2_double(depth as nat);
            vstd::arithmetic::power2::lemma_pow2_pos(depth as nat);
            assert forall|j: int| 0 <= j < 8 * t.storage.len() implies !#[trigger] bit_of(
                t.storage@,
                j,
            ) by {
                assert(t.storage@[j / 8] == 0u8);
                lemma_u8_zero_bits((7 - j % 8) as u8);
            }
            assert(t.inv());
            assert forall|i: int| valid(i, t.spec_depth()) implies #[trigger] t.nodes()[i]
                is Free by {
                let fl = t.first_leaf as int;
                if i < fl {
                    assert(0 <= 2 * i && 2 * i + 1 < 8 * t.storage.len());
                    assert(!bit_of(t.storage@, 2 * i));
                    assert(!bit_of(t.storage@, 2 * i + 1));
                } else {
                    assert(0 <= 2 * fl + (i - fl) < 8 * t.storage.len());
                    assert(!bit_of(t.storage@, 2 * fl + (i - fl)));
                }
                assert(t.nodes()[i] == node_state_of(t.storage@, fl, i));
            }
            assert forall|i: int| is_internal(i, t.spec_depth()) implies #[trigger] wf_at(
                t.nodes(),
                i,
            ) by {
                model::lemma_children_valid(i, t.spec_depth());
                model::lemma_valid_depth(i, t.spec_depth());
            }
        }
        t
    }

    /// The number of blocks (nodes) in the tree.
    fn block_count(&self) -> (n: usize)
        requires
            self.inv(),
        ensures
            n == self.spec_block_count(),
    {
        proof {
            lemma_pow2_double(self.depth as nat);
            lemma_max_leaf_blocks_pow2();
            lemma_pow2_le(self.depth as nat, 28);
        }
        2 * self.first_leaf + 1
    }

    /// Reads the state of a block.
    fn state(&self, block: usize) -> (s: BlockState)
        requires
            self.inv(),
            (block as int) < self.spec_block_count(),
        ensures
            s == self.nodes()[block as int],
    {
        proof {
            lemma_pow2_double(self.depth as nat);
            lemma_max_leaf_blocks_pow2();
            lemma_pow2_le(self.depth as nat, 28);
        }
        if block < self.first_leaf {
            let subdivided = read_bit(&self.storage, 2 * block);
            let allocated_or_full = read_bit(&self.storage, 2 * block + 1);
            match (subdivided, allocated_or_full) {
                (false, false) => BlockState::Free,
                (false, true) => BlockState::Allocated,
                (true, false) => BlockState::Superblock,
                (true, true) => BlockState::SuperblockFull,
            }
        } else {
            let index = 2 * self.first_leaf + (block - self.first_leaf);
            if read_bit(&self.storage, index) {
                BlockState::Allocated
            } else {
                BlockState::Free
            }
        }
    }

    /// Writes the state of a block; every other block keeps its state.
    fn set_state(&mut self, block: usize, state: BlockState)
        requires
            old(self).inv(),
            (block as int) < old(self).spec_block_count(),
            block as int >= first_at_depth(old(self).spec_depth()) ==> (state is Free
                || state is Allocated),
        ensures
            final(self).inv(),
            final(self).spec_depth() == old(self).spec_depth(),
            final(self).spec_leaf_blocks() == old(self).spec_leaf_blocks(),
            final(self).storage_bytes().len() == old(self).storage_bytes().len(),
            final(self).nodes() == old(self).nodes().update(block as int, state),
    {
        proof {
            lemma_pow2_double(self.depth as nat);
            lemma_max_leaf_blocks_pow2();
            lemma_pow2_le(self.depth as nat, 28);
        }
        let ghost pre = self.storage@;
        let ghost fl = self.first_leaf as int;
        let ghost dep = self.depth as nat;
        if block < self.first_leaf {
            let (subdivided, allocated_or_full) = match state {
                BlockState::Free => (false, false),
                BlockState::Allocated => (false, true),
                BlockState::Superblock => (true, false),
                BlockState::SuperblockFull => (true, true),
            };
            write_bit(&mut self.storage, 2 * block, subdivided);
            write_bit(&mut self.storage, 2 * block + 1, allocated_or_full);
        } else {
            let index = 2 * self.first_leaf + (block - self.first_leaf);
            let allocated = match state {
                BlockState::Free => false,
                BlockState::Allocated => true,
                BlockState::Superblock | BlockState::SuperblockFull => false,
            };
            write_bit(&mut self.storage, index, allocated);
        }
        proof {
            let post = self.storage@;
            assert forall|i: int| 0 <= i < node_count(dep) implies node_state_of(post, fl, i) == (
            if i == block as int {
                state
            } else {
                node_state_of(pre, fl, i)
            }) by {}
            assert(self.nodes() =~= old(self).nodes().update(block as int, state));
        }
    }

    /// Pre-order search for the leftmost reachable free block at
    /// `target_depth` within the subtree of `node`, pruning subtrees that
    /// cannot contain one.
    fn find_free(&self, node: usize, node_depth: usize, target_depth: usize) -> (r: Option<usize>)
        requires
            self.inv(),
            wf(self.nodes(), self.spec_depth()),
            valid(node as int, self.spec_depth()),
            node_depth == depth_of(node as int),
            node_depth <= target_depth,
            target_depth <= self.spec_depth(),
        ensures
            match r {
                Some(b) => {
                    &&& valid(b as int, self.spec_depth())
                    &&& in_subtree(node as int, b as int)
                    &&& depth_of(b as int) == target_depth
                    &&& self.nodes()[b as int] is Free
                    &&& clean_between(self.nodes(), node as int, b as int)
                    &&& forall|j: int|
                        #![trigger in_subtree(node as int, j)]
                        in_subtree(node as int, j) && depth_of(j) == target_depth && j < b as int
                            ==> !(self.nodes()[j] is Free && clean_between(
                            self.nodes(),
                            node as int,
                            j,
                        ))
                },
                None => forall|j: int|
                    #![trigger in_subtree(node as int, j)]
                    in_subtree(node as int, j) && depth_of(j) == target_depth ==> !(self.nodes()[j]
                        is Free && clean_between(self.nodes(), node as int, j)),
            },
        decreases target_depth - node_depth,
    {
        let ghost d = self.spec_depth();
        let ghost nn = node as int;
        proof {
            self.lemma_inv_facts();
            model::lemma_valid_depth(nn, d);
        }
        let s = self.state(node);
        if node_depth == target_depth {
            proof {
                assert forall|j: int|
                    in_subtree(nn, j) && depth_of(j) == target_depth implies j == nn by {
                    model::lemma_same_depth_in_subtree(nn, j);
                }
            }
            if matches!(s, BlockState::Free) {
                proof {
                    model::lemma_between_self(self.nodes(), nn);
                }
                Some(node)
            } else {
                None
            }
        } else {
            match s {
                BlockState::Allocated | BlockState::SuperblockFull => {
                    proof {
                        assert forall|j: int|
                            in_subtree(nn, j) && depth_of(j) == target_depth implies !(
                        self.nodes()[j] is Free && clean_between(self.nodes(), nn, j)) by {
                            if j == nn {
                            } else {
                                assert(is_ancestor(nn, j));
                                assert(in_subtree(nn, nn));
                                if clean_between(self.nodes(), nn, j) {
                                    assert(self.nodes()[nn] is Free || self.nodes()[nn]
                                        is Superblock);
                                }
                            }
                        }
                    }
                    None
                },
                _ => {
                    proof {
                        model::lemma_children_valid(nn, d);
                        lemma_max_leaf_blocks_pow2();
                        lemma_pow2_le(d, 28);
                        model::lemma_depth_bounds(nn);
                    }
                    let left = 2 * node + 1;
                    let right = 2 * node + 2;
                    let ghost l = left as int;
                    let ghost rt = right as int;
                    proof {
                        assert(is_ancestor(nn, l)) by {
                            assert(model::parent(l) == nn);
                        }
                        assert(is_ancestor(nn, rt)) by {
                            assert(model::parent(rt) == nn);
                        }
                    }
                    let rl = self.find_free(left, node_depth + 1, target_depth);
                    match rl {
                        Some(b) => {
                            proof {
                                model::lemma_subtree_trans(nn, l, b as int);
                                model::lemma_clean_decompose(self.nodes(), nn, l, b as int);
                                assert forall|j: int|
                                    in_subtree(nn, j) && depth_of(j) == target_depth && j < b as int
                                        implies !(self.nodes()[j] is Free && clean_between(
                                    self.nodes(),
                                    nn,
                                    j,
                                )) by {
                                    model::lemma_ancestor_depth(nn, j);
                                    model::lemma_subtree_split(nn, j);
                                    if in_subtree(l, j) {
                                        model::lemma_clean_decompose(self.nodes(), nn, l, j);
                                    } else {
                                        assert(in_subtree(rt, j));
                                        model::lemma_left_right_order(nn, b as int, j);
                                    }
                                }
                            }
                            Some(b)
                        },
                        None => {
                            let rr = self.find_free(right, node_depth + 1, target_depth);
                            proof {
                                match rr {
                                    Some(b) => {
                                        model::lemma_subtree_trans(nn, rt, b as int);
                                        model::lemma_clean_decompose(self.nodes(), nn, rt, b as int);
                                        assert forall|j: int|
                                            in_subtree(nn, j) && depth_of(j) == target_depth && j
                                                < b as int implies !(self.nodes()[j] is Free
                                            && clean_between(self.nodes(), nn, j)) by {
                                            model::lemma_ancestor_depth(nn, j);
                                            model::lemma_subtree_split(nn, j);
                                            if in_subtree(l, j) {
                                                model::lemma_clean_decompose(self.nodes(), nn, l, j);
                                            } else {
                                                assert(in_subtree(rt, j));
                                                model::lemma_clean_decompose(
                                                    self.nodes(),
                                                    nn,
                                                    rt,
                                                    j,
                                                );
                                            }
                                        }
                                    },
                                    None => {
                                        assert forall|j: int|
                                            in_subtree(nn, j) && depth_of(j) == target_depth
                                                implies !(self.nodes()[j] is Free && clean_between(
                                            self.nodes(),
                                            nn,
                                            j,
                                        )) by {
                                            if j != nn {
                                                model::lemma_ancestor_depth(nn, j);
                                                model::lemma_subtree_split(nn, j);
                                                if in_subtree(l, j) {
                                                    model::lemma_clean_decompose(
                                                        self.nodes(),
                                                        nn,
                                                        l,
                                                        j,
                                                    );
                                                } else {
                                                    assert(in_subtree(rt, j));
                                                    model::lemma_clean_decompose(
                                                        self.nodes(),
                                                        nn,
                                                        rt,
                                                        j,
                                                    );
                                                }
                                            }
                                        }
                                    },
                                }
                            }
                            rr
                        },
                    }
                },
            }
        }
    }

    /// Pre-order search for the allocated block at the given unit offset,
    /// descending only through subdivided blocks.
    fn find_allocated(&self, node: usize, node_depth: usize, uo: usize, target: usize) -> (r:
        Option<usize>)
        requires
            self.inv(),
            wf(self.nodes(), self.spec_depth()),
            valid(node as int, self.spec_depth()),
            node_depth == depth_of(node as int),
            uo as int == unit_offset(node as int, self.spec_depth()),
        ensures
            match r {
                Some(b) => {
                    &&& valid(b as int, self.spec_depth())
                    &&& in_subtree(node as int, b as int)
                    &&& self.nodes()[b as int] is Allocated
                    &&& unit_offset(b as int, self.spec_depth()) == target as int
                },
                None => forall|j: int|
                    #![trigger in_subtree(node as int, j)]
                    in_subtree(node as int, j) && valid(j, self.spec_depth()) && self.nodes()[j]
                        is Allocated ==> unit_offset(j, self.spec_depth()) != target as int,
            },
        decreases self.spec_depth() - depth_of(node as int),
    {
        let ghost d = self.spec_depth();
        let ghost nn = node as int;
        proof {
            self.lemma_inv_facts();
            model::lemma_valid_depth(nn, d);
            model::lemma_unit_span(nn, d);
        }
        let s = self.state(node);
        match s {
            BlockState::Free => {
                proof {
                    assert forall|j: int|
                        in_subtree(nn, j) && valid(j, d) && self.nodes()[j] is Allocated implies
                    unit_offset(j, d) != target as int by {
                        if j != nn {
                            model::lemma_free_subtree(self.nodes(), d, nn, j);
                        }
                    }
                }
                None
            },
            BlockState::Allocated => {
                if uo == target {
                    Some(node)
                } else {
                    proof {
                        assert forall|j: int|
                            in_subtree(nn, j) && valid(j, d) && self.nodes()[j] is Allocated
                                implies unit_offset(j, d) != target as int by {
                            if j != nn {
                                model::lemma_free_subtree(self.nodes(), d, nn, j);
                            }
                        }
                    }
                    None
                }
            },
            _ => {
                proof {
                    assert(is_internal(nn, d)) by {
                        if nn >= first_at_depth(d) {
                            assert(self.nodes()[nn] is Free || self.nodes()[nn] is Allocated);
                        }
                        model::lemma_valid_depth(nn, d);
                        model::lemma_depth_bounds(nn);
                    }
                    model::lemma_children_valid(nn, d);
                    lemma_max_leaf_blocks_pow2();
                    lemma_pow2_le(d, 28);
                    model::lemma_depth_bounds(nn);
                }
                let left = 2 * node + 1;
                let right = 2 * node + 2;
                let half = crate::math::pow2_exec(self.depth - node_depth - 1);
                let ghost l = left as int;
                let ghost rt = right as int;
                proof {
                    let h = (d - depth_of(nn)) as nat;
                    model::lemma_child_coords(nn);
                    lemma_pow2_double((h - 1) as nat);
                    model::lemma_unit_span(l, d);
                    model::lemma_unit_span(rt, d);
                    let on = offset_of(nn);
                    assert(unit_offset(l, d) == 2 * on * pow2((h - 1) as nat));
                    assert(2 * on * pow2((h - 1) as nat) == on * (2 * pow2((h - 1) as nat)))
                        by (nonlinear_arith);
                    assert(unit_offset(rt, d) == (2 * on + 1) * pow2((h - 1) as nat));
                    assert((2 * on + 1) * pow2((h - 1) as nat) == on * (2 * pow2((h - 1) as nat))
                        + pow2((h - 1) as nat)) by (nonlinear_arith);
                    assert(unit_offset(l, d) == uo as int);
                    assert(unit_offset(rt, d) == uo as int + half as int);
                }
                let rl = self.find_allocated(left, node_depth + 1, uo, target);
                match rl {
                    Some(b) => {
                        proof {
                            model::lemma_subtree_trans(nn, l, b as int);
                        }
                        Some(b)
                    },
                    None => {
                        let rr = self.find_allocated(right, node_depth + 1, uo + half, target);
                        proof {
                            match rr {
                                Some(b) => {
                                    model::lemma_subtree_trans(nn, rt, b as int);
                                },
                                None => {
                                    assert forall|j: int|
                                        in_subtree(nn, j) && valid(j, d) && self.nodes()[j]
                                            is Allocated implies unit_offset(j, d)
                                        != target as int by {
                                        if j != nn {
                                            model::lemma_ancestor_depth(nn, j);
                                            model::lemma_subtree_split(nn, j);
                                        }
                                    }
                                },
                            }
                        }
                        rr
                    },
                }
            },
        }
    }

    /// After block `b` has just been marked allocated, rewrites every
    /// ancestor: full superblocks while the buddy side is exhausted, plain
    /// superblocks above.
    #[verifier::rlimit(100)]
    fn mark_allocated_up(&mut self, b: usize, Ghost(base): Ghost<Seq<BlockState>>)
        requires
            old(self).inv(),
            valid(b as int, old(self).spec_depth()),
            wf(base, old(self).spec_depth()),
            base[b as int] is Free,
            path_clear(base, b as int),
            old(self).nodes() == base.update(b as int, BlockState::Allocated),
        ensures
            final(self).inv(),
            final(self).spec_depth() == old(self).spec_depth(),
            final(self).spec_leaf_blocks() == old(self).spec_leaf_blocks(),
            final(self).storage_bytes().len() == old(self).storage_bytes().len(),
            wf(final(self).nodes(), final(self).spec_depth()),
            forall|i: int|
                valid(i, old(self).spec_depth()) ==> ((#[trigger] final(self).nodes()[i]
                    is Allocated) <==> (base[i] is Allocated || i == b as int)),
    {
        let ghost d = self.spec_depth();
        let ghost lb = self.spec_leaf_blocks();
        let ghost slen = self.storage_bytes().len();
        let ghost bb = b as int;
        proof {
            self.lemma_inv_facts();
            assert(self.nodes()[bb] is Allocated);
            assert forall|x: int| !(#[trigger] is_ancestor(x, bb) && in_subtree(bb, x)) by {
                if is_ancestor(x, bb) && in_subtree(bb, x) {
                    model::lemma_ancestor_depth(x, bb);
                    if x != bb {
                        model::lemma_ancestor_depth(bb, x);
                    }
                }
            }
        }
        let mut child = b;
        let mut filling = true;
        while child != 0
            invariant
                self.inv(),
                self.spec_depth() == d,
                self.spec_leaf_blocks() == lb,
                self.storage_bytes().len() == slen,
                self.nodes().len() == node_count(d),
                base.len() == node_count(d),
                wf(base, d),
                base[bb] is Free,
                path_clear(base, bb),
                valid(bb, d),
                valid(child as int, d),
                in_subtree(child as int, bb),
                self.nodes()[bb] is Allocated,
                forall|x: int|
                    valid(x, d) && x != bb && !(is_ancestor(x, bb) && in_subtree(child as int, x))
                        ==> #[trigger] self.nodes()[x] == base[x],
                forall|x: int|
                    #[trigger] is_ancestor(x, bb) && in_subtree(child as int, x) ==> (wf_at(
                        self.nodes(),
                        x,
                    ) && is_subdivided(self.nodes()[x])),
                (if filling {
                    self.nodes()[child as int] is Allocated || self.nodes()[child as int]
                        is SuperblockFull
                } else {
                    self.nodes()[child as int] is Superblock
                }),
            decreases child,
        {
            let ghost cc = child as int;
            proof {
                model::lemma_parent_child(cc);
                model::lemma_sibling(cc);
                model::lemma_buddy_not_related(bb, cc);
                model::lemma_valid_depth(cc, d);
                model::lemma_valid_depth(model::parent(cc), d);
                model::lemma_valid_depth(model::sibling(cc), d);
                model::lemma_processed_step(bb, cc);
                lemma_max_leaf_blocks_pow2();
                lemma_pow2_double(28);
                lemma_pow2_le(d + 1, 29);
            }
            let parent_idx = (child - 1) / 2;
            let buddy = if child % 2 == 1 {
                child + 1
            } else {
                child - 1
            };
            proof {
                assert(parent_idx as int == model::parent(cc));
                assert(buddy as int == model::sibling(cc));
                assert(is_ancestor(parent_idx as int, bb));
                // the buddy keeps its original state
                assert(self.nodes()[buddy as int] == base[buddy as int]) by {
                    if is_ancestor(buddy as int, bb) {
                        assert(false);
                    }
                }
                // the parent has not been touched yet
                assert(self.nodes()[parent_idx as int] == base[parent_idx as int]) by {
                    if in_subtree(cc, parent_idx as int) {
                        model::lemma_ancestor_depth(parent_idx as int, bb);
                        if parent_idx as int != cc {
                            model::lemma_ancestor_depth(cc, parent_idx as int);
                        }
                        assert(false);
                    }
                }
            }
            let bs = self.state(buddy);
            let full = filling && matches!(bs, BlockState::Allocated | BlockState::SuperblockFull);
            let ghost pre = self.nodes();
            if full {
                self.set_state(parent_idx, BlockState::SuperblockFull);
            } else {
                self.set_state(parent_idx, BlockState::Superblock);
            }
            proof {
                let pp = parent_idx as int;
                assert forall|x: int|
                    #[trigger] is_ancestor(x, bb) && in_subtree(pp, x) implies (wf_at(
                    self.nodes(),
                    x,
                ) && is_subdivided(self.nodes()[x])) by {
                    if x == pp {
                        assert(self.nodes()[left_child(pp)] == pre[left_child(pp)]);
                        assert(self.nodes()[right_child(pp)] == pre[right_child(pp)]);
                    } else {
                        assert(in_subtree(cc, x));
                        assert(wf_at(pre, x));
                        model::lemma_ancestor_depth(x, bb);
                        model::lemma_valid_depth(x, d);
                        model::lemma_valid_depth(bb, d);
                        model::lemma_children_valid(x, d);
                        // the parent is strictly above x and its children
                        assert(pp != x && pp != left_child(x) && pp != right_child(x)) by {
                            model::lemma_child_parent(x);
                            if in_subtree(cc, x) && cc != x {
                                model::lemma_ancestor_depth(cc, x);
                            }
                        }
                    }
                }
            }
            child = parent_idx;
            if !full {
                filling = false;
            }
        }
        proof {
            assert forall|x: int| #[trigger] is_ancestor(x, bb) implies (wf_at(self.nodes(), x)
                && is_subdivided(self.nodes()[x])) by {
                model::lemma_ancestor_depth(x, bb);
                model::lemma_root_subtree(x);
            }
            assert forall|i: int| is_internal(i, d) implies #[trigger] wf_at(
                self.nodes(),
                i,
            ) by {
                model::lemma_children_valid(i, d);
                model::lemma_child_parent(i);
                if i == bb {
                    assert(wf_at(base, i));
                    assert(!is_ancestor(left_child(i), bb)) by {
                        if is_ancestor(left_child(i), bb) {
                            model::lemma_ancestor_depth(left_child(i), bb);
                        }
                    }
                    assert(!is_ancestor(right_child(i), bb)) by {
                        if is_ancestor(right_child(i), bb) {
                            model::lemma_ancestor_depth(right_child(i), bb);
                        }
                    }
                    assert(self.nodes()[left_child(i)] == base[left_child(i)]);
                    assert(self.nodes()[right_child(i)] == base[right_child(i)]);
                } else if is_ancestor(i, bb) {
                } else {
                    assert(self.nodes()[i] == base[i]);
                    assert(left_child(i) != bb && !is_ancestor(left_child(i), bb)) by {
                        if left_child(i) == bb {
                            assert(is_ancestor(i, bb));
                        } else if is_ancestor(left_child(i), bb) {
                            model::lemma_subtree_trans(i, left_child(i), bb);
                            model::lemma_ancestor_depth(left_child(i), bb);
                            assert(is_ancestor(i, bb));
                        }
                    }
                    assert(right_child(i) != bb && !is_ancestor(right_child(i), bb)) by {
                        if right_child(i) == bb {
                            assert(is_ancestor(i, bb));
                        } else if is_ancestor(right_child(i), bb) {
                            model::lemma_subtree_trans(i, right_child(i), bb);
                            model::lemma_ancestor_depth(right_child(i), bb);
                            assert(is_ancestor(i, bb));
                        }
                    }
                    assert(self.nodes()[left_child(i)] == base[left_child(i)]);
                    assert(self.nodes()[right_child(i)] == base[right_child(i)]);
                    assert(wf_at(base, i));
                }
            }
            assert forall|i: int|
                first_at_depth(d) <= i < node_count(d) implies (#[trigger] self.nodes()[i] is Free
                || self.nodes()[i] is Allocated) by {
                if i != bb && !is_ancestor(i, bb) {
                    assert(self.nodes()[i] == base[i]);
                } else if i != bb {
                    model::lemma_ancestor_depth(i, bb);
                    model::lemma_valid_depth(i, d);
                    model::lemma_valid_depth(bb, d);
                    model::lemma_depth_bounds(i);
                    assert(false);
                }
            }
            assert forall|i: int| valid(i, d) implies ((#[trigger] self.nodes()[i] is Allocated)
                <==> (base[i] is Allocated || i == bb)) by {
                if i != bb {
                    if is_ancestor(i, bb) {
                        assert(is_subdivided(self.nodes()[i]));
                        assert(base[i] is Free || base[i] is Superblock);
                    } else {
                        assert(self.nodes()[i] == base[i]);
                    }
                }
            }
        }
    }

    /// After block `b` has just been marked free, rewrites every ancestor:
    /// free while the buddy side is also free (coalescing), plain superblocks
    /// above.
    #[verifier::rlimit(100)]
    fn mark_free_up(&mut self, b: usize, Ghost(base): Ghost<Seq<BlockState>>)
        requires
            old(self).inv(),
            valid(b as int, old(self).spec_depth()),
            wf(base, old(self).spec_depth()),
            base[b as int] is Allocated,
            forall|a: int| #[trigger] is_ancestor(a, b as int) ==> is_subdivided(base[a]),
            old(self).nodes() == base.update(b as int, BlockState::Free),
        ensures
            final(self).inv(),
            final(self).spec_depth() == old(self).spec_depth(),
            final(self).spec_leaf_blocks() == old(self).spec_leaf_blocks(),
            final(self).storage_bytes().len() == old(self).storage_bytes().len(),
            wf(final(self).nodes(), final(self).spec_depth()),
            forall|i: int|
                valid(i, old(self).spec_depth()) ==> ((#[trigger] final(self).nodes()[i]
                    is Allocated) <==> (base[i] is Allocated && i != b as int)),
    {
        let ghost d = self.spec_depth();
        let ghost lb = self.spec_leaf_blocks();
        let ghost slen = self.storage_bytes().len();
        let ghost bb = b as int;
        proof {
            self.lemma_inv_facts();
            assert(self.nodes()[bb] is Free);
            assert forall|x: int| !(#[trigger] is_ancestor(x, bb) && in_subtree(bb, x)) by {
                if is_ancestor(x, bb) && in_subtree(bb, x) {
                    model::lemma_ancestor_depth(x, bb);
                    if x != bb {
                        model::lemma_ancestor_depth(bb, x);
                    }
                }
            }
        }
        let mut child = b;
        let mut coalescing = true;
        while child != 0
            invariant
                self.inv(),
                self.spec_depth() == d,
                self.spec_leaf_blocks() == lb,
                self.storage_bytes().len() == slen,
                self.nodes().len() == node_count(d),
                base.len() == node_count(d),
                wf(base, d),
                base[bb] is Allocated,
                forall|a: int| #[trigger] is_ancestor(a, bb) ==> is_subdivided(base[a]),
                valid(bb, d),
                valid(child as int, d),
                in_subtree(child as int, bb),
                self.nodes()[bb] is Free,
                forall|x: int|
                    valid(x, d) && x != bb && !(is_ancestor(x, bb) && in_subtree(child as int, x))
                        ==> #[trigger] self.nodes()[x] == base[x],
                forall|x: int|
                    #[trigger] is_ancestor(x, bb) && in_subtree(child as int, x) ==> (wf_at(
                        self.nodes(),
                        x,
                    ) && !(self.nodes()[x] is Allocated)),
                (if coalescing {
                    self.nodes()[child as int] is Free
                } else {
                    self.nodes()[child as int] is Superblock
                }),
            decreases child,
        {
            let ghost cc = child as int;
            proof {
                model::lemma_parent_child(cc);
                model::lemma_sibling(cc);
                model::lemma_buddy_not_related(bb, cc);
                model::lemma_valid_depth(cc, d);
                model::lemma_valid_depth(model::parent(cc), d);
                model::lemma_valid_depth(model::sibling(cc), d);
                model::lemma_processed_step(bb, cc);
                lemma_max_leaf_blocks_pow2();
                lemma_pow2_double(28);
                lemma_pow2_le(d + 1, 29);
            }
            let parent_idx = (child - 1) / 2;
            let buddy = if child % 2 == 1 {
                child + 1
            } else {
                child - 1
            };
            proof {
                assert(parent_idx as int == model::parent(cc));
                assert(buddy as int == model::sibling(cc));
                assert(is_ancestor(parent_idx as int, bb));
                assert(self.nodes()[buddy as int] == base[buddy as int]) by {
                    if is_ancestor(buddy as int, bb) {
                        assert(false);
                    }
                }
                assert(self.nodes()[parent_idx as int] == base[parent_idx as int]) by {
                    if in_subtree(cc, parent_idx as int) {
                        model::lemma_ancestor_depth(parent_idx as int, bb);
                        if parent_idx as int != cc {
                            model::lemma_ancestor_depth(cc, parent_idx as int);
                        }
                        assert(false);
                    }
                }
            }
            let bs = self.state(buddy);
            let merge = coalescing && matches!(bs, BlockState::Free);
            let ghost pre = self.nodes();
            if merge {
                self.set_state(parent_idx, BlockState::Free);
            } else {
                self.set_state(parent_idx, BlockState::Superblock);
            }
            proof {
                let pp = parent_idx as int;
                assert forall|x: int|
                    #[trigger] is_ancestor(x, bb) && in_subtree(pp, x) implies (wf_at(
                    self.nodes(),
                    x,
                ) && !(self.nodes()[x] is Allocated)) by {
                    if x == pp {
                        assert(self.nodes()[left_child(pp)] == pre[left_child(pp)]);
                        assert(self.nodes()[right_child(pp)] == pre[right_child(pp)]);
                    } else {
                        assert(in_subtree(cc, x));
                        assert(wf_at(pre, x));
                        model::lemma_ancestor_depth(x, bb);
                        model::lemma_valid_depth(x, d);
                        model::lemma_valid_depth(bb, d);
                        model::lemma_children_valid(x, d);
                        assert(pp != x && pp != left_child(x) && pp != right_child(x)) by {
                            model::lemma_child_parent(x);
                            if in_subtree(cc, x) && cc != x {
                                model::lemma_ancestor_depth(cc, x);
                            }
                        }
                    }
                }
            }
            child = parent_idx;
            if !merge {
                coalescing = false;
            }
        }
        proof {
            assert forall|x: int| #[trigger] is_ancestor(x, bb) implies (wf_at(self.nodes(), x)
                && !(self.nodes()[x] is Allocated)) by {
                model::lemma_ancestor_depth(x, bb);
                model::lemma_root_subtree(x);
            }
            assert forall|i: int| is_internal(i, d) implies #[trigger] wf_at(
                self.nodes(),
                i,
            ) by {
                model::lemma_children_valid(i, d);
                model::lemma_child_parent(i);
                if i == bb {
                    assert(wf_at(base, i));
                    assert(!is_ancestor(left_child(i), bb)) by {
                        if is_ancestor(left_child(i), bb) {
                            model::lemma_ancestor_depth(left_child(i), bb);
                        }
                    }
                    assert(!is_ancestor(right_child(i), bb)) by {
                        if is_ancestor(right_child(i), bb) {
                            model::lemma_ancestor_depth(right_child(i), bb);
                        }
                    }
                    assert(self.nodes()[left_child(i)] == base[left_child(i)]);
                    assert(self.nodes()[right_child(i)] == base[right_child(i)]);
                } else if is_ancestor(i, bb) {
                } else {
                    assert(self.nodes()[i] == base[i]);
                    assert(left_child(i) != bb && !is_ancestor(left_child(i), bb)) by {
                        if left_child(i) == bb {
                            assert(is_ancestor(i, bb));
                        } else if is_ancestor(left_child(i), bb) {
                            model::lemma_subtree_trans(i, left_child(i), bb);
                            model::lemma_ancestor_depth(left_child(i), bb);
                            assert(is_ancestor(i, bb));
                        }
                    }
                    assert(right_child(i) != bb && !is_ancestor(right_child(i), bb)) by {
                        if right_child(i) == bb {
                            assert(is_ancestor(i, bb));
                        } else if is_ancestor(right_child(i), bb) {
                            model::lemma_subtree_trans(i, right_child(i), bb);
                            model::lemma_ancestor_depth(right_child(i), bb);
                            assert(is_ancestor(i, bb));
                        }
                    }
                    assert(self.nodes()[left_child(i)] == base[left_child(i)]);
                    assert(self.nodes()[right_child(i)] == base[right_child(i)]);
                    assert(wf_at(base, i));
                }
            }
            assert forall|i: int|
                first_at_depth(d) <= i < node_count(d) implies (#[trigger] self.nodes()[i] is Free
                || self.nodes()[i] is Allocated) by {
                if i != bb && !is_ancestor(i, bb) {
                    assert(self.nodes()[i] == base[i]);
                } else if i != bb {
                    model::lemma_ancestor_depth(i, bb);
                    model::lemma_valid_depth(i, d);
                    model::lemma_valid_depth(bb, d);
                    model::lemma_depth_bounds(i);
                    assert(false);
                }
            }
            assert forall|i: int| valid(i, d) implies ((#[trigger] self.nodes()[i] is Allocated)
                <==> (base[i] is Allocated && i != bb)) by {
                if i != bb {
                    if is_ancestor(i, bb) {
                    } else {
                        assert(self.nodes()[i] == base[i]);
                    }
                }
            }
        }
    }

    /// Attempts to allocate `size` blocks.
    ///
    /// On success the allocation covers `next_pow2(size)` blocks, starts at a
    /// multiple of its size, and is the lowest-offset reachable free block of
    /// that size; exactly that block becomes allocated. Fails exactly when
    /// the request is empty, exceeds the tree's extent, or no reachable free
    /// block of the rounded size exists; failure leaves the tree unchanged.
    pub fn allocate(&mut self, size: usize) -> (r: Result<Allocation, OutOfMemoryError>)
        requires
            old(self).inv(),
            wf(old(self).nodes(), old(self).spec_depth()),
        ensures
            final(self).inv(),
            final(self).spec_depth() == old(self).spec_depth(),
            final(self).spec_leaf_blocks() == old(self).spec_leaf_blocks(),
            final(self).storage_bytes().len() == old(self).storage_bytes().len(),
            wf(final(self).nodes(), final(self).spec_depth()),
            r is Err ==> *final(self) == *old(self),
            r is Err <==> (size == 0 || log2_up(size as nat) > old(self).spec_depth() || (forall|
                j: int,
            |
                valid(j, old(self).spec_depth()) && depth_of(j) == (old(self).spec_depth()
                    - log2_up(size as nat)) ==> !(#[trigger] available(old(self).nodes(), j)))),
            (match r {
                Ok(a) => ({
                    let h = log2_up(size as nat);
                    let td = (old(self).spec_depth() - h) as nat;
                    &&& 1 <= size
                    &&& h <= old(self).spec_depth()
                    &&& a.size == next_pow2(size as nat)
                    &&& a.offset as int % a.size as int == 0
                    &&& a.offset + a.size <= pow2(old(self).spec_depth())
                    &&& exists|b: int|
                        {
                            &&& valid(b, old(self).spec_depth())
                            &&& depth_of(b) == td
                            &&& #[trigger] available(old(self).nodes(), b)
                            &&& unit_offset(b, old(self).spec_depth()) == a.offset
                            &&& (forall|j: int|
                                valid(j, old(self).spec_depth()) && depth_of(j) == td && j < b
                                    ==> !(#[trigger] available(old(self).nodes(), j)))
                            &&& (forall|i: int|
                                valid(i, old(self).spec_depth()) ==> ((#[trigger] final(self).nodes()[i]
                                    is Allocated) <==> (old(self).nodes()[i] is Allocated
                                    || i == b)))
                        }
                }),
                Err(_) => true,
            }),
    {
        let ghost d = self.spec_depth();
        proof {
            self.lemma_inv_facts();
        }
        if size == 0 {
            return Err(OutOfMemoryError);
        }
        let cap = crate::math::pow2_exec(self.depth);
        if size > cap {
            proof {
                lemma_next_pow2_bounds(size as nat);
                if log2_up(size as nat) <= d {
                    lemma_pow2_le(log2_up(size as nat), d);
                }
            }
            return Err(OutOfMemoryError);
        }
        proof {
            lemma_max_leaf_blocks_pow2();
            lemma_pow2_le(d, 28);
        }
        let (h, _) = log2_up_exec(size);
        proof {
            crate::math::lemma_log2_up_monotone(size as nat, cap as nat);
            if d > 0 {
                vstd::arithmetic::power2::lemma_pow2_strictly_increases((d - 1) as nat, d);
            }
            lemma_log2_up_unique(cap as nat, d);
        }
        let target_depth = self.depth - h;
        let ghost td = target_depth as nat;
        proof {
            model::lemma_valid_depth(0, d);
        }
        let found = self.find_free(0, 0, target_depth);
        match found {
            None => {
                proof {
                    assert forall|j: int| valid(j, d) && depth_of(j) == td implies !(
                    #[trigger] available(self.nodes(), j)) by {
                        model::lemma_root_subtree(j);
                        model::lemma_between_root(self.nodes(), j);
                    }
                }
                Err(OutOfMemoryError)
            },
            Some(b) => {
                let ghost base = self.nodes();
                proof {
                    model::lemma_between_root(base, b as int);
                    assert(available(base, b as int));
                }
                self.set_state(b, BlockState::Allocated);
                self.mark_allocated_up(b, Ghost(base));
                proof {
                    vstd::arithmetic::power2::lemma_pow2_pos(td);
                }
                let first = crate::math::pow2_exec(target_depth) - 1;
                proof {
                    model::lemma_depth_bounds(b as int);
                    model::lemma_unit_span(b as int, d);
                    model::lemma_valid_depth(b as int, d);
                    lemma_pow2_le(td, d);
                }
                let off = b - first;
                let sz = crate::math::pow2_exec(h);
                proof {
                    vstd::arithmetic::div_mod::lemma_mod_multiples_basic(
                        off as int,
                        sz as int,
                    );
                }
                let offset = off * sz;
                proof {
                    assert(offset as int == unit_offset(b as int, d));
                    assert(offset + sz <= pow2(d));
                    assert forall|j: int|
                        valid(j, d) && depth_of(j) == td && j < b as int implies !(
                    #[trigger] available(base, j)) by {
                        model::lemma_root_subtree(j);
                        model::lemma_between_root(base, j);
                    }
                }
                Ok(Allocation { offset, size: sz })
            },
        }
    }

    /// Frees a previous allocation, identified by its offset.
    ///
    /// Succeeds exactly when some allocated block sits at that offset; that
    /// block (unique, by `model::lemma_allocated_offset_unique`) becomes free
    /// again and buddies coalesce. Failure leaves the tree unchanged.
    pub fn free(&mut self, offset: usize) -> (r: Result<(), DoubleFreeError>)
        requires
            old(self).inv(),
            wf(old(self).nodes(), old(self).spec_depth()),
        ensures
            final(self).inv(),
            final(self).spec_depth() == old(self).spec_depth(),
            final(self).spec_leaf_blocks() == old(self).spec_leaf_blocks(),
            final(self).storage_bytes().len() == old(self).storage_bytes().len(),
            wf(final(self).nodes(), final(self).spec_depth()),
            r is Err ==> *final(self) == *old(self),
            r is Err <==> (forall|j: int|
                valid(j, old(self).spec_depth()) && (#[trigger] old(self).nodes()[j] is Allocated)
                    ==> unit_offset(j, old(self).spec_depth()) != offset),
            r is Ok ==> exists|b: int|
                {
                    &&& valid(b, old(self).spec_depth())
                    &&& #[trigger] old(self).nodes()[b] is Allocated
                    &&& unit_offset(b, old(self).spec_depth()) == offset
                    &&& (forall|i: int|
                        valid(i, old(self).spec_depth()) ==> ((#[trigger] final(self).nodes()[i]
                            is Allocated) <==> (old(self).nodes()[i] is Allocated && i != b)))
                },
    {
        let ghost d = self.spec_depth();
        proof {
            self.lemma_inv_facts();
            model::lemma_valid_depth(0, d);
            model::lemma_depth_bounds(0);
            vstd::arithmetic::power2::lemma2_to64();
            assert(offset_of(0) == 0);
            assert(unit_offset(0, d) == offset_of(0) * pow2((d - depth_of(0)) as nat));
            assert(0 * pow2((d - depth_of(0)) as nat) == 0) by (nonlinear_arith);
            assert(unit_offset(0, d) == 0);
        }
        let found = self.find_allocated(0, 0, 0, offset);
        match found {
            None => {
                proof {
                    assert forall|j: int|
                        valid(j, d) && (#[trigger] self.nodes()[j] is Allocated) implies
                    unit_offset(j, d) != offset by {
                        model::lemma_root_subtree(j);
                    }
                }
                Err(DoubleFreeError)
            },
            Some(b) => {
                let ghost base = self.nodes();
                proof {
                    assert forall|a: int| #[trigger] is_ancestor(a, b as int) implies
                    is_subdivided(base[a]) by {
                        model::lemma_ancestor_depth(a, b as int);
                        model::lemma_allocated_ancestors_subdivided(base, d, b as int, a);
                    }
                }
                self.set_state(b, BlockState::Free);
                self.mark_free_up(b, Ghost(base));
                Ok(())
            },
        }
    }

    /// The tree's bit buffer.
    pub fn storage(&self) -> (bytes: &Vec<u8>)
        ensures
            bytes@ == self.storage_bytes(),
    {
        &self.storage
    }
}

} // verus!

verus! {

/// One step of a pre-order walk, chosen by a [`Visitor`] at each block.
#[derive(Debug)]
pub enum Action<T> {
    /// Stop the walk and return this value.
    Yield(T),
    /// Do not descend into this block's sub-blocks.
    Skip,
    /// Visit this block's sub-blocks, left first.
    Descend,
}

/// A visitor driving [`Tree::preorder`].
pub trait Visitor {
    /// The value a walk can yield.
    type Output;

    /// Classifies one visited block.
    fn visit(&mut self, block: BlockIndex) -> Action<Self::Output>;
}

/// Index of a block within the complete binary tree, in breadth-first order
/// from the root.
#[derive(Clone, Copy, PartialEq, Eq, Structural, Debug)]
pub struct BlockIndex(pub usize);

impl BlockIndex {
    fn root() -> (r: Self)
        ensures
            r.0 == 0,
    {
        Self(0)
    }

    pub fn is_root(self) -> (r: bool)
        ensures
            r == (self.0 == 0),
    {
        self.0 == 0
    }

    /// The block this block was split off from.
    pub fn superblock(self) -> (r: Option<Self>)
        ensures
            self.0 == 0 ==> r is None,
            self.0 >= 1 ==> (r matches Some(p) && p.0 as int == model::parent(self.0 as int)),
    {
        if !self.is_root() {
            Some(Self((self.0 - 1) / 2))
        } else {
            None
        }
    }

    /// The adjacent block of the same size, with which this block coalesces.
    pub fn buddy(self) -> (r: Option<Self>)
        requires
            self.0 < usize::MAX,
        ensures
            self.0 == 0 ==> r is None,
            self.0 >= 1 ==> (r matches Some(b) && b.0 as int == model::sibling(self.0 as int)),
    {
        if !self.is_root() {
            proof {
                let i = self.0;
                assert(i >= 1 ==> (((i - 1) as usize) ^ 1usize) as int == (if i % 2 == 1 {
                    i as int
                } else {
                    i as int - 2
                })) by (bit_vector);
            }
            Some(Self(((self.0 - 1) ^ 1) + 1))
        } else {
            None
        }
    }

    /// The two halves this block splits into.
    pub fn subblocks(self) -> (r: (Self, Self))
        requires
            2 * self.0 + 2 <= usize::MAX,
        ensures
            r.0.0 as int == left_child(self.0 as int),
            r.1.0 as int == right_child(self.0 as int),
    {
        let left = Self(2 * self.0 + 1);
        let right = Self(2 * self.0 + 2);
        (left, right)
    }

    /// Distance of this block from the root.
    pub fn depth(self) -> (d: usize)
        ensures
            d == depth_of(self.0 as int),
    {
        let mut d: usize = 0;
        let mut n: usize = self.0;
        while n > 0
            invariant
                depth_of(self.0 as int) == d + depth_of(n as int),
                d + n <= self.0,
            decreases n,
        {
            proof {
                model::lemma_parent_child(n as int);
            }
            n = (n - 1) / 2;
            d = d + 1;
        }
        d
    }

    /// Position of this block within its level.
    pub fn offset(self) -> (o: usize)
        requires
            depth_of(self.0 as int) <= 28,
        ensures
            o as int == offset_of(self.0 as int),
    {
        proof {
            model::lemma_depth_bounds(self.0 as int);
            lemma_max_leaf_blocks_pow2();
            lemma_pow2_double(28);
            lemma_pow2_double(depth_of(self.0 as int));
            lemma_pow2_le(depth_of(self.0 as int) + 1, 29);
        }
        let d = self.depth();
        self.0 + 1 - crate::math::pow2_exec(d)
    }
}

impl Tree {
    /// Walks the tree in pre-order, letting the visitor yield a value, skip
    /// a subtree, or descend. Returns the first yielded value.
    ///
    /// The visitor's answers are unverified code, so the walk promises only
    /// termination; the pruned searches that `allocate` and `free` build on
    /// this order carry full contracts of their own.
    pub fn preorder<V: Visitor>(&self, visitor: &mut V) -> (r: Option<V::Output>)
        requires
            self.inv(),
    {
        self.preorder_from(BlockIndex::root(), visitor)
    }

    fn preorder_from<V: Visitor>(&self, block: BlockIndex, visitor: &mut V) -> (r: Option<
        V::Output,
    >)
        requires
            self.inv(),
        decreases (if (block.0 as int) < self.spec_block_count() {
            self.spec_block_count() - block.0 as int
        } else {
            0
        }),
    {
        proof {
            self.lemma_inv_facts();
            lemma_max_leaf_blocks_pow2();
            lemma_pow2_double(28);
            lemma_pow2_le(self.spec_depth() + 1, 29);
        }
        if block.0 >= self.block_count() {
            return None;
        }
        match visitor.visit(block) {
            Action::Yield(value) => Some(value),
            Action::Skip => None,
            Action::Descend => {
                let (left, right) = block.subblocks();
                let found = self.preorder_from(left, visitor);
                if found.is_some() {
                    found
                } else {
                    self.preorder_from(right, visitor)
                }
            },
        }
    }
}

} // verus!
