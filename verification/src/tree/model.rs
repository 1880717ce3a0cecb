//! Mathematical model of the buddy tree: block states, heap-style index
//! arithmetic over the complete binary tree, the well-formedness invariant
//! tying every subdivided block to its children, and the lemmas about
//! ancestry, availability and allocated blocks that the tree's contracts
//! rest on.

use vstd::prelude::*;

verus! {

use crate::math::{lemma_pow2_double, lemma_pow2_le, pow2};

/// The state of one block in the tree.
#[derive(Clone, Copy, PartialEq, Eq, Structural, Debug)]
pub enum BlockState {
    /// Neither this block nor any sub-block is allocated.
    Free,
    /// This exact block has been handed to the caller.
    Allocated,
    /// Subdivided: at least one sub-block is allocated and at least one
    /// reachable sub-block is free.
    Superblock,
    /// Subdivided with no reachable free sub-block.
    SuperblockFull,
}

/// Index of the parent of node `i` (meaningful for `i >= 1`).
pub open spec fn parent(i: int) -> int {
    (i - 1) / 2
}

pub open spec fn left_child(i: int) -> int {
    2 * i + 1
}

pub open spec fn right_child(i: int) -> int {
    2 * i + 2
}

/// The buddy of node `i`: its sibling under the same parent.
pub open spec fn sibling(i: int) -> int {
    if i % 2 == 1 {
        i + 1
    } else {
        i - 1
    }
}

/// Distance of node `i` from the root.
pub open spec fn depth_of(i: int) -> nat
    decreases i,
{
    if i <= 0 {
        0
    } else {
        1 + depth_of(parent(i))
    }
}

/// Index of the first node at depth `d`.
pub open spec fn first_at_depth(d: nat) -> int {
    pow2(d) - 1
}

/// Position of node `i` within its level.
pub open spec fn offset_of(i: int) -> int {
    i + 1 - pow2(depth_of(i))
}

/// Number of nodes in a complete tree of the given depth.
pub open spec fn node_count(depth: nat) -> int {
    pow2(depth + 1) - 1
}

/// `a` is a proper ancestor of `i`.
pub open spec fn is_ancestor(a: int, i: int) -> bool
    decreases i,
{
    i > 0 && (parent(i) == a || is_ancestor(a, parent(i)))
}

/// `i` lies in the subtree rooted at `a` (including `a` itself).
pub open spec fn in_subtree(a: int, i: int) -> bool {
    a == i || is_ancestor(a, i)
}

/// Offset of node `i` measured in leaf units of a tree with depth `depth`.
pub open spec fn unit_offset(i: int, depth: nat) -> int {
    offset_of(i) * pow2((depth - depth_of(i)) as nat)
}

/// Number of leaf units spanned by node `i` in a tree of depth `depth`.
pub open spec fn unit_size(i: int, depth: nat) -> int {
    pow2((depth - depth_of(i)) as nat) as int
}

pub proof fn lemma_parent_child(i: int)
    requires
        i >= 1,
    ensures
        left_child(parent(i)) == i || right_child(parent(i)) == i,
        0 <= parent(i) < i,
        depth_of(i) == depth_of(parent(i)) + 1,
{
}

pub proof fn lemma_child_parent(i: int)
    requires
        i >= 0,
    ensures
        parent(left_child(i)) == i,
        parent(right_child(i)) == i,
        depth_of(left_child(i)) == depth_of(i) + 1,
        depth_of(right_child(i)) == depth_of(i) + 1,
{
}

/// Every node's index sits in the half-open index range of its level.
pub proof fn lemma_depth_bounds(i: int)
    requires
        i >= 0,
    ensures
        first_at_depth(depth_of(i)) <= i < first_at_depth(depth_of(i)) + pow2(depth_of(i)),
        0 <= offset_of(i) < pow2(depth_of(i)),
        i == first_at_depth(depth_of(i)) + offset_of(i),
    decreases i,
{
    if i == 0 {
        vstd::arithmetic::power2::lemma2_to64();
    } else {
        let p = parent(i);
        lemma_parent_child(i);
        lemma_depth_bounds(p);
        lemma_pow2_double(depth_of(p));
    }
}

/// The levels' index ranges are disjoint, so the level of an index is unique.
pub proof fn lemma_depth_unique(i: int, d: nat)
    requires
        i >= 0,
        first_at_depth(d) <= i < first_at_depth(d) + pow2(d),
    ensures
        depth_of(i) == d,
{
    lemma_depth_bounds(i);
    let di = depth_of(i);
    if di < d {
        lemma_pow2_double(di);
        lemma_pow2_le(di + 1, d);
    }
    if di > d {
        lemma_pow2_double(d);
        lemma_pow2_le(d + 1, di);
    }
}

/// Children's offsets double their parent's.
pub proof fn lemma_child_coords(i: int)
    requires
        i >= 0,
    ensures
        offset_of(left_child(i)) == 2 * offset_of(i),
        offset_of(right_child(i)) == 2 * offset_of(i) + 1,
{
    lemma_child_parent(i);
    lemma_pow2_double(depth_of(i));
}

pub proof fn lemma_ancestor_depth(a: int, i: int)
    requires
        is_ancestor(a, i),
    ensures
        depth_of(a) < depth_of(i),
        0 <= a < i,
    decreases i,
{
    lemma_parent_child(i);
    if parent(i) != a {
        lemma_ancestor_depth(a, parent(i));
    }
}

pub proof fn lemma_subtree_trans(a: int, m: int, i: int)
    requires
        in_subtree(a, m),
        in_subtree(m, i),
    ensures
        in_subtree(a, i),
    decreases i,
{
    if m != i && a != m {
        if parent(i) == m {
        } else {
            lemma_subtree_trans(a, m, parent(i));
        }
    }
}

pub proof fn lemma_root_subtree(i: int)
    requires
        i >= 0,
    ensures
        in_subtree(0, i),
    decreases i,
{
    if i > 0 {
        lemma_parent_child(i);
        lemma_root_subtree(parent(i));
    }
}

/// Subtree membership, in level coordinates: `i` lies under `a` exactly when
/// `i` is deep enough and its offset falls in the block of offsets that `a`
/// spans at `i`'s level.
pub proof fn lemma_subtree_interval(a: int, i: int)
    requires
        a >= 0,
        i >= 0,
    ensures
        in_subtree(a, i) <==> {
            &&& depth_of(i) >= depth_of(a)
            &&& offset_of(a) * pow2((depth_of(i) - depth_of(a)) as nat) <= offset_of(i)
                < (offset_of(a) + 1) * pow2((depth_of(i) - depth_of(a)) as nat)
        },
    decreases i,
{
    let da = depth_of(a);
    let di = depth_of(i);
    lemma_depth_bounds(a);
    lemma_depth_bounds(i);
    if di <= da {
        vstd::arithmetic::power2::lemma2_to64();
        if is_ancestor(a, i) {
            lemma_ancestor_depth(a, i);
            assert(false);
        }
        assert(in_subtree(a, i) <==> a == i);
        if di < da {
            assert(!in_subtree(a, i));
        } else {
            assert(pow2((di - da) as nat) == 1);
            assert(offset_of(a) * 1 == offset_of(a));
            assert((offset_of(a) + 1) * 1 == offset_of(a) + 1);
            if offset_of(a) <= offset_of(i) < offset_of(a) + 1 {
                assert(offset_of(a) == offset_of(i));
                assert(a == i);
            }
            if a == i {
                assert(offset_of(a) <= offset_of(i) < offset_of(a) + 1);
            }
        }
    } else {
        let p = parent(i);
        lemma_parent_child(i);
        lemma_subtree_interval(a, p);
        lemma_depth_bounds(p);
        lemma_child_coords(p);
        lemma_pow2_double((di - 1 - da) as nat);
        let q = pow2((di - 1 - da) as nat) as int;
        let oa = offset_of(a);
        let op = offset_of(p);
        let oi = offset_of(i);
        assert(oi == 2 * op || oi == 2 * op + 1);
        assert(in_subtree(a, i) <==> in_subtree(a, p)) by {
            if in_subtree(a, i) {
                assert(a != i);
                assert(is_ancestor(a, i));
                if parent(i) == a {
                } else {
                    assert(is_ancestor(a, p));
                }
            }
            if in_subtree(a, p) {
                if a == p {
                    assert(is_ancestor(a, i));
                } else {
                    assert(is_ancestor(a, p));
                    assert(is_ancestor(a, i));
                }
            }
        }
        if in_subtree(a, p) {
            assert(oa * q <= op < (oa + 1) * q);
            assert(oa * (2 * q) <= oi < (oa + 1) * (2 * q)) by (nonlinear_arith)
                requires
                    oa * q <= op < (oa + 1) * q,
                    oi == 2 * op || oi == 2 * op + 1,
            ;
        } else {
            assert(!(oa * q <= op < (oa + 1) * q));
            assert(!(oa * (2 * q) <= oi < (oa + 1) * (2 * q))) by (nonlinear_arith)
                requires
                    !(oa * q <= op < (oa + 1) * q),
                    oi == 2 * op || oi == 2 * op + 1,
            ;
        }
    }
}

/// A node of the same depth inside a subtree is the subtree's root itself.
pub proof fn lemma_same_depth_in_subtree(a: int, i: int)
    requires
        a >= 0,
        i >= 0,
        in_subtree(a, i),
        depth_of(a) == depth_of(i),
    ensures
        a == i,
{
    if is_ancestor(a, i) {
        lemma_ancestor_depth(a, i);
    }
}

/// A strictly deeper node of a subtree lies under exactly one child of the root.
pub proof fn lemma_subtree_split(a: int, i: int)
    requires
        a >= 0,
        i >= 0,
        in_subtree(a, i),
        depth_of(i) > depth_of(a),
    ensures
        in_subtree(left_child(a), i) || in_subtree(right_child(a), i),
        !(in_subtree(left_child(a), i) && in_subtree(right_child(a), i)),
    decreases i,
{
    lemma_child_parent(a);
    assert(is_ancestor(a, i));
    lemma_ancestor_depth(a, i);
    lemma_parent_child(i);
    if parent(i) == a {
        assert(in_subtree(left_child(a), i) || in_subtree(right_child(a), i));
    } else {
        assert(is_ancestor(a, parent(i)));
        lemma_ancestor_depth(a, parent(i));
        lemma_subtree_split(a, parent(i));
    }
    if in_subtree(left_child(a), i) && in_subtree(right_child(a), i) {
        lemma_subtree_interval(left_child(a), i);
        lemma_subtree_interval(right_child(a), i);
        lemma_child_coords(a);
        lemma_child_parent(a);
    }
}

/// Two ancestors of one node are themselves nested.
pub proof fn lemma_ancestors_chain(a1: int, a2: int, i: int)
    requires
        a1 >= 0,
        a2 >= 0,
        is_ancestor(a1, i),
        is_ancestor(a2, i),
    ensures
        in_subtree(a1, a2) || in_subtree(a2, a1),
    decreases i,
{
    let p = parent(i);
    lemma_parent_child(i);
    if a1 == p && a2 == p {
    } else if a1 == p {
        assert(is_ancestor(a2, p));
    } else if a2 == p {
        assert(is_ancestor(a1, p));
    } else {
        lemma_ancestors_chain(a1, a2, p);
    }
}

/// Nodes of one level, ordered by index, appear left subtree first.
pub proof fn lemma_left_right_order(a: int, j1: int, j2: int)
    requires
        a >= 0,
        j1 >= 0,
        j2 >= 0,
        depth_of(j1) == depth_of(j2),
        in_subtree(left_child(a), j1),
        in_subtree(right_child(a), j2),
    ensures
        j1 < j2,
{
    lemma_child_parent(a);
    lemma_child_coords(a);
    lemma_subtree_interval(left_child(a), j1);
    lemma_subtree_interval(right_child(a), j2);
    lemma_depth_bounds(j1);
    lemma_depth_bounds(j2);
    let d = depth_of(j1);
    let dc = depth_of(left_child(a));
    let q = pow2((d - dc) as nat) as int;
    assert(offset_of(j1) < (offset_of(left_child(a)) + 1) * q);
    assert(offset_of(right_child(a)) * q >= (offset_of(left_child(a)) + 1) * q) by (nonlinear_arith)
        requires
            q >= 0,
            offset_of(right_child(a)) == offset_of(left_child(a)) + 1,
    ;
}

} // verus!

verus! {

use vstd::arithmetic::power2::{lemma_pow2_adds, lemma_pow2_pos};

/// Whether a state marks a subdivided block.
pub open spec fn is_subdivided(s: BlockState) -> bool {
    s is Superblock || s is SuperblockFull
}

/// The state an internal node must carry, as a function of its children:
/// two free children coalesce to a free block, two exhausted children make a
/// full superblock, and any other mix leaves a superblock with free space.
pub open spec fn combine(l: BlockState, r: BlockState) -> BlockState {
    if l is Free && r is Free {
        BlockState::Free
    } else if (l is Allocated || l is SuperblockFull) && (r is Allocated || r is SuperblockFull) {
        BlockState::SuperblockFull
    } else {
        BlockState::Superblock
    }
}

pub open spec fn valid(i: int, depth: nat) -> bool {
    0 <= i < node_count(depth)
}

pub open spec fn is_internal(i: int, depth: nat) -> bool {
    0 <= i < first_at_depth(depth)
}

/// Local well-formedness of internal node `i`: a free or allocated block has
/// only free sub-blocks, and a subdivided block's state is determined by its
/// children.
pub open spec fn wf_at(nodes: Seq<BlockState>, i: int) -> bool {
    &&& ((nodes[i] is Free || nodes[i] is Allocated) ==> nodes[left_child(i)] is Free
        && nodes[right_child(i)] is Free)
    &&& (is_subdivided(nodes[i]) ==> nodes[i] == combine(
        nodes[left_child(i)],
        nodes[right_child(i)],
    ))
}

/// Global well-formedness of a tree of the given depth: the node list covers
/// the complete tree, every internal node is locally consistent, and leaves
/// are never subdivided.
pub open spec fn wf(nodes: Seq<BlockState>, depth: nat) -> bool {
    &&& nodes.len() == node_count(depth)
    &&& (forall|i: int| is_internal(i, depth) ==> #[trigger] wf_at(nodes, i))
    &&& (forall|i: int|
        first_at_depth(depth) <= i < node_count(depth) ==> (#[trigger] nodes[i] is Free
            || nodes[i] is Allocated))
}

/// No ancestor of `i` is allocated or exhausted, so an allocation walk can
/// reach `i`.
pub open spec fn path_clear(nodes: Seq<BlockState>, i: int) -> bool {
    forall|a: int|
        #[trigger] is_ancestor(a, i) ==> (nodes[a] is Free || nodes[a] is Superblock)
}

/// Block `i` is free and reachable: a request of its size may claim it.
pub open spec fn available(nodes: Seq<BlockState>, i: int) -> bool {
    nodes[i] is Free && path_clear(nodes, i)
}

/// All strict ancestors of `j` within the subtree rooted at `n` (including
/// `n` itself) admit descent during an allocation walk.
pub open spec fn clean_between(nodes: Seq<BlockState>, n: int, j: int) -> bool {
    forall|a: int|
        in_subtree(n, a) && #[trigger] is_ancestor(a, j) ==> (nodes[a] is Free
            || nodes[a] is Superblock)
}

pub proof fn lemma_valid_depth(i: int, depth: nat)
    requires
        i >= 0,
    ensures
        valid(i, depth) <==> depth_of(i) <= depth,
        is_internal(i, depth) <==> depth_of(i) < depth,
{
    lemma_depth_bounds(i);
    let di = depth_of(i);
    lemma_pow2_double(di);
    if di <= depth {
        lemma_pow2_le(di + 1, depth + 1);
    }
    if di < depth {
        lemma_pow2_le(di + 1, depth);
    }
    if di > depth {
        lemma_pow2_le(depth + 1, di);
    }
    if di >= depth {
        lemma_pow2_le(depth, di);
    }
}

pub proof fn lemma_children_valid(i: int, depth: nat)
    requires
        is_internal(i, depth),
    ensures
        valid(left_child(i), depth),
        valid(right_child(i), depth),
        depth_of(left_child(i)) == depth_of(i) + 1,
        depth_of(right_child(i)) == depth_of(i) + 1,
        !is_ancestor(left_child(i), right_child(i)),
        !is_ancestor(right_child(i), left_child(i)),
{
    lemma_child_parent(i);
    lemma_valid_depth(i, depth);
    lemma_valid_depth(left_child(i), depth);
    lemma_valid_depth(right_child(i), depth);
    if is_ancestor(left_child(i), right_child(i)) {
        lemma_ancestor_depth(left_child(i), right_child(i));
    }
    if is_ancestor(right_child(i), left_child(i)) {
        lemma_ancestor_depth(right_child(i), left_child(i));
    }
}

/// Below a free or allocated block, everything is free.
pub proof fn lemma_free_subtree(nodes: Seq<BlockState>, depth: nat, a: int, j: int)
    requires
        wf(nodes, depth),
        valid(a, depth),
        valid(j, depth),
        nodes[a] is Free || nodes[a] is Allocated,
        is_ancestor(a, j),
    ensures
        nodes[j] is Free,
    decreases j,
{
    lemma_ancestor_depth(a, j);
    lemma_parent_child(j);
    let p = parent(j);
    lemma_valid_depth(j, depth);
    lemma_valid_depth(p, depth);
    lemma_valid_depth(a, depth);
    if p == a {
        assert(wf_at(nodes, a));
    } else {
        lemma_free_subtree(nodes, depth, a, p);
        assert(wf_at(nodes, p));
    }
}

/// Every ancestor of an allocated block is subdivided.
pub proof fn lemma_allocated_ancestors_subdivided(
    nodes: Seq<BlockState>,
    depth: nat,
    b: int,
    a: int,
)
    requires
        wf(nodes, depth),
        valid(b, depth),
        valid(a, depth),
        nodes[b] is Allocated,
        is_ancestor(a, b),
    ensures
        is_subdivided(nodes[a]),
{
    if nodes[a] is Free || nodes[a] is Allocated {
        lemma_free_subtree(nodes, depth, a, b);
    }
}

/// A tree with no allocated block anywhere is entirely free.
pub proof fn lemma_no_allocated_free_at(nodes: Seq<BlockState>, depth: nat, i: int)
    requires
        wf(nodes, depth),
        valid(i, depth),
        forall|j: int| valid(j, depth) ==> !(#[trigger] nodes[j] is Allocated),
    ensures
        nodes[i] is Free,
    decreases depth - depth_of(i),
{
    lemma_valid_depth(i, depth);
    if is_internal(i, depth) {
        lemma_children_valid(i, depth);
        lemma_no_allocated_free_at(nodes, depth, left_child(i));
        lemma_no_allocated_free_at(nodes, depth, right_child(i));
        assert(wf_at(nodes, i));
    }
}

/// Well-formed trees with the same allocated blocks agree everywhere.
pub proof fn lemma_state_determined_at(
    n1: Seq<BlockState>,
    n2: Seq<BlockState>,
    depth: nat,
    i: int,
)
    requires
        wf(n1, depth),
        wf(n2, depth),
        forall|j: int|
            valid(j, depth) ==> ((#[trigger] n1[j] is Allocated) <==> n2[j] is Allocated),
        valid(i, depth),
    ensures
        n1[i] == n2[i],
    decreases depth - depth_of(i),
{
    lemma_valid_depth(i, depth);
    if is_internal(i, depth) {
        lemma_children_valid(i, depth);
        lemma_state_determined_at(n1, n2, depth, left_child(i));
        lemma_state_determined_at(n1, n2, depth, right_child(i));
        assert(wf_at(n1, i));
        assert(wf_at(n2, i));
        if !(n1[i] is Allocated) {
            let l = n1[left_child(i)];
            let r = n1[right_child(i)];
            if l is Free && r is Free {
                assert(!is_subdivided(n1[i]));
                assert(!is_subdivided(n2[i]));
            } else {
                assert(!(n1[i] is Free));
                assert(!(n2[i] is Free));
            }
        }
    }
}

pub proof fn lemma_state_determined(n1: Seq<BlockState>, n2: Seq<BlockState>, depth: nat)
    requires
        wf(n1, depth),
        wf(n2, depth),
        forall|j: int|
            valid(j, depth) ==> ((#[trigger] n1[j] is Allocated) <==> n2[j] is Allocated),
    ensures
        n1 == n2,
{
    assert forall|i: int| 0 <= i < n1.len() implies n1[i] == n2[i] by {
        lemma_state_determined_at(n1, n2, depth, i);
    }
    assert(n1 =~= n2);
}

} // verus!

verus! {

/// A block's unit span lies inside the tree's extent.
pub proof fn lemma_unit_span(i: int, depth: nat)
    requires
        valid(i, depth),
    ensures
        1 <= unit_size(i, depth),
        0 <= unit_offset(i, depth),
        unit_offset(i, depth) + unit_size(i, depth) <= pow2(depth),
        unit_offset(i, depth) == offset_of(i) * unit_size(i, depth),
{
    lemma_valid_depth(i, depth);
    lemma_depth_bounds(i);
    let di = depth_of(i);
    let h = (depth - di) as nat;
    lemma_pow2_pos(h);
    lemma_pow2_adds(di, h);
    let q = pow2(h) as int;
    let oi = offset_of(i);
    assert(0 <= oi * q && oi * q + q <= pow2(di) * q) by (nonlinear_arith)
        requires
            0 <= oi,
            oi + 1 <= pow2(di),
            q >= 1,
    ;
    assert(pow2(di) * q == pow2(di) * pow2(h));
}

/// Two blocks whose unit spans overlap are nested, shallower above deeper.
pub proof fn lemma_overlap_nested(i: int, j: int, depth: nat)
    requires
        valid(i, depth),
        valid(j, depth),
        depth_of(i) <= depth_of(j),
        unit_offset(i, depth) < unit_offset(j, depth) + unit_size(j, depth),
        unit_offset(j, depth) < unit_offset(i, depth) + unit_size(i, depth),
    ensures
        in_subtree(i, j),
{
    lemma_valid_depth(i, depth);
    lemma_valid_depth(j, depth);
    lemma_depth_bounds(i);
    lemma_depth_bounds(j);
    let di = depth_of(i);
    let dj = depth_of(j);
    let k = (dj - di) as nat;
    let p = pow2((depth - dj) as nat) as int;
    let q = pow2((depth - di) as nat) as int;
    lemma_pow2_adds(k, (depth - dj) as nat);
    assert(q == pow2(k) * p);
    lemma_pow2_pos((depth - dj) as nat);
    lemma_pow2_pos(k);
    let oi = offset_of(i);
    let oj = offset_of(j);
    assert((oj + 1) * p == oj * p + p) by (nonlinear_arith);
    assert((oi + 1) * q == oi * q + q) by (nonlinear_arith);
    assert(oi * q < (oj + 1) * p);
    assert(oj * p < (oi + 1) * q);
    assert(oi * pow2(k) <= oj < (oi + 1) * pow2(k)) by (nonlinear_arith)
        requires
            p >= 1,
            pow2(k) >= 1,
            q == pow2(k) * p,
            oi * q < (oj + 1) * p,
            oj * p < (oi + 1) * q,
    ;
    lemma_subtree_interval(i, j);
}

/// Two distinct allocated blocks occupy disjoint unit spans.
pub proof fn lemma_allocated_disjoint(nodes: Seq<BlockState>, depth: nat, i: int, j: int)
    requires
        wf(nodes, depth),
        valid(i, depth),
        valid(j, depth),
        i != j,
        nodes[i] is Allocated,
        nodes[j] is Allocated,
    ensures
        unit_offset(i, depth) + unit_size(i, depth) <= unit_offset(j, depth) || unit_offset(
            j,
            depth,
        ) + unit_size(j, depth) <= unit_offset(i, depth),
{
    if unit_offset(i, depth) < unit_offset(j, depth) + unit_size(j, depth) && unit_offset(j, depth)
        < unit_offset(i, depth) + unit_size(i, depth) {
        if depth_of(i) <= depth_of(j) {
            lemma_overlap_nested(i, j, depth);
            if i == j {
            } else {
                lemma_free_subtree(nodes, depth, i, j);
            }
        } else {
            lemma_overlap_nested(j, i, depth);
            lemma_free_subtree(nodes, depth, j, i);
        }
    }
}

/// A unit offset identifies at most one allocated block.
pub proof fn lemma_allocated_offset_unique(nodes: Seq<BlockState>, depth: nat, i: int, j: int)
    requires
        wf(nodes, depth),
        valid(i, depth),
        valid(j, depth),
        nodes[i] is Allocated,
        nodes[j] is Allocated,
        unit_offset(i, depth) == unit_offset(j, depth),
    ensures
        i == j,
{
    if i != j {
        lemma_unit_span(i, depth);
        lemma_unit_span(j, depth);
        lemma_allocated_disjoint(nodes, depth, i, j);
    }
}

/// The strict ancestors of `j` within the subtree of `n` are `n` itself plus
/// those within the child of `n` that holds `j`.
pub proof fn lemma_path_decompose(n: int, c: int, j: int)
    requires
        n >= 0,
        j >= 0,
        c == left_child(n) || c == right_child(n),
        in_subtree(c, j),
    ensures
        forall|x: int|
            (in_subtree(n, x) && #[trigger] is_ancestor(x, j)) <==> (x == n || (in_subtree(c, x)
                && is_ancestor(x, j))),
{
    lemma_child_parent(n);
    assert(is_ancestor(n, c)) by {
        assert(parent(c) == n);
    }
    assert forall|x: int|
        (in_subtree(n, x) && #[trigger] is_ancestor(x, j)) implies (x == n || (in_subtree(c, x)
            && is_ancestor(x, j))) by {
        if x != n {
            assert(is_ancestor(n, x));
            lemma_ancestor_depth(n, x);
            if c == j {
                lemma_ancestor_depth(x, j);
                lemma_ancestor_depth(n, c);
                assert(false);
            } else {
                assert(is_ancestor(c, j));
                lemma_ancestors_chain(c, x, j);
                if in_subtree(x, c) && x != c {
                    lemma_ancestor_depth(x, c);
                    lemma_ancestor_depth(n, x);
                    assert(false);
                }
            }
        }
    }
    assert forall|x: int|
        (x == n || (in_subtree(c, x) && #[trigger] is_ancestor(x, j))) implies (in_subtree(n, x)
            && is_ancestor(x, j)) by {
        if x == n {
            if c == j {
                assert(is_ancestor(n, j));
            } else {
                assert(is_ancestor(c, j));
                lemma_subtree_trans(n, c, j);
                lemma_ancestor_depth(c, j);
                lemma_ancestor_depth(n, c);
                if n == j {
                    assert(false);
                }
                assert(is_ancestor(n, j));
            }
        } else {
            lemma_subtree_trans(n, c, x);
        }
    }
}

/// Seen from the root, the walk predicates coincide with global reachability.
pub proof fn lemma_between_root(nodes: Seq<BlockState>, j: int)
    requires
        j >= 0,
    ensures
        clean_between(nodes, 0, j) <==> path_clear(nodes, j),
{
    assert forall|a: int| #[trigger] is_ancestor(a, j) implies in_subtree(0, a) by {
        lemma_ancestor_depth(a, j);
        lemma_root_subtree(a);
    }
}

} // verus!

verus! {

/// A node has no strict ancestor within its own subtree.
pub proof fn lemma_between_self(nodes: Seq<BlockState>, n: int)
    requires
        n >= 0,
    ensures
        clean_between(nodes, n, n),
{
    assert forall|x: int| !(in_subtree(n, x) && #[trigger] is_ancestor(x, n)) by {
        if in_subtree(n, x) && is_ancestor(x, n) {
            lemma_ancestor_depth(x, n);
            if x != n {
                lemma_ancestor_depth(n, x);
            }
        }
    }
}

/// Walking into a child splits the allocation-walk predicate: the root must
/// admit descent, the rest is the child's business.
pub proof fn lemma_clean_decompose(nodes: Seq<BlockState>, n: int, c: int, j: int)
    requires
        n >= 0,
        j >= 0,
        c == left_child(n) || c == right_child(n),
        in_subtree(c, j),
    ensures
        clean_between(nodes, n, j) <==> ((nodes[n] is Free || nodes[n] is Superblock)
            && clean_between(nodes, c, j)),
{
    lemma_path_decompose(n, c, j);
    lemma_child_parent(n);
    if j == c {
        lemma_between_self(nodes, c);
        assert(is_ancestor(n, j));
        assert(in_subtree(n, n));
    } else {
        assert(is_ancestor(c, j));
        assert(is_ancestor(n, j)) by {
            lemma_subtree_trans(n, c, j);
            lemma_ancestor_depth(c, j);
            if n == j {
                assert(false);
            }
        }
        assert(in_subtree(n, n));
    }
    if (nodes[n] is Free || nodes[n] is Superblock) && clean_between(nodes, c, j) {
        assert forall|a: int|
            in_subtree(n, a) && #[trigger] is_ancestor(a, j) implies (nodes[a] is Free
            || nodes[a] is Superblock) by {
            if a != n {
                assert(in_subtree(c, a) && is_ancestor(a, j));
            }
        }
    }
}


} // verus!

verus! {

/// A non-root node and its buddy share a parent and a level, and are the
/// parent's two children in some order.
pub proof fn lemma_sibling(i: int)
    requires
        i >= 1,
    ensures
        sibling(i) >= 1,
        sibling(i) != i,
        parent(sibling(i)) == parent(i),
        depth_of(sibling(i)) == depth_of(i),
        (left_child(parent(i)) == i && right_child(parent(i)) == sibling(i)) || (left_child(
            parent(i),
        ) == sibling(i) && right_child(parent(i)) == i),
{
    lemma_parent_child(i);
    lemma_parent_child(sibling(i));
}

/// The buddy's subtree does not contain a node that lies under its sibling.
pub proof fn lemma_buddy_not_related(b: int, child: int)
    requires
        child >= 1,
        in_subtree(child, b),
    ensures
        sibling(child) != b,
        !is_ancestor(sibling(child), b),
{
    lemma_sibling(child);
    let s = sibling(child);
    if s == b {
        lemma_ancestor_depth(child, b);
    }
    if is_ancestor(s, b) {
        if child == b {
            lemma_ancestor_depth(s, b);
        } else {
            lemma_ancestors_chain(child, s, b);
            if in_subtree(child, s) {
                lemma_same_depth_in_subtree(child, s);
            } else {
                lemma_same_depth_in_subtree(s, child);
            }
        }
    }
}

/// Climbing one edge grows the set of passed ancestors of `b` by exactly the
/// parent.
pub proof fn lemma_processed_step(b: int, child: int)
    requires
        child >= 1,
        in_subtree(child, b),
    ensures
        is_ancestor(parent(child), b),
        forall|x: int|
            (#[trigger] is_ancestor(x, b) && in_subtree(parent(child), x)) <==> (x == parent(child)
                || (is_ancestor(x, b) && in_subtree(child, x))),
{
    let p = parent(child);
    lemma_parent_child(child);
    assert(is_ancestor(p, child));
    assert(is_ancestor(p, b)) by {
        if child == b {
        } else {
            lemma_subtree_trans(p, child, b);
            lemma_ancestor_depth(child, b);
            lemma_ancestor_depth(p, child);
            if p == b {
                assert(false);
            }
        }
    }
    assert forall|x: int|
        (#[trigger] is_ancestor(x, b) && in_subtree(p, x)) implies (x == p || (is_ancestor(x, b)
            && in_subtree(child, x))) by {
        if x != p {
            assert(is_ancestor(p, x));
            lemma_ancestor_depth(p, x);
            if x == child {
            } else if child == b {
                lemma_ancestor_depth(x, b);
                lemma_ancestor_depth(p, child);
                assert(false);
            } else {
                lemma_ancestors_chain(child, x, b);
                if in_subtree(x, child) {
                    lemma_ancestor_depth(x, child);
                    lemma_ancestor_depth(p, child);
                    assert(false);
                }
            }
        }
    }
    assert forall|x: int|
        (x == p || (#[trigger] is_ancestor(x, b) && in_subtree(child, x))) implies (is_ancestor(
        x,
        b,
    ) && in_subtree(p, x)) by {
        if x == p {
        } else {
            lemma_subtree_trans(p, child, x);
        }
    }
}

} // verus!

verus! {

/// Once the allocation at a given offset is removed, no allocated block is
/// left at that offset: a second free of the same offset must fail.
pub proof fn lemma_offset_freed_once(
    before: Seq<BlockState>,
    after: Seq<BlockState>,
    depth: nat,
    b: int,
    off: int,
)
    requires
        wf(before, depth),
        valid(b, depth),
        before[b] is Allocated,
        unit_offset(b, depth) == off,
        forall|i: int|
            valid(i, depth) ==> ((#[trigger] after[i] is Allocated) <==> (before[i] is Allocated
                && i != b)),
    ensures
        forall|j: int|
            valid(j, depth) && (#[trigger] after[j] is Allocated) ==> unit_offset(j, depth) != off,
{
    assert forall|j: int|
        valid(j, depth) && (#[trigger] after[j] is Allocated) implies unit_offset(j, depth)
        != off by {
        if unit_offset(j, depth) == off {
            lemma_allocated_offset_unique(before, depth, j, b);
        }
    }
}

/// A well-formed tree with no allocated block is entirely free: a balanced
/// sequence of allocations and frees always returns to the all-free state.
pub proof fn lemma_no_allocated_all_free(nodes: Seq<BlockState>, depth: nat)
    requires
        wf(nodes, depth),
        forall|j: int| valid(j, depth) ==> !(#[trigger] nodes[j] is Allocated),
    ensures
        forall|i: int| valid(i, depth) ==> #[trigger] nodes[i] is Free,
{
    assert forall|i: int| valid(i, depth) implies #[trigger] nodes[i] is Free by {
        lemma_no_allocated_free_at(nodes, depth, i);
    }
}

} // verus!
