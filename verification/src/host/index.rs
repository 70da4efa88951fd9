//! Index arithmetic of a complete binary tree stored in level order.
//!
//! The root is node 0 and the children of node `i` are `2i + 1` (left, odd)
//! and `2i + 2` (right, even). A tree of depth `d` has `2^(d+1) - 1` nodes,
//! and its leaves are the nodes of depth `d`.

use vstd::arithmetic::div_mod::lemma_div_denominator;
use vstd::arithmetic::logarithm::{lemma_log0, lemma_log_nonnegative, lemma_log_s, log};
use vstd::arithmetic::power2::{lemma2_to64, lemma_pow2_pos, lemma_pow2_unfold, pow2};
use vstd::bits::{lemma_u64_pow2_no_overflow, lemma_u64_shl_is_mul};
use vstd::prelude::*;

verus! {

/// The deepest tree whose node indices all fit in a `u32`.
pub const MAX_DEPTH: usize = 31;

/// Number of nodes of a tree of depth `depth`.
pub open spec fn spec_node_count(depth: nat) -> nat {
    (pow2(depth + 1) - 1) as nat
}

/// Index of the leftmost node at depth `depth`.
pub open spec fn spec_first_at(depth: nat) -> nat {
    (pow2(depth) - 1) as nat
}

/// `index` names a node of a tree of depth `depth`.
pub open spec fn spec_in_tree(index: nat, depth: nat) -> bool {
    index < spec_node_count(depth)
}

/// `index` names a leaf of a tree of depth `depth`.
pub open spec fn spec_is_leaf(index: nat, depth: nat) -> bool {
    spec_first_at(depth) <= index < spec_node_count(depth)
}

/// `index` names a node above the leaves of a tree of depth `depth`, that
/// is one with two children.
pub open spec fn spec_is_parent(index: nat, depth: nat) -> bool {
    spec_depth(index) < depth
}

/// Depth of a node: the floor of the binary logarithm of `index + 1`.
pub open spec fn spec_depth(index: nat) -> nat {
    log(2, (index + 1) as int) as nat
}

/// Position of a node among the nodes of its own depth, counted from 0.
pub open spec fn spec_offset(index: nat) -> nat {
    (index + 1 - pow2(spec_depth(index))) as nat
}

/// The other child of the parent of a node that is not the root.
pub open spec fn spec_sibling(index: nat) -> nat {
    if index % 2 == 1 {
        index + 1
    } else {
        (index - 1) as nat
    }
}

/// Parent of a node that is not the root.
pub open spec fn spec_parent(index: nat) -> nat {
    ((index - 1) / 2) as nat
}

/// The ancestor `levels` levels above a node (the node itself for 0).
pub open spec fn spec_ancestor(index: nat, levels: nat) -> nat
    decreases levels,
{
    if levels == 0 {
        index
    } else {
        spec_parent(spec_ancestor(index, (levels - 1) as nat))
    }
}

/// The nodes from just below the root down to the node itself, in that
/// order. The root is left out and the node itself is the last element.
pub open spec fn spec_path(index: nat) -> Seq<nat>
    decreases index,
{
    if index == 0 {
        Seq::empty()
    } else {
        spec_path(spec_parent(index)).push(index)
    }
}

/// `path` holds the path of `index`, entry for entry.
pub open spec fn spec_is_path(path: Seq<u32>, index: nat) -> bool {
    &&& path.len() == spec_path(index).len()
    &&& forall|j: int| 0 <= j < path.len() ==> path[j] == spec_path(index)[j]
}

/// The node at position `offset` of depth `depth`.
pub open spec fn spec_node_at(depth: nat, offset: nat) -> nat {
    spec_first_at(depth) + offset
}

/// `pow2` doubles with each step.
pub proof fn lemma_pow2_step(e: nat)
    ensures
        pow2(e + 1) == 2 * pow2(e),
        pow2(e) >= 1,
{
    lemma_pow2_unfold(e + 1);
    lemma_pow2_pos(e);
}

/// `pow2` is monotone.
pub proof fn lemma_pow2_monotone(a: nat, b: nat)
    requires
        a <= b,
    ensures
        pow2(a) <= pow2(b),
    decreases b - a,
{
    if a < b {
        lemma_pow2_monotone(a, (b - 1) as nat);
        lemma_pow2_step((b - 1) as nat);
    }
}

/// A node sits one level below its parent.
pub proof fn lemma_depth_of_child(index: nat)
    requires
        index > 0,
    ensures
        spec_depth(index) == spec_depth(spec_parent(index)) + 1,
{
    lemma_log_s(2, (index + 1) as int);
    assert((index + 1) / 2 == spec_parent(index) + 1);
    lemma_log_nonnegative(2, (spec_parent(index) + 1) as int);
}

/// The nodes of depth `d` are exactly those with `2^d <= index + 1 < 2^(d+1)`.
pub proof fn lemma_depth_bounds(index: nat)
    ensures
        pow2(spec_depth(index)) <= index + 1 < pow2(spec_depth(index) + 1),
    decreases index,
{
    lemma2_to64();
    if index == 0 {
        lemma_log0(2, 1);
    } else {
        let parent = spec_parent(index);
        lemma_depth_of_child(index);
        lemma_depth_bounds(parent);
        lemma_pow2_step(spec_depth(parent));
        lemma_pow2_step(spec_depth(parent) + 1);
    }
}

/// The depth is the only exponent that brackets `index + 1`.
pub proof fn lemma_depth_unique(index: nat, depth: nat)
    requires
        pow2(depth) <= index + 1 < pow2(depth + 1),
    ensures
        spec_depth(index) == depth,
{
    let d = spec_depth(index);
    lemma_depth_bounds(index);
    if d < depth {
        lemma_pow2_monotone(d + 1, depth);
    } else if depth < d {
        lemma_pow2_monotone(depth + 1, d);
    }
}

/// A node is the one at its own depth and offset.
pub proof fn lemma_node_at_own(index: nat)
    ensures
        spec_node_at(spec_depth(index), spec_offset(index)) == index,
        spec_offset(index) < pow2(spec_depth(index)),
{
    lemma_depth_bounds(index);
    lemma_pow2_step(spec_depth(index));
}

/// Going to the parent halves the offset.
pub proof fn lemma_offset_of_parent(index: nat)
    requires
        index > 0,
    ensures
        spec_offset(spec_parent(index)) == spec_offset(index) / 2,
        spec_parent(index) < index,
{
    let parent = spec_parent(index);
    lemma_depth_of_child(index);
    lemma_depth_bounds(index);
    lemma_depth_bounds(parent);
    lemma_pow2_step(spec_depth(parent));
}

/// Below the root, the nodes at odd offsets are the right children, which
/// have even indices.
pub proof fn lemma_offset_parity(index: nat)
    requires
        index > 0,
    ensures
        spec_offset(index) % 2 == 1 <==> index % 2 == 0,
        index % 2 == 1 ==> index == 2 * spec_parent(index) + 1,
        index % 2 == 0 ==> index == 2 * spec_parent(index) + 2,
{
    lemma_depth_of_child(index);
    lemma_depth_bounds(index);
    lemma_pow2_step(spec_depth(spec_parent(index)));
}

/// The sibling shares the parent and the depth, and is its sibling's sibling.
pub proof fn lemma_sibling(index: nat)
    requires
        index > 0,
    ensures
        spec_sibling(index) > 0,
        spec_sibling(index) != index,
        spec_sibling(spec_sibling(index)) == index,
        spec_parent(spec_sibling(index)) == spec_parent(index),
        spec_depth(spec_sibling(index)) == spec_depth(index),
{
    lemma_depth_of_child(index);
    lemma_depth_of_child(spec_sibling(index));
}

/// A tree that holds a node below the root holds its sibling too.
pub proof fn lemma_sibling_in_tree(index: nat, depth: nat)
    requires
        index > 0,
        spec_in_tree(index, depth),
    ensures
        spec_in_tree(spec_sibling(index), depth),
{
    lemma_pow2_step(depth);
}

/// The nodes of a tree are those of depth at most the tree's depth, and
/// its leaves those of exactly that depth.
pub proof fn lemma_depth_in_tree(index: nat, depth: nat)
    ensures
        spec_in_tree(index, depth) <==> spec_depth(index) <= depth,
        spec_is_leaf(index, depth) <==> spec_depth(index) == depth,
{
    let d = spec_depth(index);
    lemma_depth_bounds(index);
    lemma_pow2_step(depth);
    if d <= depth {
        lemma_pow2_monotone(d + 1, depth + 1);
    } else {
        lemma_pow2_monotone(depth + 1, d);
    }
    if d < depth {
        lemma_pow2_monotone(d + 1, depth);
    }
}

/// Climbing from the parent is climbing one level more from the child.
pub proof fn lemma_ancestor_of_parent(index: nat, levels: nat)
    ensures
        spec_ancestor(spec_parent(index), levels) == spec_ancestor(index, levels + 1),
    decreases levels,
{
    if levels > 0 {
        lemma_ancestor_of_parent(index, (levels - 1) as nat);
    }
    assert(spec_ancestor(index, 1) == spec_parent(spec_ancestor(index, 0)));
}

/// Each level climbed takes one from the depth, and the climb reaches the
/// root after as many levels as the node is deep.
pub proof fn lemma_ancestor_depth(index: nat, levels: nat)
    requires
        levels <= spec_depth(index),
    ensures
        spec_depth(spec_ancestor(index, levels)) == spec_depth(index) - levels,
        spec_ancestor(index, levels) <= index,
        levels < spec_depth(index) ==> spec_ancestor(index, levels) > 0,
        levels == spec_depth(index) ==> spec_ancestor(index, levels) == 0,
    decreases levels,
{
    lemma_depth_bounds(spec_ancestor(index, levels));
    lemma2_to64();
    if levels > 0 {
        let below = spec_ancestor(index, (levels - 1) as nat);
        lemma_ancestor_depth(index, (levels - 1) as nat);
        lemma_depth_of_child(below);
        lemma_offset_of_parent(below);
    }
    if spec_depth(spec_ancestor(index, levels)) > 0 {
        lemma_pow2_monotone(1, spec_depth(spec_ancestor(index, levels)));
    }
}

/// Halving after dividing by `2^e` is dividing by `2^(e+1)`.
pub proof fn lemma_div_pow2_step(x: nat, e: nat)
    ensures
        (x / pow2(e)) / 2 == x / pow2(e + 1),
{
    lemma_pow2_step(e);
    lemma_div_denominator(x as int, pow2(e) as int, 2);
    assert(pow2(e) * 2 == pow2(e + 1));
}

/// The offset of the ancestor `levels` levels up is the offset halved
/// `levels` times.
pub proof fn lemma_ancestor_offset(index: nat, levels: nat)
    requires
        levels <= spec_depth(index),
    ensures
        spec_offset(spec_ancestor(index, levels)) == spec_offset(index) / pow2(levels),
    decreases levels,
{
    if levels == 0 {
        lemma2_to64();
        assert(spec_offset(index) / 1 == spec_offset(index));
    } else {
        let below = spec_ancestor(index, (levels - 1) as nat);
        lemma_ancestor_offset(index, (levels - 1) as nat);
        lemma_ancestor_depth(index, (levels - 1) as nat);
        lemma_offset_of_parent(below);
        lemma_div_pow2_step(spec_offset(index), (levels - 1) as nat);
        assert(((levels - 1) as nat) + 1 == levels);
    }
}

/// The path of a node has one entry for each level below the root.
pub proof fn lemma_path_len(index: nat)
    ensures
        spec_path(index).len() == spec_depth(index),
    decreases index,
{
    if index == 0 {
        lemma_log0(2, 1);
    } else {
        lemma_depth_of_child(index);
        lemma_path_len(spec_parent(index));
    }
}

/// Entry `j` of a path is the ancestor at depth `j + 1`, and its parent is
/// the entry before it, or the root for the first entry.
pub proof fn lemma_path_entry(index: nat, j: int)
    requires
        0 <= j < spec_depth(index),
    ensures
        spec_path(index).len() == spec_depth(index),
        spec_path(index)[j] == spec_ancestor(index, (spec_depth(index) - 1 - j) as nat),
        spec_depth(spec_path(index)[j]) == j + 1,
        0 < spec_path(index)[j] <= index,
        spec_parent(spec_path(index)[j]) == (if j == 0 {
            0
        } else {
            spec_path(index)[j - 1]
        }),
    decreases index,
{
    let depth = spec_depth(index);
    lemma_path_len(index);
    lemma_ancestor_depth(index, (depth - 1 - j) as nat);
    lemma_ancestor_depth(index, (depth - j) as nat);
    lemma_depth_of_child(index);
    lemma_path_len(spec_parent(index));
    if j < depth - 1 {
        lemma_path_entry(spec_parent(index), j);
        lemma_ancestor_of_parent(index, (depth - 2 - j) as nat);
    }
    if j > 0 {
        if j - 1 < depth - 1 {
            lemma_path_entry(spec_parent(index), j - 1);
            lemma_ancestor_of_parent(index, (depth - 1 - j) as nat);
        }
    }
}

/// The last entry of a path is the node itself.
pub proof fn lemma_path_last(index: nat)
    requires
        index > 0,
    ensures
        spec_path(index).len() == spec_depth(index),
        spec_depth(index) > 0,
        spec_path(index)[spec_depth(index) - 1] == index,
{
    lemma_path_len(index);
    lemma_depth_of_child(index);
}

/// `2^e` as a machine integer.
pub fn pow2_u64(e: u32) -> (r: u64)
    requires
        e < 64,
    ensures
        r == pow2(e as nat),
        r >= 1,
{
    proof {
        lemma_u64_pow2_no_overflow(e as nat);
        lemma_u64_shl_is_mul(1, e as u64);
    }
    1u64 << (e as u64)
}

/// Depth of a node.
pub fn get_depth(index: u32) -> (depth: u32)
    ensures
        depth == spec_depth(index as nat),
        depth <= 32,
{
    let target: u64 = index as u64 + 1;
    let mut depth: u32 = 0;
    let mut above: u64 = 2;
    proof {
        lemma2_to64();
    }
    while above <= target
        invariant
            target == index + 1,
            depth <= 32,
            above == pow2((depth + 1) as nat),
            pow2(depth as nat) <= target,
        decreases 33 - depth,
    {
        proof {
            lemma2_to64();
            lemma_pow2_step((depth + 1) as nat);
            if depth >= 32 {
                lemma_pow2_step(32);
                lemma_pow2_monotone(33, (depth + 1) as nat);
            }
        }
        depth = depth + 1;
        above = above * 2;
    }
    proof {
        lemma_depth_unique(index as nat, depth as nat);
    }
    depth
}

} // verus!
