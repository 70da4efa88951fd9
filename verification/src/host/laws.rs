//! Laws of the tree protocol, each proved from the contracts of the
//! functions it speaks of.

use crate::host::index::{
    lemma_ancestor_depth, lemma_depth_bounds, lemma_depth_in_tree, lemma_depth_of_child,
    lemma_offset_parity, lemma_path_entry, lemma_path_len, lemma_pow2_monotone,
    lemma_pow2_step, lemma_sibling, lemma_sibling_in_tree, spec_ancestor, spec_depth,
    spec_first_at, spec_in_tree, spec_is_leaf, spec_is_parent, spec_node_count, spec_offset,
    spec_parent, spec_path, spec_sibling, MAX_DEPTH,
};
use crate::host::merkle::{MerkleNode, MerkleProof, MerkleTree};
use crate::host::model::{
    lemma_climb_step, lemma_climb_zero, lemma_fold_push, spec_assist, spec_climb,
    spec_consistent, spec_fold, spec_pair, spec_proves, spec_verifies, spec_verify_root,
    spec_written, spec_written_hash, MerkleModel,
};
use core::fmt::Debug;
use vstd::arithmetic::logarithm::lemma_log0;
use vstd::arithmetic::power2::lemma2_to64;
use vstd::laws_eq::obeys_concrete_eq;
use vstd::prelude::*;

verus! {

/// The sibling of the sibling of a node below the root is the node itself.
pub proof fn law_sibling_involution(index: nat)
    requires
        index > 0,
    ensures
        spec_sibling(spec_sibling(index)) == index,
{
    lemma_sibling(index);
}

/// Boundary rejection: the index just past the last node is no node and no
/// leaf, and the index just before the first leaf is no leaf.
pub proof fn law_boundary_rejection(depth: nat)
    ensures
        !spec_in_tree(spec_node_count(depth), depth),
        !spec_is_leaf(spec_node_count(depth), depth),
        depth > 0 ==> !spec_is_leaf((spec_first_at(depth) - 1) as nat, depth),
        spec_in_tree((spec_node_count(depth) - 1) as nat, depth),
        spec_is_leaf((spec_node_count(depth) - 1) as nat, depth),
        spec_is_leaf(spec_first_at(depth), depth),
{
    lemma_pow2_step(depth);
    if depth > 0 {
        lemma_pow2_monotone(1, depth);
        lemma2_to64();
    }
}

/// The path of a leaf of a tree of depth `depth` has exactly `depth`
/// entries.
pub proof fn law_path_length(index: nat, depth: nat)
    requires
        spec_is_leaf(index, depth),
    ensures
        spec_path(index).len() == depth,
{
    lemma_depth_in_tree(index, depth);
    lemma_path_len(index);
}

/// A write leaves the siblings along the path of the leaf as they were, and
/// the leaf with the hash written.
proof fn lemma_written_path<H: Debug + Copy + PartialEq, const D: usize, M: MerkleModel<H>>(
    before: M,
    after: M,
    index: u32,
    hash: H,
    written: MerkleProof<H, D>,
)
    requires
        D <= MAX_DEPTH,
        spec_is_leaf(index as nat, D as nat),
        spec_written::<H, D, M>(before, after, index, hash, written),
    ensures
        after.spec_node_hash(index) == hash,
        spec_assist::<H, M>(after, index as nat) == written.assist@,
{
    let path = spec_path(index as nat);
    let assist = spec_assist::<H, M>(before, index as nat);
    lemma_depth_in_tree(index as nat, D as nat);
    lemma_path_len(index as nat);
    lemma_climb_zero::<H, M>(hash, assist, index as nat);
    assert(after.spec_node_hash(index) == spec_written_hash::<H, M>(
        before,
        D as nat,
        index as nat,
        hash,
        (D + 1) as nat,
        index,
    ));
    assert forall|j: int| 0 <= j < D implies after.spec_node_hash(spec_sibling(path[j]) as u32)
        == before.spec_node_hash(spec_sibling(path[j]) as u32) by {
        let sibling = spec_sibling(path[j]);
        lemma_path_entry(index as nat, j);
        lemma_sibling(path[j]);
        lemma_depth_in_tree(path[j], D as nat);
        lemma_sibling_in_tree(path[j], D as nat);
        lemma_pow2_monotone((D + 1) as nat, 32);
        lemma2_to64();
        assert(after.spec_node_hash(sibling as u32) == spec_written_hash::<H, M>(
            before,
            D as nat,
            index as nat,
            hash,
            (D + 1) as nat,
            sibling as u32,
        ));
    }
    assert(spec_assist::<H, M>(after, index as nat) =~= assist);
}

/// Round trip: the leaf that is read after a write has the hash that was
/// written, and comes with the very proof that the write returned.
///
/// `written` stands for what `set_leaf_with_proof` returned for `leaf` on
/// `before`, leaving `after`; `node` and `read` for what
/// `get_leaf_with_proof` then returned on `after` for the same index.
pub proof fn law_round_trip<H: Debug + Copy + PartialEq, const D: usize, T: MerkleTree<H, D>>(
    before: T,
    after: T,
    leaf: T::Node,
    written: MerkleProof<H, D>,
    node: T::Node,
    read: MerkleProof<H, D>,
)
    requires
        D <= MAX_DEPTH,
        spec_is_leaf(leaf.spec_index() as nat, D as nat),
        spec_written::<H, D, T>(before, after, leaf.spec_index(), leaf.spec_hash(), written),
        node.spec_index() == leaf.spec_index(),
        node.spec_hash() == after.spec_node_hash(leaf.spec_index()),
        spec_proves::<H, D, T>(after, leaf.spec_index(), read),
    ensures
        node.spec_hash() == leaf.spec_hash(),
        read.source == written.source,
        read.root == written.root,
        read.assist@ == written.assist@,
        read.index == written.index,
{
    lemma_written_path::<H, D, T>(before, after, leaf.spec_index(), leaf.spec_hash(), written);
}

/// Soundness of the climb: the proof that is read right after a write
/// recomputes, from the leaf upwards, exactly the committed root.
pub proof fn law_read_after_write_climbs<H: Debug + Copy + PartialEq, const D: usize, M: MerkleModel<H>>(
    before: M,
    after: M,
    index: u32,
    hash: H,
    written: MerkleProof<H, D>,
    read: MerkleProof<H, D>,
)
    requires
        D <= MAX_DEPTH,
        spec_is_leaf(index as nat, D as nat),
        spec_written::<H, D, M>(before, after, index, hash, written),
        spec_proves::<H, D, M>(after, index, read),
    ensures
        spec_climb::<H, M>(read.source, read.assist@, index as nat, D as nat) == read.root,
        read.root == after.spec_root_hash(),
{
    lemma_written_path::<H, D, M>(before, after, index, hash, written);
}

/// Soundness of verification: the proof that is read right after a write
/// is accepted, wherever taking its sibling hashes root-side first (as
/// verification does) recomputes what taking them leaf-side first (as the
/// write did) recomputes. `H` is compared by value.
pub proof fn law_read_after_write_verifies<H: Debug + Copy + PartialEq, const D: usize, M: MerkleModel<H>>(
    before: M,
    after: M,
    index: u32,
    hash: H,
    written: MerkleProof<H, D>,
    read: MerkleProof<H, D>,
)
    requires
        D <= MAX_DEPTH,
        obeys_concrete_eq::<H>(),
        spec_is_leaf(index as nat, D as nat),
        spec_written::<H, D, M>(before, after, index, hash, written),
        spec_proves::<H, D, M>(after, index, read),
        spec_verify_root::<H, M>(read.source, read.assist@, index as nat) == spec_climb::<H, M>(
            read.source,
            read.assist@,
            index as nat,
            D as nat,
        ),
    ensures
        spec_verifies::<H, D, M>(read),
{
    reveal(obeys_concrete_eq);
    lemma_written_path::<H, D, M>(before, after, index, hash, written);
}

/// In a consistent tree, a parent stores the pairing of what a child of it
/// and that child's sibling store.
proof fn lemma_pair_children<H: Debug + Copy + PartialEq, M: MerkleModel<H>>(
    tree: M,
    depth: nat,
    child: nat,
)
    requires
        depth <= MAX_DEPTH,
        spec_consistent::<H, M>(tree, depth),
        child > 0,
        spec_in_tree(child, depth),
    ensures
        spec_pair::<H, M>(
            tree.spec_node_hash(child as u32),
            tree.spec_node_hash(spec_sibling(child) as u32),
            spec_offset(child),
        ) == tree.spec_node_hash(spec_parent(child) as u32),
{
    let parent = spec_parent(child);
    lemma_offset_parity(child);
    lemma_depth_of_child(child);
    lemma_depth_in_tree(child, depth);
    lemma_sibling_in_tree(child, depth);
    lemma_pow2_monotone(depth + 1, 32);
    lemma2_to64();
    let node = parent as u32;
    assert(spec_is_parent(node as nat, depth));
}

/// In a consistent tree, the climb from a leaf along its stored sibling
/// hashes reaches, level by level, what the ancestors of the leaf store.
proof fn lemma_climb_reaches<H: Debug + Copy + PartialEq, M: MerkleModel<H>>(
    tree: M,
    depth: nat,
    index: u32,
    levels: nat,
)
    requires
        depth <= MAX_DEPTH,
        spec_consistent::<H, M>(tree, depth),
        spec_is_leaf(index as nat, depth),
        levels <= depth,
    ensures
        spec_climb::<H, M>(
            tree.spec_node_hash(index),
            spec_assist::<H, M>(tree, index as nat),
            index as nat,
            levels,
        ) == tree.spec_node_hash(spec_ancestor(index as nat, levels) as u32),
    decreases levels,
{
    let source = tree.spec_node_hash(index);
    let assist = spec_assist::<H, M>(tree, index as nat);
    lemma_depth_in_tree(index as nat, depth);
    if levels == 0 {
        lemma_climb_zero::<H, M>(source, assist, index as nat);
    } else {
        let below = spec_ancestor(index as nat, (levels - 1) as nat);
        lemma_climb_reaches::<H, M>(tree, depth, index, (levels - 1) as nat);
        lemma_climb_step::<H, M>(source, assist, index as nat, (levels - 1) as nat);
        lemma_path_entry(index as nat, depth - levels);
        lemma_depth_in_tree(below, depth);
        lemma_pair_children::<H, M>(tree, depth, below);
    }
}

/// Soundness of stored proofs: in a consistent tree, the proof that the
/// backend stores for a leaf recomputes, from the leaf upwards, exactly the
/// committed root.
pub proof fn law_stored_proof_climbs<H: Debug + Copy + PartialEq, const D: usize, M: MerkleModel<H>>(
    tree: M,
    index: u32,
    proof: MerkleProof<H, D>,
)
    requires
        D <= MAX_DEPTH,
        spec_consistent::<H, M>(tree, D as nat),
        spec_is_leaf(index as nat, D as nat),
        spec_proves::<H, D, M>(tree, index, proof),
    ensures
        spec_climb::<H, M>(proof.source, proof.assist@, index as nat, D as nat) == proof.root,
{
    lemma_depth_in_tree(index as nat, D as nat);
    lemma_ancestor_depth(index as nat, D as nat);
    lemma_climb_reaches::<H, M>(tree, D as nat, index, D as nat);
}

/// The two children of a parent: where they sit, and that a child on the
/// path of a leaf has its parent on that path.
proof fn lemma_children(node: u32, depth: nat, leaf: nat)
    requires
        depth <= MAX_DEPTH,
        spec_is_parent(node as nat, depth),
        spec_depth(leaf) == depth,
    ensures
        2 * node + 2 < u32::MAX,
        spec_depth((2 * node + 1) as nat) == spec_depth(node as nat) + 1,
        spec_depth((2 * node + 2) as nat) == spec_depth(node as nat) + 1,
        1 <= depth - spec_depth(node as nat) <= depth,
        spec_ancestor(leaf, (depth - spec_depth(node as nat)) as nat) == spec_parent(
            spec_ancestor(leaf, (depth - spec_depth(node as nat) - 1) as nat),
        ),
        spec_ancestor(leaf, (depth - spec_depth(node as nat) - 1) as nat) == 2 * node + 1
            || spec_ancestor(leaf, (depth - spec_depth(node as nat) - 1) as nat) == 2 * node + 2
            <==> spec_ancestor(leaf, (depth - spec_depth(node as nat)) as nat) == node,
        spec_depth(spec_ancestor(leaf, (depth - spec_depth(node as nat) - 1) as nat))
            == spec_depth(node as nat) + 1,
        spec_ancestor(leaf, (depth - spec_depth(node as nat) - 1) as nat) > 0,
{
    let above = (depth - spec_depth(node as nat)) as nat;
    let child = spec_ancestor(leaf, (above - 1) as nat);
    lemma_depth_bounds(node as nat);
    lemma_pow2_monotone(spec_depth(node as nat) + 1, 31);
    lemma2_to64();
    lemma_depth_of_child((2 * node + 1) as nat);
    lemma_depth_of_child((2 * node + 2) as nat);
    lemma_ancestor_depth(leaf, above);
    lemma_ancestor_depth(leaf, (above - 1) as nat);
    lemma_offset_parity(child);
}

/// After a write, a parent on the path of the leaf stores the compression
/// of what its children store.
proof fn lemma_write_keeps_path<H: Debug + Copy + PartialEq, const D: usize, M: MerkleModel<H>>(
    before: M,
    after: M,
    index: u32,
    hash: H,
    written: MerkleProof<H, D>,
    node: u32,
)
    requires
        D <= MAX_DEPTH,
        spec_is_leaf(index as nat, D as nat),
        spec_written::<H, D, M>(before, after, index, hash, written),
        spec_is_parent(node as nat, D as nat),
        spec_ancestor(index as nat, (D - spec_depth(node as nat)) as nat) == node,
    ensures
        after.spec_node_hash(node) == M::spec_compress(
            after.spec_node_hash((2 * node + 1) as u32),
            after.spec_node_hash((2 * node + 2) as u32),
        ),
{
    let depth = D as nat;
    let leaf = index as nat;
    let assist = spec_assist::<H, M>(before, leaf);
    let above = (depth - spec_depth(node as nat)) as nat;
    let child = spec_ancestor(leaf, (above - 1) as nat);
    let sibling = spec_sibling(child);
    lemma_depth_in_tree(leaf, depth);
    lemma_path_len(leaf);
    lemma_children(node, depth, leaf);
    lemma_offset_parity(child);
    lemma_sibling(child);
    lemma_path_entry(leaf, depth - above);
    lemma_climb_step::<H, M>(hash, assist, leaf, (above - 1) as nat);
    assert(after.spec_node_hash(node) == spec_climb::<H, M>(hash, assist, leaf, above)) by {
        assert(after.spec_node_hash(node) == spec_written_hash::<H, M>(
            before,
            depth,
            leaf,
            hash,
            depth + 1,
            node,
        ));
    }
    assert(after.spec_node_hash(child as u32) == spec_climb::<H, M>(
        hash,
        assist,
        leaf,
        (above - 1) as nat,
    )) by {
        assert(after.spec_node_hash(child as u32) == spec_written_hash::<H, M>(
            before,
            depth,
            leaf,
            hash,
            depth + 1,
            child as u32,
        ));
    }
    assert(after.spec_node_hash(sibling as u32) == assist[depth - above]) by {
        assert(after.spec_node_hash(sibling as u32) == spec_written_hash::<H, M>(
            before,
            depth,
            leaf,
            hash,
            depth + 1,
            sibling as u32,
        ));
    }
}

/// After a write, a parent off the path of the leaf stores the compression
/// of what its children store, as it did before.
proof fn lemma_write_keeps_rest<H: Debug + Copy + PartialEq, const D: usize, M: MerkleModel<H>>(
    before: M,
    after: M,
    index: u32,
    hash: H,
    written: MerkleProof<H, D>,
    node: u32,
)
    requires
        D <= MAX_DEPTH,
        spec_consistent::<H, M>(before, D as nat),
        spec_is_leaf(index as nat, D as nat),
        spec_written::<H, D, M>(before, after, index, hash, written),
        spec_is_parent(node as nat, D as nat),
        spec_ancestor(index as nat, (D - spec_depth(node as nat)) as nat) != node,
    ensures
        after.spec_node_hash(node) == M::spec_compress(
            after.spec_node_hash((2 * node + 1) as u32),
            after.spec_node_hash((2 * node + 2) as u32),
        ),
{
    let depth = D as nat;
    let leaf = index as nat;
    let left = (2 * node + 1) as u32;
    let right = (2 * node + 2) as u32;
    lemma_depth_in_tree(leaf, depth);
    lemma_children(node, depth, leaf);
    assert(after.spec_node_hash(node) == spec_written_hash::<H, M>(
        before,
        depth,
        leaf,
        hash,
        depth + 1,
        node,
    ));
    assert(after.spec_node_hash(left) == spec_written_hash::<H, M>(
        before,
        depth,
        leaf,
        hash,
        depth + 1,
        left,
    ));
    assert(after.spec_node_hash(right) == spec_written_hash::<H, M>(
        before,
        depth,
        leaf,
        hash,
        depth + 1,
        right,
    ));
}

/// After a write, every parent stores the compression of what its children
/// store.
proof fn lemma_write_keeps_parent<H: Debug + Copy + PartialEq, const D: usize, M: MerkleModel<H>>(
    before: M,
    after: M,
    index: u32,
    hash: H,
    written: MerkleProof<H, D>,
    node: u32,
)
    requires
        D <= MAX_DEPTH,
        spec_consistent::<H, M>(before, D as nat),
        spec_is_leaf(index as nat, D as nat),
        spec_written::<H, D, M>(before, after, index, hash, written),
        spec_is_parent(node as nat, D as nat),
    ensures
        after.spec_node_hash(node) == M::spec_compress(
            after.spec_node_hash((2 * node + 1) as u32),
            after.spec_node_hash((2 * node + 2) as u32),
        ),
{
    if spec_ancestor(index as nat, (D - spec_depth(node as nat)) as nat) == node {
        lemma_write_keeps_path::<H, D, M>(before, after, index, hash, written, node);
    } else {
        lemma_write_keeps_rest::<H, D, M>(before, after, index, hash, written, node);
    }
}

/// A write keeps a consistent tree consistent: afterwards, too, every
/// parent stores the compression of what its children store, and the
/// committed root is what node 0 stores.
pub proof fn law_write_keeps_consistent<H: Debug + Copy + PartialEq, const D: usize, M: MerkleModel<H>>(
    before: M,
    after: M,
    index: u32,
    hash: H,
    written: MerkleProof<H, D>,
)
    requires
        D <= MAX_DEPTH,
        spec_consistent::<H, M>(before, D as nat),
        spec_is_leaf(index as nat, D as nat),
        spec_written::<H, D, M>(before, after, index, hash, written),
    ensures
        spec_consistent::<H, M>(after, D as nat),
{
    let depth = D as nat;
    let leaf = index as nat;
    let assist = spec_assist::<H, M>(before, leaf);
    lemma_depth_in_tree(leaf, depth);
    lemma_path_len(leaf);
    lemma_pow2_monotone(depth + 1, 32);
    lemma2_to64();
    assert(after.spec_root_hash() == after.spec_node_hash(0)) by {
        lemma_ancestor_depth(leaf, depth);
        lemma_log0(2, 1);
        assert(after.spec_node_hash(0) == spec_written_hash::<H, M>(
            before,
            depth,
            leaf,
            hash,
            depth + 1,
            0,
        ));
    }
    assert forall|node: u32| #[trigger] spec_is_parent(node as nat, depth) implies
        after.spec_node_hash(node) == M::spec_compress(
        after.spec_node_hash((2 * node + 1) as u32),
        after.spec_node_hash((2 * node + 2) as u32),
    ) by {
        lemma_write_keeps_parent::<H, D, M>(before, after, index, hash, written, node);
    }
}

/// The compression does not mind the order of its operands.
pub open spec fn spec_commutative<H: Debug + Copy + PartialEq, M: MerkleModel<H>>() -> bool {
    forall|a: H, b: H| #[trigger] M::spec_compress(a, b) == M::spec_compress(b, a)
}

/// The compression does not mind how a chain of operands is bracketed.
pub open spec fn spec_associative<H: Debug + Copy + PartialEq, M: MerkleModel<H>>() -> bool {
    forall|a: H, b: H, c: H| #[trigger]
        M::spec_compress(M::spec_compress(a, b), c) == M::spec_compress(
            a,
            M::spec_compress(b, c),
        )
}

/// Under a commutative compression, an operand that was folded in first can
/// as well be folded in last.
proof fn lemma_fold_absorbs<H: Debug + Copy + PartialEq, M: MerkleModel<H>>(
    hash: H,
    first: H,
    siblings: Seq<H>,
    offset: nat,
    other: nat,
)
    requires
        spec_commutative::<H, M>(),
        spec_associative::<H, M>(),
    ensures
        spec_fold::<H, M>(M::spec_compress(hash, first), siblings, offset) == M::spec_compress(
            spec_fold::<H, M>(hash, siblings, other),
            first,
        ),
    decreases siblings.len(),
{
    if siblings.len() > 0 {
        let next = siblings.first();
        let rest = siblings.drop_first();
        assert(M::spec_compress(M::spec_compress(hash, first), next) == M::spec_compress(
            M::spec_compress(hash, next),
            first,
        )) by {
            assert(M::spec_compress(M::spec_compress(hash, first), next) == M::spec_compress(
                hash,
                M::spec_compress(first, next),
            ));
            assert(M::spec_compress(first, next) == M::spec_compress(next, first));
            assert(M::spec_compress(M::spec_compress(hash, next), first) == M::spec_compress(
                hash,
                M::spec_compress(next, first),
            ));
        }
        assert(M::spec_compress(next, M::spec_compress(hash, first)) == M::spec_compress(
            M::spec_compress(hash, first),
            next,
        ));
        assert(M::spec_compress(next, hash) == M::spec_compress(hash, next));
        lemma_fold_absorbs::<H, M>(M::spec_compress(hash, next), first, rest, offset / 2, other / 2);
    }
}

/// Under a commutative and associative compression, a fold does not mind
/// the order of the sibling hashes, nor the offset.
proof fn lemma_fold_turned<H: Debug + Copy + PartialEq, M: MerkleModel<H>>(
    hash: H,
    siblings: Seq<H>,
    offset: nat,
)
    requires
        spec_commutative::<H, M>(),
        spec_associative::<H, M>(),
    ensures
        spec_fold::<H, M>(hash, siblings.reverse(), offset) == spec_fold::<H, M>(
            hash,
            siblings,
            offset,
        ),
    decreases siblings.len(),
{
    if siblings.len() == 0 {
        assert(siblings.reverse() =~= siblings);
    } else {
        let first = siblings.first();
        let rest = siblings.drop_first();
        assert(siblings.reverse() =~= rest.reverse().push(first));
        lemma_fold_push::<H, M>(hash, rest.reverse(), first, offset);
        lemma_fold_turned::<H, M>(hash, rest, offset);
        lemma_fold_absorbs::<H, M>(hash, first, rest, offset / 2, offset);
        assert(M::spec_compress(first, hash) == M::spec_compress(hash, first));
        assert(M::spec_compress(first, spec_fold::<H, M>(hash, rest, offset)) == M::spec_compress(
            spec_fold::<H, M>(hash, rest, offset),
            first,
        ));
    }
}

/// Under a commutative and associative compression (such as addition),
/// verification recomputes what the climb of a write computes, whatever
/// the proof.
pub proof fn law_orders_agree<H: Debug + Copy + PartialEq, M: MerkleModel<H>>(
    source: H,
    assist: Seq<H>,
    index: nat,
)
    requires
        spec_commutative::<H, M>(),
        spec_associative::<H, M>(),
    ensures
        spec_verify_root::<H, M>(source, assist, index) == spec_climb::<H, M>(
            source,
            assist,
            index,
            assist.len(),
        ),
{
    assert(assist.reverse().take(assist.len() as int) =~= assist.reverse());
    lemma_fold_turned::<H, M>(source, assist, spec_offset(index));
}

/// Soundness of verification under a commutative and associative
/// compression (such as addition): the proof that is read right after a
/// write is accepted. `H` is compared by value.
pub proof fn law_read_after_write_verifies_in_any_order<H: Debug + Copy + PartialEq, const D: usize, M: MerkleModel<H>>(
    before: M,
    after: M,
    index: u32,
    hash: H,
    written: MerkleProof<H, D>,
    read: MerkleProof<H, D>,
)
    requires
        D <= MAX_DEPTH,
        obeys_concrete_eq::<H>(),
        spec_commutative::<H, M>(),
        spec_associative::<H, M>(),
        spec_is_leaf(index as nat, D as nat),
        spec_written::<H, D, M>(before, after, index, hash, written),
        spec_proves::<H, D, M>(after, index, read),
    ensures
        spec_verifies::<H, D, M>(read),
        spec_verifies::<H, D, M>(written),
{
    lemma_written_path::<H, D, M>(before, after, index, hash, written);
    lemma_depth_in_tree(index as nat, D as nat);
    lemma_path_len(index as nat);
    law_orders_agree::<H, M>(read.source, read.assist@, index as nat);
    law_read_after_write_verifies::<H, D, M>(before, after, index, hash, written, read);
    reveal(obeys_concrete_eq);
}

/// Soundness of verification for stored proofs: in a consistent tree, the
/// proof that the backend stores for a leaf is accepted, wherever taking its
/// sibling hashes root-side first recomputes what taking them leaf-side
/// first recomputes. `H` is compared by value.
pub proof fn law_stored_proof_verifies<H: Debug + Copy + PartialEq, const D: usize, M: MerkleModel<H>>(
    tree: M,
    index: u32,
    proof: MerkleProof<H, D>,
)
    requires
        D <= MAX_DEPTH,
        obeys_concrete_eq::<H>(),
        spec_consistent::<H, M>(tree, D as nat),
        spec_is_leaf(index as nat, D as nat),
        spec_proves::<H, D, M>(tree, index, proof),
        spec_verify_root::<H, M>(proof.source, proof.assist@, index as nat) == spec_climb::<H, M>(
            proof.source,
            proof.assist@,
            index as nat,
            D as nat,
        ),
    ensures
        spec_verifies::<H, D, M>(proof),
{
    reveal(obeys_concrete_eq);
    law_stored_proof_climbs::<H, D, M>(tree, index, proof);
}

/// Two different hashes never compress, with one and the same hash on the
/// other side, to one and the same hash.
pub open spec fn spec_injective<H: Debug + Copy + PartialEq, M: MerkleModel<H>>() -> bool {
    &&& forall|a: H, b: H, c: H|
        #![trigger M::spec_compress(a, c), M::spec_compress(b, c)]
        M::spec_compress(a, c) == M::spec_compress(b, c) ==> a == b
    &&& forall|a: H, b: H, c: H|
        #![trigger M::spec_compress(c, a), M::spec_compress(c, b)]
        M::spec_compress(c, a) == M::spec_compress(c, b) ==> a == b
}

/// Under an injective compression, a fold tells two starting hashes apart.
proof fn lemma_fold_tells_source<H: Debug + Copy + PartialEq, M: MerkleModel<H>>(
    one: H,
    other: H,
    siblings: Seq<H>,
    offset: nat,
)
    requires
        spec_injective::<H, M>(),
        one != other,
    ensures
        spec_fold::<H, M>(one, siblings, offset) != spec_fold::<H, M>(other, siblings, offset),
    decreases siblings.len(),
{
    if siblings.len() > 0 {
        let next = siblings.first();
        assert(spec_pair::<H, M>(one, next, offset) != spec_pair::<H, M>(other, next, offset));
        lemma_fold_tells_source::<H, M>(
            spec_pair::<H, M>(one, next, offset),
            spec_pair::<H, M>(other, next, offset),
            siblings.drop_first(),
            offset / 2,
        );
    }
}

/// Under an injective compression, a fold tells apart two sibling lists
/// that differ in one place.
proof fn lemma_fold_tells_sibling<H: Debug + Copy + PartialEq, M: MerkleModel<H>>(
    hash: H,
    siblings: Seq<H>,
    place: int,
    other: H,
    offset: nat,
)
    requires
        spec_injective::<H, M>(),
        0 <= place < siblings.len(),
        other != siblings[place],
    ensures
        spec_fold::<H, M>(hash, siblings.update(place, other), offset) != spec_fold::<H, M>(
            hash,
            siblings,
            offset,
        ),
    decreases place,
{
    let changed = siblings.update(place, other);
    if place == 0 {
        assert(changed.drop_first() =~= siblings.drop_first());
        assert(spec_pair::<H, M>(hash, other, offset) != spec_pair::<H, M>(
            hash,
            siblings.first(),
            offset,
        ));
        lemma_fold_tells_source::<H, M>(
            spec_pair::<H, M>(hash, other, offset),
            spec_pair::<H, M>(hash, siblings.first(), offset),
            siblings.drop_first(),
            offset / 2,
        );
    } else {
        assert(changed.drop_first() =~= siblings.drop_first().update(place - 1, other));
        lemma_fold_tells_sibling::<H, M>(
            spec_pair::<H, M>(hash, siblings.first(), offset),
            siblings.drop_first(),
            place - 1,
            other,
            offset / 2,
        );
    }
}

/// Tamper detection, leaf hash: under an injective compression, a proof
/// that is accepted is no longer accepted once its leaf hash is replaced by
/// another. `H` is compared by value.
pub proof fn law_tampered_source_fails<H: Debug + Copy + PartialEq, const D: usize, M: MerkleModel<H>>(
    proof: MerkleProof<H, D>,
    tampered: MerkleProof<H, D>,
)
    requires
        obeys_concrete_eq::<H>(),
        spec_injective::<H, M>(),
        spec_verifies::<H, D, M>(proof),
        tampered.source != proof.source,
        tampered.assist@ == proof.assist@,
        tampered.index == proof.index,
        tampered.root == proof.root,
    ensures
        !spec_verifies::<H, D, M>(tampered),
{
    reveal(obeys_concrete_eq);
    lemma_fold_tells_source::<H, M>(
        tampered.source,
        proof.source,
        proof.assist@,
        spec_offset(proof.index as nat),
    );
}

/// Tamper detection, sibling hash: under an injective compression, a proof
/// that is accepted is no longer accepted once one of its sibling hashes is
/// replaced by another. `H` is compared by value.
pub proof fn law_tampered_assist_fails<H: Debug + Copy + PartialEq, const D: usize, M: MerkleModel<H>>(
    proof: MerkleProof<H, D>,
    tampered: MerkleProof<H, D>,
    place: int,
)
    requires
        obeys_concrete_eq::<H>(),
        spec_injective::<H, M>(),
        spec_verifies::<H, D, M>(proof),
        0 <= place < proof.assist@.len(),
        tampered.assist@ == proof.assist@.update(place, tampered.assist@[place]),
        tampered.assist@[place] != proof.assist@[place],
        tampered.source == proof.source,
        tampered.index == proof.index,
        tampered.root == proof.root,
    ensures
        !spec_verifies::<H, D, M>(tampered),
{
    reveal(obeys_concrete_eq);
    lemma_fold_tells_sibling::<H, M>(
        proof.source,
        proof.assist@,
        place,
        tampered.assist@[place],
        spec_offset(proof.index as nat),
    );
}

} // verus!
