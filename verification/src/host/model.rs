//! The mathematics of the tree: what a backend holds, what a proof holds,
//! which root a proof recomputes, and what a leaf write leaves behind.

use crate::host::index::{
    lemma_ancestor_depth, lemma_ancestor_offset, lemma_pow2_step, spec_ancestor, spec_depth,
    spec_is_parent, spec_offset, spec_path, spec_sibling,
};
use crate::host::merkle::MerkleProof;
use core::fmt::Debug;
use vstd::arithmetic::div_mod::lemma_div_denominator;
use vstd::arithmetic::power2::{lemma2_to64, pow2};
use vstd::prelude::*;
use vstd::std_specs::cmp::PartialEqSpec;

verus! {

/// What a storage backend holds, as seen by the contracts of the tree
/// protocol: a compression function, a committed root hash, and one stored
/// hash for each node index.
pub trait MerkleModel<H: Debug + Copy + PartialEq> {
    /// The compression of a left and a right child hash into the hash of
    /// their parent.
    spec fn spec_compress(a: H, b: H) -> H;

    /// The committed root hash.
    spec fn spec_root_hash(&self) -> H;

    /// The hash stored for node `index`.
    spec fn spec_node_hash(&self, index: u32) -> H;
}

/// The hash of a parent, from the hash of one child, the hash of that
/// child's sibling, and the child's offset: a child at an odd offset is the
/// right operand, one at an even offset the left.
pub open spec fn spec_pair<H: Debug + Copy + PartialEq, M: MerkleModel<H>>(
    hash: H,
    sibling: H,
    offset: nat,
) -> H {
    if offset % 2 == 1 {
        M::spec_compress(sibling, hash)
    } else {
        M::spec_compress(hash, sibling)
    }
}

/// Combines `hash` with each of `siblings` in turn, first to last, halving
/// `offset` after each.
pub open spec fn spec_fold<H: Debug + Copy + PartialEq, M: MerkleModel<H>>(
    hash: H,
    siblings: Seq<H>,
    offset: nat,
) -> H
    decreases siblings.len(),
{
    if siblings.len() == 0 {
        hash
    } else {
        spec_fold::<H, M>(
            spec_pair::<H, M>(hash, siblings.first(), offset),
            siblings.drop_first(),
            offset / 2,
        )
    }
}

/// The root that verification recomputes from a proof: the sibling hashes
/// are taken in the order in which the proof lists them, the one next to
/// the root first.
pub open spec fn spec_verify_root<H: Debug + Copy + PartialEq, M: MerkleModel<H>>(
    source: H,
    assist: Seq<H>,
    index: nat,
) -> H {
    spec_fold::<H, M>(source, assist, spec_offset(index))
}

/// What verification answers for a proof of the right shape: whether the
/// root of the proof is equal, by the equality of `H`, to the root that
/// verification recomputes.
pub open spec fn spec_verifies<H: Debug + Copy + PartialEq, const D: usize, M: MerkleModel<H>>(
    proof: MerkleProof<H, D>,
) -> bool {
    proof.root.eq_spec(
        &spec_verify_root::<H, M>(proof.source, proof.assist@, proof.index as nat),
    )
}

/// The hash that a leaf write computes for the ancestor `levels` levels
/// above the leaf: the sibling hashes are taken from the leaf upwards, the
/// last of the proof first.
pub open spec fn spec_climb<H: Debug + Copy + PartialEq, M: MerkleModel<H>>(
    source: H,
    assist: Seq<H>,
    index: nat,
    levels: nat,
) -> H {
    spec_fold::<H, M>(source, assist.reverse().take(levels as int), spec_offset(index))
}

/// The sibling hashes that a backend stores along the path of `index`, the
/// one next to the root first.
pub open spec fn spec_assist<H: Debug + Copy + PartialEq, M: MerkleModel<H>>(
    tree: M,
    index: nat,
) -> Seq<H> {
    Seq::new(
        spec_depth(index),
        |j: int| tree.spec_node_hash(spec_sibling(spec_path(index)[j]) as u32),
    )
}

/// The hash stored for node `node` once `hash` has been written to the leaf
/// `index` of a tree of depth `depth` and the `levels - 1` nearest ancestors
/// of that leaf have been recomputed (`levels == 0`: nothing written yet).
pub open spec fn spec_written_hash<H: Debug + Copy + PartialEq, M: MerkleModel<H>>(
    tree: M,
    depth: nat,
    index: nat,
    hash: H,
    levels: nat,
    node: u32,
) -> H {
    let above = (depth - spec_depth(node as nat)) as nat;
    if spec_depth(node as nat) <= depth && above < levels && spec_ancestor(index, above) == node {
        spec_climb::<H, M>(hash, spec_assist::<H, M>(tree, index), index, above)
    } else {
        tree.spec_node_hash(node)
    }
}

/// What a successful write of `hash` to node `index` does to a backend:
/// that node stores `hash`, every other node stores what it did, and the
/// committed root stays unless node 0 itself was written.
pub open spec fn spec_stored<H: Debug + Copy + PartialEq, M: MerkleModel<H>>(
    before: M,
    after: M,
    index: u32,
    hash: H,
) -> bool {
    &&& after.spec_node_hash(index) == hash
    &&& forall|node: u32|
        node != index ==> #[trigger] after.spec_node_hash(node) == before.spec_node_hash(node)
    &&& index != 0 ==> after.spec_root_hash() == before.spec_root_hash()
}

/// `proof` is the proof that `tree` holds for the leaf `index`: the hash
/// stored for the leaf, the committed root, and the hashes stored for the
/// siblings along the path.
pub open spec fn spec_proves<H: Debug + Copy + PartialEq, const D: usize, M: MerkleModel<H>>(
    tree: M,
    index: u32,
    proof: MerkleProof<H, D>,
) -> bool {
    &&& proof.index == index
    &&& proof.source == tree.spec_node_hash(index)
    &&& proof.root == tree.spec_root_hash()
    &&& proof.assist@ == spec_assist::<H, M>(tree, index as nat)
}

/// What a successful write of `hash` to the leaf `index` of a tree of depth
/// `D` leaves behind. The leaf stores `hash`; each ancestor stores what the
/// climb from the leaf computes for it, with the sibling hashes that
/// `before` stored; every other node stores what it did; the committed root
/// is the hash computed for node 0; and `proof` holds these sibling hashes,
/// the new leaf hash and the new root.
pub open spec fn spec_written<H: Debug + Copy + PartialEq, const D: usize, M: MerkleModel<H>>(
    before: M,
    after: M,
    index: u32,
    hash: H,
    proof: MerkleProof<H, D>,
) -> bool {
    &&& proof.index == index
    &&& proof.source == hash
    &&& proof.assist@ == spec_assist::<H, M>(before, index as nat)
    &&& proof.root == spec_climb::<H, M>(hash, proof.assist@, index as nat, D as nat)
    &&& after.spec_root_hash() == proof.root
    &&& forall|node: u32| #[trigger]
        after.spec_node_hash(node) == spec_written_hash::<H, M>(
            before,
            D as nat,
            index as nat,
            hash,
            (D + 1) as nat,
            node,
        )
}

/// The tree is consistent: every parent of a tree of depth `depth` stores
/// the compression of what its two children store, and the committed root
/// is what node 0 stores.
pub open spec fn spec_consistent<H: Debug + Copy + PartialEq, M: MerkleModel<H>>(
    tree: M,
    depth: nat,
) -> bool {
    &&& tree.spec_root_hash() == tree.spec_node_hash(0)
    &&& forall|node: u32| #[trigger]
        spec_is_parent(node as nat, depth) ==> tree.spec_node_hash(node) == M::spec_compress(
            tree.spec_node_hash((2 * node + 1) as u32),
            tree.spec_node_hash((2 * node + 2) as u32),
        )
}

/// Folding one sibling more is pairing the fold so far with that sibling,
/// at the offset halved once for each sibling before it.
pub proof fn lemma_fold_push<H: Debug + Copy + PartialEq, M: MerkleModel<H>>(
    hash: H,
    siblings: Seq<H>,
    last: H,
    offset: nat,
)
    ensures
        spec_fold::<H, M>(hash, siblings.push(last), offset) == spec_pair::<H, M>(
            spec_fold::<H, M>(hash, siblings, offset),
            last,
            offset / pow2(siblings.len()),
        ),
    decreases siblings.len(),
{
    lemma2_to64();
    if siblings.len() == 0 {
        assert(siblings.push(last).drop_first() =~= Seq::<H>::empty());
        assert(offset / 1 == offset);
        assert(spec_fold::<H, M>(spec_pair::<H, M>(hash, last, offset), Seq::<H>::empty(), offset / 2)
            == spec_pair::<H, M>(hash, last, offset));
    } else {
        let next = spec_pair::<H, M>(hash, siblings.first(), offset);
        assert(siblings.push(last).drop_first() =~= siblings.drop_first().push(last));
        lemma_fold_push::<H, M>(next, siblings.drop_first(), last, offset / 2);
        lemma_pow2_step((siblings.len() - 1) as nat);
        lemma_div_denominator(offset as int, 2, pow2((siblings.len() - 1) as nat) as int);
        assert((siblings.len() - 1) as nat + 1 == siblings.len());
    }
}

/// A climb of no level stays at the hash of the leaf.
pub proof fn lemma_climb_zero<H: Debug + Copy + PartialEq, M: MerkleModel<H>>(
    source: H,
    assist: Seq<H>,
    index: nat,
)
    ensures
        spec_climb::<H, M>(source, assist, index, 0) == source,
{
    assert(assist.reverse().take(0) =~= Seq::<H>::empty());
}

/// Climbing one level more pairs the hash reached so far with the sibling
/// hash of that level, at the offset of the ancestor reached so far.
pub proof fn lemma_climb_step<H: Debug + Copy + PartialEq, M: MerkleModel<H>>(
    source: H,
    assist: Seq<H>,
    index: nat,
    levels: nat,
)
    requires
        assist.len() == spec_depth(index),
        levels < assist.len(),
    ensures
        spec_climb::<H, M>(source, assist, index, levels + 1) == spec_pair::<H, M>(
            spec_climb::<H, M>(source, assist, index, levels),
            assist[assist.len() - 1 - levels],
            spec_offset(spec_ancestor(index, levels)),
        ),
{
    let turned = assist.reverse();
    assert(turned.take((levels + 1) as int) =~= turned.take(levels as int).push(
        turned[levels as int],
    ));
    lemma_fold_push::<H, M>(
        source,
        turned.take(levels as int),
        turned[levels as int],
        spec_offset(index),
    );
    lemma_ancestor_offset(index, levels);
}

/// Storing the new leaf is the first step of a write.
pub proof fn lemma_written_leaf<H: Debug + Copy + PartialEq, M: MerkleModel<H>>(
    before: M,
    after: M,
    depth: nat,
    index: u32,
    hash: H,
)
    requires
        spec_depth(index as nat) == depth,
        spec_stored::<H, M>(before, after, index, hash),
    ensures
        forall|node: u32| #[trigger]
            after.spec_node_hash(node) == spec_written_hash::<H, M>(
                before,
                depth,
                index as nat,
                hash,
                1,
                node,
            ),
{
    let assist = spec_assist::<H, M>(before, index as nat);
    assert(assist.reverse().take(0) =~= Seq::<H>::empty());
}

/// Storing the hash computed for the next ancestor is the next step of a
/// write.
pub proof fn lemma_written_parent<H: Debug + Copy + PartialEq, M: MerkleModel<H>>(
    before: M,
    middle: M,
    after: M,
    depth: nat,
    index: u32,
    hash: H,
    levels: nat,
)
    requires
        spec_depth(index as nat) == depth,
        1 <= levels <= depth,
        forall|node: u32| #[trigger]
            middle.spec_node_hash(node) == spec_written_hash::<H, M>(
                before,
                depth,
                index as nat,
                hash,
                levels,
                node,
            ),
        spec_stored::<H, M>(
            middle,
            after,
            spec_ancestor(index as nat, levels) as u32,
            spec_climb::<H, M>(
                hash,
                spec_assist::<H, M>(before, index as nat),
                index as nat,
                levels,
            ),
        ),
    ensures
        forall|node: u32| #[trigger]
            after.spec_node_hash(node) == spec_written_hash::<H, M>(
                before,
                depth,
                index as nat,
                hash,
                levels + 1,
                node,
            ),
{
    lemma_ancestor_depth(index as nat, levels);
}

} // verus!
