//! The tree protocol over a storage backend: reading a leaf with its proof,
//! writing a leaf and recomputing its ancestors, and verifying a proof.

pub use crate::host::error::{MerkleError, MerkleErrorCode};
use crate::host::index::{
    get_depth, lemma_ancestor_depth, lemma_depth_bounds, lemma_depth_in_tree,
    lemma_depth_of_child, lemma_node_at_own, lemma_offset_of_parent, lemma_offset_parity,
    lemma_path_entry, lemma_path_last, lemma_path_len, lemma_pow2_monotone, lemma_pow2_step,
    lemma_sibling, lemma_sibling_in_tree, pow2_u64, spec_ancestor, spec_depth, spec_in_tree,
    spec_is_leaf, spec_is_parent, spec_is_path, spec_offset, spec_path, spec_sibling,
    MAX_DEPTH,
};
use crate::host::laws::{law_stored_proof_climbs, law_write_keeps_consistent};
use crate::host::model::{
    lemma_climb_step, lemma_climb_zero, lemma_written_leaf, lemma_written_parent, spec_assist,
    spec_climb, spec_consistent, spec_fold, spec_proves, spec_stored, spec_verifies,
    spec_verify_root, spec_written, spec_written_hash, MerkleModel,
};
use core::fmt::Debug;
use vstd::arithmetic::power2::lemma2_to64;
use vstd::prelude::*;
use vstd::std_specs::cmp::PartialEqSpec;

verus! {

/// A node as a backend hands it out.
pub trait MerkleNode<H: Debug + Copy + PartialEq> {
    /// The hash of the node.
    spec fn spec_hash(&self) -> H;

    /// The index of the node.
    spec fn spec_index(&self) -> u32;

    /// The hash that the node records for its left child.
    spec fn spec_left(&self) -> Option<H>;

    /// The hash that the node records for its right child.
    spec fn spec_right(&self) -> Option<H>;

    /// The hash of a leaf whose value was read from `data`.
    spec fn spec_data_hash(data: &Vec<u8>) -> H;

    /// The hash of the node.
    fn hash(&self) -> (hash: H)
        ensures
            hash == self.spec_hash(),
    ;

    /// The index of the node.
    fn index(&self) -> (index: u32)
        ensures
            index == self.spec_index(),
    ;

    /// Overwrites the value of the node with the one read from `data`.
    fn set(&mut self, data: &Vec<u8>)
        ensures
            final(self).spec_index() == old(self).spec_index(),
            final(self).spec_hash() == Self::spec_data_hash(data),
    ;

    /// The hash recorded for the left child; none for a leaf.
    fn left(&self) -> (hash: Option<H>)
        ensures
            hash == self.spec_left(),
    ;

    /// The hash recorded for the right child; none for a leaf.
    fn right(&self) -> (hash: Option<H>)
        ensures
            hash == self.spec_right(),
    ;
}

/// A proof that a leaf belongs to a tree of depth `D`: the hash of the leaf,
/// the root, and the hashes of the siblings along the path, the one next to
/// the root first.
#[derive(Debug)]
pub struct MerkleProof<H: Debug + Copy + PartialEq, const D: usize> {
    pub source: H,
    pub root: H,
    pub assist: Vec<H>,
    pub index: u32,
}

impl<H: Debug + Copy + PartialEq, const D: usize> MerkleProof<H, D> {
    /// The proof has the shape of a proof for a tree of depth `D`: one
    /// sibling hash for each level, and an index inside the tree.
    pub open spec fn spec_well_formed(&self) -> bool {
        &&& self.assist@.len() == D
        &&& spec_in_tree(self.index as nat, D as nat)
    }
}

/// Position of a node among the nodes of its own depth.
pub fn get_offset(index: u32) -> (offset: u32)
    ensures
        offset == spec_offset(index as nat),
{
    let height = get_depth(index);
    let full = pow2_u64(height) - 1;
    proof {
        lemma_depth_bounds(index as nat);
    }
    (index as u64 - full) as u32
}

/// The operands of the compression that gives the hash of a parent, from
/// the hash of one child, the hash of that child's sibling and the child's
/// offset: a child at an odd offset is the right operand.
pub fn pair_operands<H: Copy>(hash: H, sibling: H, offset: u32) -> (operands: (H, H))
    ensures
        operands == (if offset % 2 == 1 {
            (sibling, hash)
        } else {
            (hash, sibling)
        }),
{
    if offset % 2 == 1 {
        (sibling, hash)
    } else {
        (hash, sibling)
    }
}

/// The hashes that `parent`, read as node `index`, records for its child
/// `child` and for the sibling of `child`, in this order.
pub fn child_hashes<H: Debug + Copy + PartialEq, N: MerkleNode<H>>(
    parent: &N,
    index: u32,
    child: u32,
) -> (hashes: (H, H))
    requires
        parent.spec_left() is Some,
        parent.spec_right() is Some,
        child == 2 * index + 1 || child == 2 * index + 2,
    ensures
        child == 2 * index + 1 ==> hashes == (parent.spec_left()->0, parent.spec_right()->0),
        child == 2 * index + 2 ==> hashes == (parent.spec_right()->0, parent.spec_left()->0),
{
    if (index as u64 + 1) * 2 == child as u64 + 1 {
        // left child
        (parent.left().unwrap(), parent.right().unwrap())
    } else {
        (parent.right().unwrap(), parent.left().unwrap())
    }
}

/// A tree of depth `D` over a storage backend. The backend supplies the
/// first seven functions; the others are the protocol, and hold of every
/// backend that keeps to the contracts of those seven.
pub trait MerkleTree<H: Debug + Copy + PartialEq, const D: usize>: MerkleModel<H> + Sized {
    type Node: MerkleNode<H>;

    type Id;

    type Root;

    /// Opens the tree stored under `addr`, at the root `id` or, where `id`
    /// names none, as the tree whose leaves are all empty. A depth whose
    /// node indices do not all fit in a `u32` is refused.
    fn construct(addr: Self::Id, id: Self::Root) -> Self
        requires
            D <= MAX_DEPTH,
    ;

    /// Compresses a left and a right child hash into their parent's hash.
    fn hash(a: &H, b: &H) -> (hash: H)
        ensures
            hash == Self::spec_compress(*a, *b),
    ;

    /// Stores `hash` for the parent `index`, with the hashes of its children,
    /// of which it is the compression. A failure names `index`.
    fn set_parent(&mut self, index: u32, hash: &H, left: &H, right: &H) -> (result: Result<
        (),
        MerkleError,
    >)
        requires
            *hash == Self::spec_compress(*left, *right),
        ensures
            result is Ok ==> spec_stored::<H, Self>(*old(self), *final(self), index, *hash),
            result matches Err(error) ==> error.spec_index() == index,
    ;

    /// Stores a leaf at its index. A failure names that index.
    fn set_leaf(&mut self, leaf: &Self::Node) -> (result: Result<(), MerkleError>)
        ensures
            result is Ok ==> spec_stored::<H, Self>(
                *old(self),
                *final(self),
                leaf.spec_index(),
                leaf.spec_hash(),
            ),
            result matches Err(error) ==> error.spec_index() == leaf.spec_index(),
    ;

    /// Reads node `index`, which the caller expects to have the hash `hash`.
    /// The node that comes back is the one stored, and has that hash; a node
    /// above the leaves comes with the hashes of both children. Where the
    /// read of a node of the tree fails, it is for another hash stored than
    /// the one expected.
    fn get_node_with_hash(&self, index: u32, hash: &H) -> (result: Result<Self::Node, MerkleError>)
        ensures
            result matches Ok(node) ==> {
                &&& node.spec_index() == index
                &&& node.spec_hash() == self.spec_node_hash(index)
                &&& node.spec_hash() == *hash
                &&& spec_is_parent(index as nat, D as nat) ==> node.spec_left() is Some
                    && node.spec_right() is Some
            },
            result matches Err(error) ==> (spec_in_tree(index as nat, D as nat) ==> {
                &&& error.spec_code() == MerkleErrorCode::InvalidHash
                &&& error.spec_index() == index
            }),
    ;

    /// The committed root hash.
    fn get_root_hash(&self) -> (hash: H)
        ensures
            hash == self.spec_root_hash(),
    ;

    /// Commits `hash`, the hash stored for node 0, as the root.
    fn update_root_hash(&mut self, hash: &H)
        requires
            *hash == old(self).spec_node_hash(0),
        ensures
            final(self).spec_root_hash() == *hash,
            forall|node: u32| #[trigger]
                final(self).spec_node_hash(node) == old(self).spec_node_hash(node),
    ;

    /// Accepts the indices of the tree's nodes.
    fn boundary_check(&self, index: u32) -> (result: Result<(), MerkleError>)
        requires
            D <= MAX_DEPTH,
        ensures
            spec_in_tree(index as nat, D as nat) ==> result is Ok,
            !spec_in_tree(index as nat, D as nat) ==> result is Err && result->Err_0.spec_is(
                index,
                MerkleErrorCode::InvalidIndex,
            ),
    {
        let count = pow2_u64(D as u32 + 1) - 1;
        if index as u64 >= count {
            Err(MerkleError::plain(index, MerkleErrorCode::InvalidIndex))
        } else {
            Ok(())
        }
    }

    /// Accepts the indices of the tree's leaves.
    fn leaf_check(&self, index: u32) -> (result: Result<(), MerkleError>)
        requires
            D <= MAX_DEPTH,
        ensures
            spec_is_leaf(index as nat, D as nat) ==> result is Ok,
            !spec_is_leaf(index as nat, D as nat) ==> result is Err && result->Err_0.spec_is(
                index,
                MerkleErrorCode::InvalidLeafIndex,
            ),
    {
        proof {
            lemma_pow2_step(D as nat);
        }
        let first = pow2_u64(D as u32) - 1;
        let count = pow2_u64(D as u32 + 1) - 1;
        if index as u64 >= first && (index as u64) < count {
            Ok(())
        } else {
            Err(MerkleError::plain(index, MerkleErrorCode::InvalidLeafIndex))
        }
    }

    /// The other child of the parent of `index`.
    fn get_sibling_index(&self, index: u32) -> (sibling: u32)
        requires
            0 < index < u32::MAX,
        ensures
            sibling == spec_sibling(index as nat),
    {
        if index % 2 == 1 {
            index + 1
        } else {
            index - 1
        }
    }

    /// The path of a leaf: the `D` nodes from just below the root down to
    /// the leaf itself, which is the last entry. The root is left out.
    fn get_path(&self, index: u32) -> (result: Result<[u32; D], MerkleError>)
        requires
            D <= MAX_DEPTH,
        ensures
            spec_is_leaf(index as nat, D as nat) ==> result is Ok && result->Ok_0@.len() == D
                && spec_is_path(result->Ok_0@, index as nat),
            !spec_is_leaf(index as nat, D as nat) ==> result is Err && result->Err_0.spec_is(
                index,
                MerkleErrorCode::InvalidLeafIndex,
            ),
    {
        self.leaf_check(index)?;
        let mut height = get_depth(index);
        let round = height;
        proof {
            lemma_depth_in_tree(index as nat, D as nat);
            lemma_depth_bounds(index as nat);
            lemma_path_len(index as nat);
        }
        let full = pow2_u64(height) - 1;
        let mut p = index as u64 - full;
        let mut path = [0u32; D];
        while height > 0
            invariant
                D <= MAX_DEPTH,
                round == D,
                height <= round,
                spec_depth(index as nat) == D,
                spec_path(index as nat).len() == D,
                spec_depth(spec_ancestor(index as nat, (round - height) as nat)) == height,
                p == spec_offset(spec_ancestor(index as nat, (round - height) as nat)),
                spec_ancestor(index as nat, (round - height) as nat) <= index,
                forall|j: int| height <= j < D ==> path[j] == spec_path(index as nat)[j],
            decreases height,
        {
            let ghost levels = (round - height) as nat;
            let ghost node = spec_ancestor(index as nat, levels);
            proof {
                lemma_node_at_own(node);
                lemma_depth_bounds(node);
                lemma_path_entry(index as nat, height - 1);
                lemma_depth_of_child(node);
                lemma_offset_of_parent(node);
                lemma2_to64();
                lemma_pow2_monotone(height as nat, 32);
            }
            let full = pow2_u64(height) - 1;
            // Calculate the index of current node
            let i = (full + p) as u32;
            path[height as usize - 1] = i;
            height = height - 1;
            // Calculate the offset of parent
            p = p / 2;
        }
        Ok(path)
    }

    /// Reads the leaf `index` and the proof that the backend stores for it,
    /// walking down from the root along the path of the leaf. An index that
    /// is not a leaf is refused before anything is read; any other failure
    /// is the backend's report of a hash that is not the one its parent, or
    /// the committed root, led to expect.
    fn get_leaf_with_proof(&self, index: u32) -> (result: Result<
        (Self::Node, MerkleProof<H, D>),
        MerkleError,
    >)
        requires
            D <= MAX_DEPTH,
        ensures
            !spec_is_leaf(index as nat, D as nat) ==> result is Err && result->Err_0.spec_is(
                index,
                MerkleErrorCode::InvalidLeafIndex,
            ),
            result matches Ok((node, proof)) ==> {
                &&& spec_is_leaf(index as nat, D as nat)
                &&& node.spec_index() == index
                &&& node.spec_hash() == self.spec_node_hash(index)
                &&& spec_proves::<H, D, Self>(*self, index, proof)
                &&& proof.spec_well_formed()
                &&& self.spec_root_hash() == self.spec_node_hash(0)
                &&& spec_consistent::<H, Self>(*self, D as nat) ==> spec_climb::<H, Self>(
                    proof.source,
                    proof.assist@,
                    index as nat,
                    D as nat,
                ) == proof.root
            },
            result matches Err(error) ==> (spec_is_leaf(index as nat, D as nat) ==> {
                &&& error.spec_code() == MerkleErrorCode::InvalidHash
                &&& spec_in_tree(error.spec_index() as nat, D as nat)
            }),
    {
        self.leaf_check(index)?;
        let paths = self.get_path(index)?;
        proof {
            lemma_depth_in_tree(index as nat, D as nat);
            lemma_depth_in_tree(0, D as nat);
            lemma_path_len(0);
        }
        // We push the search from the top
        let hash = self.get_root_hash();
        let mut acc: u32 = 0;
        let mut acc_node = self.get_node_with_hash(acc, &hash)?;
        let mut assist: Vec<H> = Vec::new();
        let mut level: usize = 0;
        while level < D
            invariant
                D <= MAX_DEPTH,
                level <= D,
                spec_is_leaf(index as nat, D as nat),
                spec_depth(index as nat) == D,
                self.spec_root_hash() == self.spec_node_hash(0),
                paths@.len() == D,
                spec_is_path(paths@, index as nat),
                acc == (if level == 0 {
                    0
                } else {
                    spec_path(index as nat)[level - 1]
                }),
                spec_depth(acc as nat) == level,
                acc_node.spec_index() == acc,
                acc_node.spec_hash() == self.spec_node_hash(acc),
                level < D ==> acc_node.spec_left() is Some && acc_node.spec_right() is Some,
                assist@.len() == level,
                forall|j: int|
                    0 <= j < level ==> assist@[j] == self.spec_node_hash(
                        spec_sibling(spec_path(index as nat)[j]) as u32,
                    ),
            decreases D - level,
        {
            let child = paths[level];
            proof {
                lemma_path_entry(index as nat, level as int);
                lemma_depth_bounds(acc as nat);
                lemma_depth_bounds(child as nat);
                lemma_depth_in_tree(child as nat, D as nat);
                lemma_pow2_monotone((level + 1) as nat, D as nat);
                lemma_pow2_monotone((D + 1) as nat, 32);
                lemma_pow2_step(D as nat);
                lemma2_to64();
                lemma_sibling(child as nat);
                lemma_sibling_in_tree(child as nat, D as nat);
                lemma_offset_parity(child as nat);
            }
            let (hash, sibling_hash) = child_hashes(&acc_node, acc, child);
            let sibling = self.get_sibling_index(child);
            let sibling_node = self.get_node_with_hash(sibling, &sibling_hash)?;
            acc = child;
            acc_node = self.get_node_with_hash(acc, &hash)?;
            assist.push(sibling_node.hash());
            level = level + 1;
        }
        let hash = acc_node.hash();
        let root = self.get_root_hash();
        let proof = MerkleProof { source: hash, root, assist, index };
        proof {
            lemma_path_len(index as nat);
            if D > 0 {
                lemma_path_last(index as nat);
            }
            assert(proof.assist@ =~= spec_assist::<H, Self>(*self, index as nat));
            if spec_consistent::<H, Self>(*self, D as nat) {
                law_stored_proof_climbs::<H, D, Self>(*self, index, proof);
            }
        }
        Ok((acc_node, proof))
    }

    /// Writes `leaf` at its index and recomputes its ancestors from the
    /// leaf upwards, with the sibling hashes that the backend stored before
    /// the write, then commits the new root. An index that is not a leaf is
    /// refused before anything is written. After a backend failure part of
    /// the way nothing is rolled back: what was written stays written.
    fn set_leaf_with_proof(&mut self, leaf: &Self::Node) -> (result: Result<
        MerkleProof<H, D>,
        MerkleError,
    >)
        requires
            D <= MAX_DEPTH,
        ensures
            !spec_is_leaf(leaf.spec_index() as nat, D as nat) ==> {
                &&& result is Err
                &&& result->Err_0.spec_is(leaf.spec_index(), MerkleErrorCode::InvalidLeafIndex)
                &&& *final(self) == *old(self)
            },
            result matches Ok(proof) ==> {
                &&& spec_is_leaf(leaf.spec_index() as nat, D as nat)
                &&& spec_written::<H, D, Self>(
                    *old(self),
                    *final(self),
                    leaf.spec_index(),
                    leaf.spec_hash(),
                    proof,
                )
                &&& proof.spec_well_formed()
                &&& spec_consistent::<H, Self>(*old(self), D as nat) ==> spec_consistent::<
                    H,
                    Self,
                >(*final(self), D as nat)
            },
            result matches Err(error) ==> (spec_is_leaf(leaf.spec_index() as nat, D as nat)
                ==> spec_in_tree(error.spec_index() as nat, D as nat)),
    {
        let ghost before = *self;
        let index = leaf.index();
        let mut hash = leaf.hash();
        let (_, mut proof) = self.get_leaf_with_proof(index)?;
        proof.source = hash;
        let mut p = get_offset(index);
        proof {
            lemma_depth_in_tree(index as nat, D as nat);
        }
        self.set_leaf(leaf)?;
        proof {
            lemma_path_len(index as nat);
            lemma_written_leaf::<H, Self>(before, *self, D as nat, index, hash);
            lemma_climb_zero::<H, Self>(hash, proof.assist@, index as nat);
        }
        let mut i: usize = 0;
        while i < D
            invariant
                D <= MAX_DEPTH,
                i <= D,
                spec_is_leaf(index as nat, D as nat),
                spec_depth(index as nat) == D,
                index == leaf.spec_index(),
                proof.index == index,
                proof.source == leaf.spec_hash(),
                proof.assist@ == spec_assist::<H, Self>(before, index as nat),
                proof.assist@.len() == D,
                hash == spec_climb::<H, Self>(leaf.spec_hash(), proof.assist@, index as nat, i as nat),
                p == spec_offset(spec_ancestor(index as nat, i as nat)),
                forall|node: u32| #[trigger]
                    self.spec_node_hash(node) == spec_written_hash::<H, Self>(
                        before,
                        D as nat,
                        index as nat,
                        leaf.spec_hash(),
                        (i + 1) as nat,
                        node,
                    ),
            decreases D - i,
        {
            let ghost middle = *self;
            let ghost below = spec_ancestor(index as nat, i as nat);
            let cur_hash = hash;
            let depth = D - i - 1;
            let (left, right) = pair_operands(cur_hash, proof.assist[depth], p);
            hash = Self::hash(&left, &right);
            p = p / 2;
            proof {
                lemma_climb_step::<H, Self>(
                    leaf.spec_hash(),
                    proof.assist@,
                    index as nat,
                    i as nat,
                );
                lemma_ancestor_depth(index as nat, i as nat);
                lemma_ancestor_depth(index as nat, (i + 1) as nat);
                lemma_depth_of_child(below);
                lemma_offset_of_parent(below);
                lemma_node_at_own(spec_ancestor(index as nat, (i + 1) as nat));
                lemma_depth_in_tree(spec_ancestor(index as nat, (i + 1) as nat), D as nat);
                lemma_pow2_monotone(depth as nat, 32);
                lemma2_to64();
            }
            let parent = (p as u64 + pow2_u64(depth as u32) - 1) as u32;
            self.set_parent(parent, &hash, &left, &right)?;
            proof {
                lemma_written_parent::<H, Self>(
                    before,
                    middle,
                    *self,
                    D as nat,
                    index,
                    leaf.spec_hash(),
                    (i + 1) as nat,
                );
            }
            i = i + 1;
        }
        proof {
            lemma_ancestor_depth(index as nat, D as nat);
        }
        self.update_root_hash(&hash);
        proof.root = hash;
        proof {
            if spec_consistent::<H, Self>(before, D as nat) {
                law_write_keeps_consistent::<H, D, Self>(
                    before,
                    *self,
                    index,
                    leaf.spec_hash(),
                    proof,
                );
            }
        }
        Ok(proof)
    }

    /// Reads the leaf `index`, overwrites its value with the one read from
    /// `data`, and writes it back.
    fn update_leaf_data_with_proof(&mut self, index: u32, data: &Vec<u8>) -> (result: Result<
        MerkleProof<H, D>,
        MerkleError,
    >)
        requires
            D <= MAX_DEPTH,
        ensures
            !spec_is_leaf(index as nat, D as nat) ==> {
                &&& result is Err
                &&& result->Err_0.spec_is(index, MerkleErrorCode::InvalidLeafIndex)
                &&& *final(self) == *old(self)
            },
            result matches Ok(proof) ==> {
                &&& spec_is_leaf(index as nat, D as nat)
                &&& spec_written::<H, D, Self>(
                    *old(self),
                    *final(self),
                    index,
                    <Self::Node as MerkleNode<H>>::spec_data_hash(data),
                    proof,
                )
                &&& proof.spec_well_formed()
                &&& spec_consistent::<H, Self>(*old(self), D as nat) ==> spec_consistent::<
                    H,
                    Self,
                >(*final(self), D as nat)
            },
            result matches Err(error) ==> (spec_is_leaf(index as nat, D as nat) ==> spec_in_tree(
                error.spec_index() as nat,
                D as nat,
            )),
    {
        let (mut leaf, _) = self.get_leaf_with_proof(index)?;
        leaf.set(data);
        self.set_leaf_with_proof(&leaf)
    }

    /// Recomputes the root from the leaf hash of `proof` and its sibling
    /// hashes, taken in the order in which the proof lists them, and says
    /// whether it is the root of `proof`. A proof that does not hold `D`
    /// sibling hashes, or whose index is outside the tree, is refused before
    /// anything is hashed. The tree is neither read nor changed.
    fn verify_proof(&mut self, proof: MerkleProof<H, D>) -> (result: Result<bool, MerkleError>)
        requires
            D <= MAX_DEPTH,
        ensures
            *final(self) == *old(self),
            proof.assist@.len() != D ==> result is Err && result->Err_0.spec_is(
                proof.index,
                MerkleErrorCode::InvalidDepth,
            ),
            proof.assist@.len() == D && !spec_in_tree(proof.index as nat, D as nat) ==> result is Err
                && result->Err_0.spec_is(proof.index, MerkleErrorCode::InvalidIndex),
            proof.spec_well_formed() ==> result is Ok && (H::obeys_eq_spec() ==> result->Ok_0
                == spec_verifies::<H, D, Self>(proof)),
    {
        if proof.assist.len() != D {
            return Err(MerkleError::plain(proof.index, MerkleErrorCode::InvalidDepth));
        }
        self.boundary_check(proof.index)?;
        let init = proof.source;
        let mut p = get_offset(proof.index);
        let mut acc = init;
        let mut i: usize = 0;
        proof {
            assert(proof.assist@.subrange(0, D as int) =~= proof.assist@);
        }
        while i < D
            invariant
                i <= D,
                proof.assist@.len() == D,
                spec_fold::<H, Self>(
                    acc,
                    proof.assist@.subrange(i as int, D as int),
                    p as nat,
                ) == spec_verify_root::<H, Self>(init, proof.assist@, proof.index as nat),
            decreases D - i,
        {
            let x = proof.assist[i];
            let (left, right) = pair_operands(acc, x, p);
            p = p / 2;
            proof {
                assert(proof.assist@.subrange(i as int, D as int).drop_first()
                    =~= proof.assist@.subrange(i + 1, D as int));
            }
            acc = Self::hash(&left, &right);
            i = i + 1;
        }
        Ok(proof.root == acc)
    }
}

} // verus!
