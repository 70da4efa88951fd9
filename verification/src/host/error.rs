//! The failures of the tree protocol.

use vstd::prelude::*;

verus! {

/// The kinds of failure of the tree protocol.
#[derive(Debug, Clone, Copy, PartialEq, Eq, Structural)]
pub enum MerkleErrorCode {
    /// A leaf was asked for at an index that is not a leaf.
    InvalidLeafIndex,
    /// The backend found another hash stored than the one expected.
    InvalidHash,
    /// A proof does not hold one sibling hash for each level.
    InvalidDepth,
    /// An index does not name a node of the tree.
    InvalidIndex,
}

/// A failure of the tree protocol: its kind, the index it concerns and,
/// where the backend reports one, the hash that did not match.
#[derive(Debug)]
pub struct MerkleError {
    source: [u8; 32],
    index: u32,
    code: MerkleErrorCode,
}

impl MerkleError {
    /// The hash that the error carries.
    pub closed spec fn spec_source(&self) -> [u8; 32] {
        self.source
    }

    /// The index that the error concerns.
    pub closed spec fn spec_index(&self) -> u32 {
        self.index
    }

    /// The kind of the error.
    pub closed spec fn spec_code(&self) -> MerkleErrorCode {
        self.code
    }

    /// The error is of kind `code`, concerns `index` and carries no hash
    /// (32 zero bytes).
    pub open spec fn spec_is(&self, index: u32, code: MerkleErrorCode) -> bool {
        &&& self.spec_index() == index
        &&& self.spec_code() == code
        &&& self.spec_source() == vstd::array::spec_array_fill_for_copy_type::<u8, 32>(0u8)
    }

    /// An error of kind `code` about `index` that carries the hash `source`.
    pub fn new(source: [u8; 32], index: u32, code: MerkleErrorCode) -> (error: Self)
        ensures
            error.spec_source() == source,
            error.spec_index() == index,
            error.spec_code() == code,
    {
        MerkleError { source, index, code }
    }

    /// An error of kind `code` about `index` that carries no hash.
    pub fn plain(index: u32, code: MerkleErrorCode) -> (error: Self)
        ensures
            error.spec_is(index, code),
    {
        MerkleError { source: [0u8; 32], index, code }
    }

    /// The hash that the error carries.
    pub fn source(&self) -> (source: [u8; 32])
        ensures
            source == self.spec_source(),
    {
        self.source
    }

    /// The index that the error concerns.
    pub fn index(&self) -> (index: u32)
        ensures
            index == self.spec_index(),
    {
        self.index
    }

    /// The kind of the error.
    pub fn code(&self) -> (code: MerkleErrorCode)
        ensures
            code == self.spec_code(),
    {
        self.code
    }
}

} // verus!
