use merkle_host::host::index::{get_depth, pow2_u64, MAX_DEPTH};
use merkle_host::host::merkle::{
    get_offset, MerkleError, MerkleErrorCode, MerkleNode, MerkleTree,
};
use merkle_host::host::model::MerkleModel;

/// A backend without storage: enough for the index arithmetic, which never
/// reads a node.
struct Bare<const D: usize>;

struct BareNode;

impl MerkleNode<u64> for BareNode {
    fn hash(&self) -> u64 {
        0
    }
    fn index(&self) -> u32 {
        0
    }
    fn set(&mut self, _data: &Vec<u8>) {}
    fn left(&self) -> Option<u64> {
        None
    }
    fn right(&self) -> Option<u64> {
        None
    }
    fn spec_hash(&self) -> u64 {
        0
    }
    fn spec_index(&self) -> u32 {
        0
    }
    fn spec_left(&self) -> Option<u64> {
        None
    }
    fn spec_right(&self) -> Option<u64> {
        None
    }
    fn spec_data_hash(_data: &Vec<u8>) -> u64 {
        0
    }
}

impl<const D: usize> MerkleModel<u64> for Bare<D> {
    fn spec_compress(a: u64, b: u64) -> u64 {
        a.wrapping_add(b)
    }
    fn spec_root_hash(&self) -> u64 {
        0
    }
    fn spec_node_hash(&self, _index: u32) -> u64 {
        0
    }
}

impl<const D: usize> MerkleTree<u64, D> for Bare<D> {
    type Node = BareNode;
    type Id = ();
    type Root = ();

    fn construct(_addr: (), _id: ()) -> Self {
        Bare
    }
    fn hash(a: &u64, b: &u64) -> u64 {
        a.wrapping_add(*b)
    }
    fn set_parent(&mut self, index: u32, _h: &u64, _l: &u64, _r: &u64) -> Result<(), MerkleError> {
        Err(MerkleError::plain(index, MerkleErrorCode::InvalidIndex))
    }
    fn set_leaf(&mut self, leaf: &BareNode) -> Result<(), MerkleError> {
        Err(MerkleError::plain(leaf.index(), MerkleErrorCode::InvalidIndex))
    }
    fn get_node_with_hash(&self, index: u32, _hash: &u64) -> Result<BareNode, MerkleError> {
        // nothing is stored, so no hash is ever the one expected
        Err(MerkleError::plain(index, MerkleErrorCode::InvalidHash))
    }
    fn get_root_hash(&self) -> u64 {
        0
    }
    fn update_root_hash(&mut self, _hash: &u64) {}
}

fn tree<const D: usize>() -> Bare<D> {
    Bare::<D>::construct((), ())
}

fn assert_plain(result: Result<(), MerkleError>, index: u32, code: MerkleErrorCode) {
    let error = result.unwrap_err();
    assert_eq!(error.index(), index);
    assert_eq!(error.code(), code);
    assert_eq!(error.source(), [0u8; 32]);
}

#[test]
fn max_depth_is_31() {
    assert_eq!(MAX_DEPTH, 31);
}

#[test]
fn pow2_values() {
    assert_eq!(pow2_u64(0), 1);
    assert_eq!(pow2_u64(1), 2);
    assert_eq!(pow2_u64(7), 128);
    assert_eq!(pow2_u64(32), 4294967296);
    assert_eq!(pow2_u64(63), 9223372036854775808);
}

#[test]
fn depth_of_first_rows() {
    let expected = [0u32, 1, 1, 2, 2, 2, 2, 3, 3, 3, 3, 3, 3, 3, 3, 4];
    for (index, depth) in expected.iter().enumerate() {
        assert_eq!(get_depth(index as u32), *depth, "index {}", index);
    }
}

#[test]
fn depth_at_the_edge_of_u32() {
    assert_eq!(get_depth(u32::MAX - 1), 31);
    assert_eq!(get_depth(u32::MAX), 32);
    assert_eq!(get_depth((1u32 << 31) - 2), 30);
    assert_eq!(get_depth((1u32 << 31) - 1), 31);
}

#[test]
fn offset_of_first_rows() {
    let expected = [0u32, 0, 1, 0, 1, 2, 3, 0, 1, 2, 3, 4, 5, 6, 7, 0];
    for (index, offset) in expected.iter().enumerate() {
        assert_eq!(get_offset(index as u32), *offset, "index {}", index);
    }
}

#[test]
fn offset_at_the_edge_of_u32() {
    assert_eq!(get_offset(u32::MAX), 0);
    assert_eq!(get_offset(u32::MAX - 1), (1u32 << 31) - 1);
    assert_eq!(get_offset((1u32 << 31) - 1), 0);
    assert_eq!(get_offset((1u32 << 31) - 2), (1u32 << 30) - 1);
}

#[test]
fn offset_is_index_minus_first_of_its_depth() {
    for index in 0u32..5000 {
        let depth = get_depth(index);
        assert_eq!(get_offset(index) as u64, index as u64 + 1 - pow2_u64(depth));
    }
}

#[test]
fn sibling_of_left_is_right_and_back() {
    let t = tree::<6>();
    assert_eq!(t.get_sibling_index(1), 2);
    assert_eq!(t.get_sibling_index(2), 1);
    assert_eq!(t.get_sibling_index(7), 8);
    assert_eq!(t.get_sibling_index(8), 7);
    assert_eq!(t.get_sibling_index(125), 126);
    assert_eq!(t.get_sibling_index(126), 125);
}

#[test]
fn sibling_of_sibling_is_the_node() {
    let t = tree::<6>();
    for index in 1u32..127 {
        let sibling = t.get_sibling_index(index);
        assert_ne!(sibling, index);
        assert_eq!(t.get_sibling_index(sibling), index);
        assert_eq!((sibling - 1) / 2, (index - 1) / 2);
    }
}

#[test]
fn sibling_at_the_edge_of_u32() {
    let t = tree::<31>();
    assert_eq!(t.get_sibling_index(u32::MAX - 1), u32::MAX - 2);
    assert_eq!(t.get_sibling_index(u32::MAX - 2), u32::MAX - 1);
}

#[test]
fn boundary_check_depth_6() {
    let t = tree::<6>();
    assert!(t.boundary_check(0).is_ok());
    assert!(t.boundary_check(62).is_ok());
    assert!(t.boundary_check(126).is_ok());
    // 2^(D+1) - 1
    assert_plain(t.boundary_check(127), 127, MerkleErrorCode::InvalidIndex);
    assert_plain(t.boundary_check(128), 128, MerkleErrorCode::InvalidIndex);
    assert_plain(t.boundary_check(u32::MAX), u32::MAX, MerkleErrorCode::InvalidIndex);
}

#[test]
fn leaf_check_depth_6() {
    let t = tree::<6>();
    assert!(t.leaf_check(63).is_ok());
    assert!(t.leaf_check(100).is_ok());
    assert!(t.leaf_check(126).is_ok());
    // 2^D - 2
    assert_plain(t.leaf_check(62), 62, MerkleErrorCode::InvalidLeafIndex);
    // 2^(D+1) - 1
    assert_plain(t.leaf_check(127), 127, MerkleErrorCode::InvalidLeafIndex);
    assert_plain(t.leaf_check(0), 0, MerkleErrorCode::InvalidLeafIndex);
}

#[test]
fn checks_depth_3() {
    let t = tree::<3>();
    for index in 0u32..15 {
        assert!(t.boundary_check(index).is_ok());
        assert_eq!(t.leaf_check(index).is_ok(), index >= 7);
    }
    assert_plain(t.boundary_check(15), 15, MerkleErrorCode::InvalidIndex);
    assert_plain(t.leaf_check(6), 6, MerkleErrorCode::InvalidLeafIndex);
    assert_plain(t.leaf_check(15), 15, MerkleErrorCode::InvalidLeafIndex);
}

#[test]
fn checks_depth_0() {
    let t = tree::<0>();
    assert!(t.boundary_check(0).is_ok());
    assert!(t.leaf_check(0).is_ok());
    assert_plain(t.boundary_check(1), 1, MerkleErrorCode::InvalidIndex);
    assert_plain(t.leaf_check(1), 1, MerkleErrorCode::InvalidLeafIndex);
    assert_eq!(t.get_path(0).unwrap(), [0u32; 0]);
}

#[test]
fn checks_depth_31() {
    let t = tree::<31>();
    assert!(t.boundary_check(0).is_ok());
    assert!(t.boundary_check(u32::MAX - 1).is_ok());
    assert_plain(t.boundary_check(u32::MAX), u32::MAX, MerkleErrorCode::InvalidIndex);
    assert!(t.leaf_check((1u32 << 31) - 1).is_ok());
    assert!(t.leaf_check(u32::MAX - 1).is_ok());
    assert_plain(
        t.leaf_check((1u32 << 31) - 2),
        (1u32 << 31) - 2,
        MerkleErrorCode::InvalidLeafIndex,
    );
    assert_plain(t.leaf_check(u32::MAX), u32::MAX, MerkleErrorCode::InvalidLeafIndex);
}

#[test]
fn path_depth_3_is_pinned() {
    let t = tree::<3>();
    assert_eq!(t.get_path(7).unwrap(), [1, 3, 7]);
    assert_eq!(t.get_path(8).unwrap(), [1, 3, 8]);
    assert_eq!(t.get_path(9).unwrap(), [1, 4, 9]);
    assert_eq!(t.get_path(10).unwrap(), [1, 4, 10]);
    assert_eq!(t.get_path(11).unwrap(), [2, 5, 11]);
    assert_eq!(t.get_path(12).unwrap(), [2, 5, 12]);
    assert_eq!(t.get_path(13).unwrap(), [2, 6, 13]);
    assert_eq!(t.get_path(14).unwrap(), [2, 6, 14]);
}

#[test]
fn path_refuses_what_is_no_leaf() {
    let t = tree::<3>();
    for index in [0u32, 1, 6, 15, 16, u32::MAX] {
        let error = t.get_path(index).unwrap_err();
        assert_eq!(error.index(), index);
        assert_eq!(error.code(), MerkleErrorCode::InvalidLeafIndex);
        assert_eq!(error.source(), [0u8; 32]);
    }
}

#[test]
fn path_has_depth_entries_and_links_parent_to_child() {
    let t = tree::<6>();
    for leaf in 63u32..127 {
        let path = t.get_path(leaf).unwrap();
        assert_eq!(path.len(), 6);
        assert_eq!(path[5], leaf);
        let mut parent = 0u32;
        for (level, node) in path.iter().enumerate() {
            assert_eq!((node - 1) / 2, parent);
            assert_eq!(get_depth(*node) as usize, level + 1);
            parent = *node;
        }
    }
}

#[test]
fn path_depth_31_ends_at_the_last_leaf() {
    let t = tree::<31>();
    let path = t.get_path(u32::MAX - 1).unwrap();
    assert_eq!(path.len(), 31);
    assert_eq!(path[0], 2);
    assert_eq!(path[1], 6);
    assert_eq!(path[30], u32::MAX - 1);
    let first = t.get_path((1u32 << 31) - 1).unwrap();
    assert_eq!(first[0], 1);
    assert_eq!(first[1], 3);
    assert_eq!(first[30], (1u32 << 31) - 1);
}

#[test]
fn read_without_storage_fails_with_the_report_of_the_backend() {
    let t = tree::<3>();
    let error = t.get_leaf_with_proof(9).err().unwrap();
    assert_eq!(error.code(), MerkleErrorCode::InvalidHash);
    assert_eq!(error.index(), 0);
    let error = t.get_leaf_with_proof(3).err().unwrap();
    assert_eq!(error.code(), MerkleErrorCode::InvalidLeafIndex);
    assert_eq!(error.index(), 3);
}

#[test]
fn error_keeps_what_it_was_made_with() {
    let mut source = [0u8; 32];
    source[0] = 7;
    source[31] = 9;
    let error = MerkleError::new(source, 42, MerkleErrorCode::InvalidHash);
    assert_eq!(error.source(), source);
    assert_eq!(error.index(), 42);
    assert_eq!(error.code(), MerkleErrorCode::InvalidHash);
    let plain = MerkleError::plain(5, MerkleErrorCode::InvalidDepth);
    assert_eq!(plain.source(), [0u8; 32]);
    assert_eq!(plain.index(), 5);
    assert_eq!(plain.code(), MerkleErrorCode::InvalidDepth);
}
