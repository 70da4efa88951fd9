use merkle_host::host::merkle::{MerkleError, MerkleNode, MerkleTree};
use merkle_host::host::model::MerkleModel;

struct MerkleAsArray {
    data: [u64; 127], // 2^7-1 and depth = 6
}

impl MerkleAsArray {
    fn debug(&self) {
        let mut start = 0;
        for i in 0..6 {
            let mut ns = vec![];
            for j in start..start + (1 << i) {
                ns.push(self.data[j])
            }
            start = start + (1 << i);
            println!("dbg: {:?}", ns)
        }
    }
}

struct MerkleU64Node {
    pub value: u64,
    pub index: u32,
}

impl MerkleNode<u64> for MerkleU64Node {
    fn index(&self) -> u32 {
        self.index
    }
    fn hash(&self) -> u64 {
        self.value
    }
    fn set(&mut self, value: &Vec<u8>) {
        let v: [u8; 8] = value.clone().try_into().unwrap();
        self.value = u64::from_le_bytes(v);
    }
    fn right(&self) -> Option<u64> {
        Some(0)
    }
    fn left(&self) -> Option<u64> {
        Some(0)
    }

    fn spec_hash(&self) -> u64 {
        self.value
    }
    fn spec_index(&self) -> u32 {
        self.index
    }
    fn spec_left(&self) -> Option<u64> {
        Some(0)
    }
    fn spec_right(&self) -> Option<u64> {
        Some(0)
    }
    fn spec_data_hash(data: &Vec<u8>) -> u64 {
        let v: [u8; 8] = data.clone().try_into().unwrap();
        u64::from_le_bytes(v)
    }
}

impl MerkleModel<u64> for MerkleAsArray {
    fn spec_compress(a: u64, b: u64) -> u64 {
        a + b
    }
    fn spec_root_hash(&self) -> u64 {
        self.data[0]
    }
    fn spec_node_hash(&self, index: u32) -> u64 {
        self.data[index as usize]
    }
}

impl MerkleTree<u64, 6> for MerkleAsArray {
    type Id = String;
    type Root = String;
    type Node = MerkleU64Node;
    fn construct(_addr: Self::Id, _id: Self::Root) -> Self {
        MerkleAsArray { data: [0 as u64; 127] }
    }
    fn hash(a: &u64, b: &u64) -> u64 {
        a + b
    }
    fn get_root_hash(&self) -> u64 {
        return self.data[0];
    }
    fn update_root_hash(&mut self, _h: &u64) {}

    fn get_node_with_hash(&self, index: u32, _hash: &u64) -> Result<Self::Node, MerkleError> {
        self.boundary_check(index)?;
        Ok(MerkleU64Node { value: self.data[index as usize], index })
    }

    fn set_parent(
        &mut self,
        index: u32,
        hash: &u64,
        _left: &u64,
        _right: &u64,
    ) -> Result<(), MerkleError> {
        self.boundary_check(index)?;
        self.data[index as usize] = *hash;
        Ok(())
    }
    fn set_leaf(&mut self, leaf: &Self::Node) -> Result<(), MerkleError> {
        self.leaf_check(leaf.index())?;
        self.data[leaf.index() as usize] = leaf.value;
        Ok(())
    }
}

#[test]
fn test_merkle_path() {
    let mut mt = MerkleAsArray::construct("test".to_string(), "test".to_string());
    let (mut leaf, _) = mt.get_leaf_with_proof(2_u32.pow(6) - 1).unwrap();
    leaf.value = 1;
    let _proof = mt.set_leaf_with_proof(&leaf).unwrap();

    /* one update of 1 is 1 */
    let root = mt.get_root_hash();
    mt.debug();
    assert_eq!(root, 1 as u64);

    let (mut leaf, _) = mt.get_leaf_with_proof(2_u32.pow(6) + 2).unwrap();
    leaf.value = 2;
    let _proof = mt.set_leaf_with_proof(&leaf).unwrap();

    /* two leaves hash needs to be 3 */
    let root = mt.get_root_hash();
    mt.debug();
    assert_eq!(root, 3 as u64);

    let (mut leaf, _) = mt.get_leaf_with_proof(2_u32.pow(6) + 4).unwrap();
    leaf.value = 3;
    let _proof = mt.set_leaf_with_proof(&leaf).unwrap();
    /* three leaves hash needs to be 6 */
    let root = mt.get_root_hash();
    assert_eq!(root, 6 as u64);
}
