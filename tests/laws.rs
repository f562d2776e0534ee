use alloy_primitives::B256;
use alloy_trie::nodes::TrieNode as AlloyNode;
use alloy_rlp::Decodable;
use alloy_trie::proof::ProofRetainer;
use alloy_trie::{HashBuilder, Nibbles as AlloyNibbles, EMPTY_ROOT_HASH};
use sparse_trie::{as_hash, word_rlp, Nibbles, RevealedSparseTrie, SparseNode, SparseTrie, SparseTrieError, TrieNode};

fn nib(v: &[u8]) -> Nibbles {
    Nibbles::from_nibbles(v.to_vec())
}

fn unpack(b: B256) -> Nibbles {
    Nibbles::unpack(b.as_slice())
}

fn to_alloy(n: &Nibbles) -> AlloyNibbles {
    AlloyNibbles::from_nibbles_unchecked(n.to_vec())
}

fn value_of(v: u64) -> Vec<u8> {
    alloy_rlp::encode_fixed_size(&alloy_primitives::U256::from(v)).to_vec()
}

fn reference_root(state: &[(Nibbles, Vec<u8>)]) -> [u8; 32] {
    let mut state: Vec<&(Nibbles, Vec<u8>)> = state.iter().collect();
    state.sort_by(|a, b| a.0.cmp(&b.0));
    let mut hash_builder = HashBuilder::default();
    for (key, value) in state {
        hash_builder.add_leaf(to_alloy(key), value);
    }
    hash_builder.root().0
}

fn sorted_nodes(sparse: &RevealedSparseTrie) -> Vec<(Nibbles, SparseNode)> {
    let mut nodes = sparse.node_entries();
    nodes.sort_by(|a, b| a.0.cmp(&b.0));
    nodes
}

fn from_alloy_node(node: AlloyNode) -> TrieNode {
    match node {
        AlloyNode::EmptyRoot => TrieNode::EmptyRoot,
        AlloyNode::Branch(b) => TrieNode::Branch {
            stack: b.stack.iter().map(|c| c.to_vec()).collect(),
            state_mask: b.state_mask.get(),
        },
        AlloyNode::Extension(e) => {
            TrieNode::Extension { key: nib(&e.key.to_vec()), child: e.child.to_vec() }
        }
        AlloyNode::Leaf(l) => TrieNode::Leaf { key: nib(&l.key.to_vec()), value: l.value },
    }
}

fn sample_state() -> Vec<(Nibbles, Vec<u8>)> {
    (0..40u8)
        .map(|b| {
            let mut bytes = [0u8; 32];
            bytes[0] = b.wrapping_mul(37);
            bytes[1] = b % 3;
            bytes[31] = b;
            (unpack(B256::from(bytes)), value_of(b as u64 + 1))
        })
        .collect()
}

#[test]
fn empty_trie_root_is_empty_root_hash() {
    let mut sparse = RevealedSparseTrie::default();
    assert_eq!(sparse.root().unwrap(), EMPTY_ROOT_HASH.0);
}

#[test]
fn blind_trie_refuses_update_and_root() {
    let mut trie = SparseTrie::default();
    assert_eq!(trie.update_leaf(nib(&[1, 2]), vec![1]), Err(SparseTrieError::Blind));
    assert_eq!(trie.root(), Err(SparseTrieError::Blind));
    assert!(trie.is_blind());
}

#[test]
fn insertion_order_does_not_change_root() {
    let state = sample_state();
    let mut forward = RevealedSparseTrie::default();
    for (k, v) in &state {
        forward.update_leaf(k.duplicate(), v.clone()).unwrap();
    }
    let mut backward = RevealedSparseTrie::default();
    for (k, v) in state.iter().rev() {
        backward.update_leaf(k.duplicate(), v.clone()).unwrap();
    }
    let expected = reference_root(&state);
    assert_eq!(forward.root().unwrap(), expected);
    assert_eq!(backward.root().unwrap(), expected);
}

#[test]
fn update_twice_is_update_once() {
    let state = sample_state();
    let mut sparse = RevealedSparseTrie::default();
    for (k, v) in &state {
        sparse.update_leaf(k.duplicate(), v.clone()).unwrap();
    }
    let root_once = sparse.root().unwrap();
    let nodes_once = sorted_nodes(&sparse);
    let (k, v) = &state[7];
    sparse.update_leaf(k.duplicate(), v.clone()).unwrap();
    sparse.update_leaf(k.duplicate(), v.clone()).unwrap();
    assert_eq!(sorted_nodes(&sparse).len(), nodes_once.len());
    assert_eq!(sparse.root().unwrap(), root_once);
    assert_eq!(sparse.value(k), Some(v));
}

#[test]
fn overwrite_keeps_node_table() {
    let state = sample_state();
    let mut sparse = RevealedSparseTrie::default();
    for (k, v) in &state {
        sparse.update_leaf(k.duplicate(), v.clone()).unwrap();
    }
    let before = sorted_nodes(&sparse);
    let (k, _) = &state[3];
    sparse.update_leaf(k.duplicate(), value_of(999)).unwrap();
    assert_eq!(sorted_nodes(&sparse), before);
    assert_eq!(sparse.value(k), Some(&value_of(999)));
    let mut changed: Vec<(Nibbles, Vec<u8>)> =
        state.iter().map(|(k, v)| (k.duplicate(), v.clone())).collect();
    changed[3].1 = value_of(999);
    assert_eq!(sparse.root().unwrap(), reference_root(&changed));
}

#[test]
fn delete_then_reinsert_restores_root() {
    let state = sample_state();
    let mut sparse = RevealedSparseTrie::default();
    for (k, v) in &state {
        sparse.update_leaf(k.duplicate(), v.clone()).unwrap();
    }
    let root = sparse.root().unwrap();
    for (k, v) in state.iter().step_by(5) {
        sparse.remove_leaf(k.duplicate()).unwrap();
        assert_ne!(sparse.root().unwrap(), root);
        sparse.update_leaf(k.duplicate(), v.clone()).unwrap();
        assert_eq!(sparse.root().unwrap(), root);
    }
}

#[test]
fn deleting_every_key_leaves_empty_root() {
    let state = sample_state();
    let mut sparse = RevealedSparseTrie::default();
    for (k, v) in &state {
        sparse.update_leaf(k.duplicate(), v.clone()).unwrap();
    }
    for (k, _) in &state {
        sparse.remove_leaf(k.duplicate()).unwrap();
    }
    assert_eq!(sorted_nodes(&sparse), vec![(Nibbles::new(), SparseNode::Empty)]);
    assert_eq!(sparse.value(&state[0].0), None);
    assert_eq!(sparse.root().unwrap(), EMPTY_ROOT_HASH.0);
}

#[test]
fn removing_absent_key_changes_nothing() {
    let mut sparse = RevealedSparseTrie::default();
    sparse.update_leaf(nib(&[1, 2, 3, 4]), vec![7]).unwrap();
    let before = sorted_nodes(&sparse);
    sparse.remove_leaf(nib(&[1, 2, 3, 5])).unwrap();
    assert_eq!(sorted_nodes(&sparse), before);
}

#[test]
fn update_into_hash_node_is_refused() {
    let hash = [0x11u8; 32];
    let mut child = vec![0xa0u8];
    child.extend_from_slice(&hash);
    let root = TrieNode::Branch { stack: vec![child.clone(), child], state_mask: 0b11 };
    let mut sparse = RevealedSparseTrie::from_root(root).unwrap();
    let before = sorted_nodes(&sparse);
    assert_eq!(before.len(), 3);
    let err = sparse.update_leaf(nib(&[1, 5, 5, 5]), vec![1]).unwrap_err();
    assert_eq!(err, SparseTrieError::BlindedNode { path: nib(&[1]), hash });
    assert_eq!(sorted_nodes(&sparse), before);
    assert_eq!(sparse.remove_leaf(nib(&[0, 5, 5, 5])), Ok(()));
    assert_eq!(sorted_nodes(&sparse), before);
}

#[test]
fn update_into_hash_node_after_inserting_value_is_refused() {
    let hash = [0x22u8; 32];
    let mut child = vec![0xa0u8];
    child.extend_from_slice(&hash);
    let root = TrieNode::Extension { key: nib(&[3]), child };
    let mut sparse = RevealedSparseTrie::from_root(root).unwrap();
    let err = sparse.update_leaf(nib(&[3, 1]), vec![1]).unwrap_err();
    assert_eq!(err, SparseTrieError::BlindedNode { path: nib(&[3]), hash });
}

#[test]
fn reveal_rejects_bad_rlp() {
    let root = TrieNode::Extension { key: nib(&[3]), child: vec![0xc5, 0x01] };
    assert_eq!(RevealedSparseTrie::from_root(root).err(), Some(SparseTrieError::RlpDecode));
}

#[test]
fn reveal_then_update_matches_full_trie() {
    let state = sample_state();
    let (target, target_value) = (state[11].0.duplicate(), state[11].1.clone());
    let rest: Vec<(Nibbles, Vec<u8>)> =
        state.iter().filter(|(k, _)| *k != target).map(|(k, v)| (k.duplicate(), v.clone())).collect();
    let mut sorted: Vec<&(Nibbles, Vec<u8>)> = rest.iter().collect();
    sorted.sort_by(|a, b| a.0.cmp(&b.0));
    let mut hash_builder =
        HashBuilder::default().with_proof_retainer(ProofRetainer::new(vec![to_alloy(&target)]));
    for (key, value) in sorted {
        hash_builder.add_leaf(to_alloy(key), value);
    }
    hash_builder.root();
    let proof = hash_builder.take_proof_nodes().into_nodes_sorted();

    let mut proof = proof.into_iter();
    let (_, root_bytes) = proof.next().unwrap();
    let mut trie = SparseTrie::default();
    trie.reveal_root(from_alloy_node(AlloyNode::decode(&mut root_bytes.as_ref()).unwrap())).unwrap();
    let revealed = trie.as_revealed_mut().unwrap();
    for (path, bytes) in proof {
        let node = from_alloy_node(AlloyNode::decode(&mut bytes.as_ref()).unwrap());
        revealed.reveal_node(nib(&path.to_vec()), node).unwrap();
    }
    trie.update_leaf(target, target_value).unwrap();
    assert_eq!(trie.root().unwrap(), reference_root(&state));
}

#[test]
fn word_reference_round_trip() {
    let digest = [0x5au8; 32];
    let reference = word_rlp(&digest);
    assert_eq!(reference.len(), 33);
    assert_eq!(reference[0], 0xa0);
    assert_eq!(as_hash(&reference), Some(digest));
    assert_eq!(as_hash(&vec![0xc1, 0x80]), None);
}

#[test]
fn nibble_operations() {
    let a = Nibbles::unpack(&[0xab, 0x01]);
    assert_eq!(a.to_vec(), vec![0xa, 0xb, 0x0, 0x1]);
    let b = nib(&[0xa, 0xb, 0x7]);
    assert_eq!(a.common_prefix_length(&b), 2);
    assert!(a.starts_with(&nib(&[0xa, 0xb])));
    assert!(!a.starts_with(&b));
    assert_eq!(a.slice(1, 3).to_vec(), vec![0xb, 0x0]);
    assert_eq!(a.join(&b).len(), 7);
}

#[test]
fn path_inside_another_path_is_refused() {
    let mut sparse = RevealedSparseTrie::default();
    sparse.update_leaf(nib(&[1, 2, 3, 4]), vec![1]).unwrap();
    assert_eq!(sparse.update_leaf(nib(&[1, 2]), vec![2]), Err(SparseTrieError::InvalidStructure));
}

#[test]
fn level_update_keeps_root() {
    let state = sample_state();
    let mut sparse = RevealedSparseTrie::default();
    for (k, v) in &state {
        sparse.update_leaf(k.duplicate(), v.clone()).unwrap();
    }
    sparse.update_rlp_node_level(2).unwrap();
    assert_eq!(sparse.root().unwrap(), reference_root(&state));
}

#[test]
fn split_branch_and_constructors() {
    assert_eq!(SparseNode::new_split_branch(0, 15), SparseNode::Branch { state_mask: 0x8001, hash: None });
    assert_eq!(SparseNode::new_branch(6), SparseNode::Branch { state_mask: 6, hash: None });
    assert_eq!(SparseNode::new_ext(nib(&[3])), SparseNode::Extension { key: nib(&[3]), hash: None });
    assert_eq!(
        SparseNode::from_node(TrieNode::Leaf { key: nib(&[1]), value: vec![9] }),
        SparseNode::Leaf { key: nib(&[1]), hash: None }
    );
    assert_eq!(SparseNode::from_node(TrieNode::EmptyRoot), SparseNode::Empty);
}

#[test]
fn single_leaf_root_matches_reference() {
    let path = nib(&[0xa, 0xb, 0xc, 0xd]);
    let mut trie = SparseTrie::revealed_empty();
    trie.update_leaf(path.duplicate(), vec![0x42]).unwrap();
    assert_eq!(trie.root().unwrap(), reference_root(&[(path, vec![0x42])]));
}

#[test]
fn digest_does_not_replace_known_node() {
    let mut child = vec![0xa0u8];
    child.extend_from_slice(&[0x33u8; 32]);
    let branch = || TrieNode::Branch { stack: vec![child.clone(), child.clone()], state_mask: 0b11 };
    let mut sparse = RevealedSparseTrie::from_root(branch()).unwrap();
    assert_eq!(sparse.node(&nib(&[0])), Some(&SparseNode::Hash([0x33u8; 32])));
    sparse.reveal_node(nib(&[0]), TrieNode::Leaf { key: nib(&[5]), value: vec![7] }).unwrap();
    sparse.reveal_node(Nibbles::new(), branch()).unwrap();
    assert_eq!(sparse.node(&nib(&[0])), Some(&SparseNode::Leaf { key: nib(&[5]), hash: None }));
    assert_eq!(sparse.node(&nib(&[1])), Some(&SparseNode::Hash([0x33u8; 32])));
    assert_eq!(sparse.value(&nib(&[0, 5])), Some(&vec![7]));
}

#[test]
fn failed_removal_leaves_nodes() {
    let mut child = vec![0xa0u8];
    child.extend_from_slice(&[0x44u8; 32]);
    let root = TrieNode::Branch { stack: vec![child.clone(), child], state_mask: 0b11 };
    let mut sparse = RevealedSparseTrie::from_root(root).unwrap();
    sparse.reveal_node(nib(&[0]), TrieNode::Leaf { key: nib(&[5]), value: vec![7] }).unwrap();
    let before = sorted_nodes(&sparse);
    let err = sparse.remove_leaf(nib(&[0, 5])).unwrap_err();
    assert_eq!(err, SparseTrieError::BlindedNode { path: nib(&[1]), hash: [0x44u8; 32] });
    assert_eq!(sorted_nodes(&sparse), before);
    assert_eq!(sparse.value(&nib(&[0, 5])), None);
}
