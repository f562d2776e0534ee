use alloy_primitives::{B256, U256};
use alloy_rlp::Decodable;
use alloy_trie::nodes::TrieNode as AlloyNode;
use alloy_trie::proof::ProofRetainer;
use alloy_trie::{HashBuilder, Nibbles as AlloyNibbles, EMPTY_ROOT_HASH};
use sparse_trie::{Nibbles, RevealedSparseTrie, SparseNode, SparseTrie, SparseTrieError, TrieNode};

fn nib(v: &[u8]) -> Nibbles {
    Nibbles::from_nibbles(v.to_vec())
}

fn unpack(b: B256) -> Nibbles {
    Nibbles::unpack(b.as_slice())
}

fn to_alloy(n: &Nibbles) -> AlloyNibbles {
    AlloyNibbles::from_nibbles_unchecked(n.to_vec())
}

fn from_alloy_node(node: AlloyNode) -> TrieNode {
    match node {
        AlloyNode::EmptyRoot => TrieNode::EmptyRoot,
        AlloyNode::Branch(b) => TrieNode::Branch {
            stack: b.stack.iter().map(|c| c.to_vec()).collect(),
            state_mask: b.state_mask.get(),
        },
        AlloyNode::Extension(e) => {
            TrieNode::Extension { key: nib(&e.key.to_vec()), child: e.child.to_vec() }
        }
        AlloyNode::Leaf(l) => TrieNode::Leaf { key: nib(&l.key.to_vec()), value: l.value },
    }
}

/// Root of the complete trie over `state`, and the proof nodes for `targets`.
fn hash_builder_root_with_proofs(
    mut state: Vec<(Nibbles, Vec<u8>)>,
    targets: Vec<Nibbles>,
) -> ([u8; 32], Vec<(Nibbles, AlloyNode)>) {
    state.sort_by(|a, b| a.0.cmp(&b.0));
    let retainer = ProofRetainer::new(targets.iter().map(to_alloy).collect());
    let mut hash_builder = HashBuilder::default().with_proof_retainer(retainer);
    for (key, value) in &state {
        hash_builder.add_leaf(to_alloy(key), value);
    }
    let root = hash_builder.root();
    let nodes = hash_builder
        .take_proof_nodes()
        .into_nodes_sorted()
        .into_iter()
        .map(|(path, node)| (nib(&path.to_vec()), AlloyNode::decode(&mut node.as_ref()).unwrap()))
        .collect();
    (root.0, nodes)
}

fn sorted_nodes(sparse: &RevealedSparseTrie) -> Vec<(Nibbles, SparseNode)> {
    let mut nodes = sparse.node_entries();
    nodes.sort_by(|a, b| a.0.cmp(&b.0));
    nodes
}

fn assert_eq_sparse_trie_proof_nodes(sparse: &RevealedSparseTrie, proof_nodes: Vec<(Nibbles, AlloyNode)>) {
    let sparse_nodes = sorted_nodes(sparse);
    for ((proof_path, proof_node), (sparse_path, sparse_node)) in
        proof_nodes.iter().zip(sparse_nodes.iter())
    {
        assert_eq!(proof_path, sparse_path);
        let equals = match (proof_node, sparse_node) {
            (AlloyNode::EmptyRoot, SparseNode::Empty) => true,
            (AlloyNode::Branch(b), SparseNode::Branch { state_mask, .. }) => {
                b.state_mask.get() == *state_mask
            }
            (AlloyNode::Extension(e), SparseNode::Extension { key, .. }) => {
                e.key.to_vec() == key.to_vec()
            }
            (AlloyNode::Leaf(l), SparseNode::Leaf { key, .. }) => l.key.to_vec() == key.to_vec(),
            (_, SparseNode::Empty | SparseNode::Hash(_)) => continue,
            _ => false,
        };
        assert!(equals, "proof node: {:?}, sparse node: {:?}", proof_node, sparse_node);
    }
}

fn value_of(v: u64) -> Vec<u8> {
    alloy_rlp::encode_fixed_size(&U256::from(v)).to_vec()
}

fn expect_nodes(sparse: &RevealedSparseTrie, mut expected: Vec<(Nibbles, SparseNode)>) {
    expected.sort_by(|a, b| a.0.cmp(&b.0));
    assert_eq!(sorted_nodes(sparse), expected);
}

#[test]
fn sparse_trie_is_blind() {
    assert!(SparseTrie::default().is_blind());
    assert!(!SparseTrie::revealed_empty().is_blind());
}

#[test]
fn sparse_trie_empty_update_one() {
    let path = unpack(B256::with_last_byte(42));
    let value = value_of(1);

    let (hash_builder_root, hash_builder_proof_nodes) =
        hash_builder_root_with_proofs(vec![(path.duplicate(), value.clone())], vec![path.duplicate()]);

    let mut sparse = RevealedSparseTrie::default();
    sparse.update_leaf(path.duplicate(), value).unwrap();
    expect_nodes(&sparse, vec![(Nibbles::new(), SparseNode::Leaf { key: path, hash: None })]);
    let sparse_root = sparse.root().unwrap();

    assert_eq!(sparse_root, hash_builder_root);
    assert_eq_sparse_trie_proof_nodes(&sparse, hash_builder_proof_nodes);
}

#[test]
fn sparse_trie_empty_update_multiple_lower_nibbles() {
    let paths = (0..=16u8).map(|b| unpack(B256::with_last_byte(b))).collect::<Vec<_>>();
    let value = value_of(1);

    let (hash_builder_root, hash_builder_proof_nodes) = hash_builder_root_with_proofs(
        paths.iter().map(|p| (p.duplicate(), value.clone())).collect(),
        paths.iter().map(|p| p.duplicate()).collect(),
    );

    let mut sparse = RevealedSparseTrie::default();
    for path in &paths {
        sparse.update_leaf(path.duplicate(), value.clone()).unwrap();
    }
    let sparse_root = sparse.root().unwrap();

    assert_eq!(sparse_root, hash_builder_root);
    assert_eq_sparse_trie_proof_nodes(&sparse, hash_builder_proof_nodes);
}

#[test]
fn sparse_trie_empty_update_multiple_upper_nibbles() {
    let paths = (239..=255u8).map(|b| unpack(B256::repeat_byte(b))).collect::<Vec<_>>();
    let value = value_of(1);

    let (hash_builder_root, hash_builder_proof_nodes) = hash_builder_root_with_proofs(
        paths.iter().map(|p| (p.duplicate(), value.clone())).collect(),
        paths.iter().map(|p| p.duplicate()).collect(),
    );

    let mut sparse = RevealedSparseTrie::default();
    for path in &paths {
        sparse.update_leaf(path.duplicate(), value.clone()).unwrap();
    }
    let sparse_root = sparse.root().unwrap();

    assert_eq!(sparse_root, hash_builder_root);
    assert_eq_sparse_trie_proof_nodes(&sparse, hash_builder_proof_nodes);
}

#[test]
fn sparse_trie_empty_update_multiple() {
    let paths = (0..=255u8)
        .map(|b| unpack(if b % 2 == 0 { B256::repeat_byte(b) } else { B256::with_last_byte(b) }))
        .collect::<Vec<_>>();
    let value = value_of(1);

    let (hash_builder_root, hash_builder_proof_nodes) = hash_builder_root_with_proofs(
        paths.iter().map(|p| (p.duplicate(), value.clone())).collect(),
        paths.iter().map(|p| p.duplicate()).collect(),
    );

    let mut sparse = RevealedSparseTrie::default();
    for path in &paths {
        sparse.update_leaf(path.duplicate(), value.clone()).unwrap();
    }
    let sparse_root = sparse.root().unwrap();

    assert_eq!(sparse_root, hash_builder_root);
    assert_eq_sparse_trie_proof_nodes(&sparse, hash_builder_proof_nodes);
}

#[test]
fn sparse_trie_empty_update_repeated() {
    let paths = (0..=255u8).map(|b| unpack(B256::repeat_byte(b))).collect::<Vec<_>>();
    let old_value = value_of(1);
    let new_value = value_of(2);

    let (hash_builder_root, hash_builder_proof_nodes) = hash_builder_root_with_proofs(
        paths.iter().map(|p| (p.duplicate(), old_value.clone())).collect(),
        paths.iter().map(|p| p.duplicate()).collect(),
    );

    let mut sparse = RevealedSparseTrie::default();
    for path in &paths {
        sparse.update_leaf(path.duplicate(), old_value.clone()).unwrap();
    }
    let sparse_root = sparse.root().unwrap();

    assert_eq!(sparse_root, hash_builder_root);
    assert_eq_sparse_trie_proof_nodes(&sparse, hash_builder_proof_nodes);

    let (hash_builder_root, hash_builder_proof_nodes) = hash_builder_root_with_proofs(
        paths.iter().map(|p| (p.duplicate(), new_value.clone())).collect(),
        paths.iter().map(|p| p.duplicate()).collect(),
    );

    for path in &paths {
        sparse.update_leaf(path.duplicate(), new_value.clone()).unwrap();
    }
    let sparse_root = sparse.root().unwrap();

    assert_eq!(sparse_root, hash_builder_root);
    assert_eq_sparse_trie_proof_nodes(&sparse, hash_builder_proof_nodes);
}

fn leaf(k: &[u8]) -> SparseNode {
    SparseNode::new_leaf(nib(k))
}

fn ext(k: &[u8]) -> SparseNode {
    SparseNode::new_ext(nib(k))
}

#[test]
fn sparse_trie_remove_leaf() {
    let mut sparse = RevealedSparseTrie::default();
    let value = value_of(0);

    sparse.update_leaf(nib(&[0x5, 0x0, 0x2, 0x3, 0x1]), value.clone()).unwrap();
    sparse.update_leaf(nib(&[0x5, 0x0, 0x2, 0x3, 0x3]), value.clone()).unwrap();
    sparse.update_leaf(nib(&[0x5, 0x2, 0x0, 0x1, 0x3]), value.clone()).unwrap();
    sparse.update_leaf(nib(&[0x5, 0x3, 0x1, 0x0, 0x2]), value.clone()).unwrap();
    sparse.update_leaf(nib(&[0x5, 0x3, 0x3, 0x0, 0x2]), value.clone()).unwrap();
    sparse.update_leaf(nib(&[0x5, 0x3, 0x3, 0x2, 0x0]), value).unwrap();

    expect_nodes(
        &sparse,
        vec![
            (Nibbles::new(), ext(&[0x5])),
            (nib(&[0x5]), SparseNode::new_branch(0b1101)),
            (nib(&[0x5, 0x0]), ext(&[0x2, 0x3])),
            (nib(&[0x5, 0x0, 0x2, 0x3]), SparseNode::new_branch(0b1010)),
            (nib(&[0x5, 0x0, 0x2, 0x3, 0x1]), leaf(&[])),
            (nib(&[0x5, 0x0, 0x2, 0x3, 0x3]), leaf(&[])),
            (nib(&[0x5, 0x2]), leaf(&[0x0, 0x1, 0x3])),
            (nib(&[0x5, 0x3]), SparseNode::new_branch(0b1010)),
            (nib(&[0x5, 0x3, 0x1]), leaf(&[0x0, 0x2])),
            (nib(&[0x5, 0x3, 0x3]), SparseNode::new_branch(0b0101)),
            (nib(&[0x5, 0x3, 0x3, 0x0]), leaf(&[0x2])),
            (nib(&[0x5, 0x3, 0x3, 0x2]), leaf(&[0x0])),
        ],
    );

    sparse.remove_leaf(nib(&[0x5, 0x2, 0x0, 0x1, 0x3])).unwrap();
    expect_nodes(
        &sparse,
        vec![
            (Nibbles::new(), ext(&[0x5])),
            (nib(&[0x5]), SparseNode::new_branch(0b1001)),
            (nib(&[0x5, 0x0]), ext(&[0x2, 0x3])),
            (nib(&[0x5, 0x0, 0x2, 0x3]), SparseNode::new_branch(0b1010)),
            (nib(&[0x5, 0x0, 0x2, 0x3, 0x1]), leaf(&[])),
            (nib(&[0x5, 0x0, 0x2, 0x3, 0x3]), leaf(&[])),
            (nib(&[0x5, 0x3]), SparseNode::new_branch(0b1010)),
            (nib(&[0x5, 0x3, 0x1]), leaf(&[0x0, 0x2])),
            (nib(&[0x5, 0x3, 0x3]), SparseNode::new_branch(0b0101)),
            (nib(&[0x5, 0x3, 0x3, 0x0]), leaf(&[0x2])),
            (nib(&[0x5, 0x3, 0x3, 0x2]), leaf(&[0x0])),
        ],
    );

    sparse.remove_leaf(nib(&[0x5, 0x0, 0x2, 0x3, 0x1])).unwrap();
    expect_nodes(
        &sparse,
        vec![
            (Nibbles::new(), ext(&[0x5])),
            (nib(&[0x5]), SparseNode::new_branch(0b1001)),
            (nib(&[0x5, 0x0]), leaf(&[0x2, 0x3, 0x3])),
            (nib(&[0x5, 0x3]), SparseNode::new_branch(0b1010)),
            (nib(&[0x5, 0x3, 0x1]), leaf(&[0x0, 0x2])),
            (nib(&[0x5, 0x3, 0x3]), SparseNode::new_branch(0b0101)),
            (nib(&[0x5, 0x3, 0x3, 0x0]), leaf(&[0x2])),
            (nib(&[0x5, 0x3, 0x3, 0x2]), leaf(&[0x0])),
        ],
    );

    sparse.remove_leaf(nib(&[0x5, 0x3, 0x1, 0x0, 0x2])).unwrap();
    expect_nodes(
        &sparse,
        vec![
            (Nibbles::new(), ext(&[0x5])),
            (nib(&[0x5]), SparseNode::new_branch(0b1001)),
            (nib(&[0x5, 0x0]), leaf(&[0x2, 0x3, 0x3])),
            (nib(&[0x5, 0x3]), ext(&[0x3])),
            (nib(&[0x5, 0x3, 0x3]), SparseNode::new_branch(0b0101)),
            (nib(&[0x5, 0x3, 0x3, 0x0]), leaf(&[0x2])),
            (nib(&[0x5, 0x3, 0x3, 0x2]), leaf(&[0x0])),
        ],
    );

    sparse.remove_leaf(nib(&[0x5, 0x3, 0x3, 0x2, 0x0])).unwrap();
    expect_nodes(
        &sparse,
        vec![
            (Nibbles::new(), ext(&[0x5])),
            (nib(&[0x5]), SparseNode::new_branch(0b1001)),
            (nib(&[0x5, 0x0]), leaf(&[0x2, 0x3, 0x3])),
            (nib(&[0x5, 0x3]), leaf(&[0x3, 0x0, 0x2])),
        ],
    );

    sparse.remove_leaf(nib(&[0x5, 0x0, 0x2, 0x3, 0x3])).unwrap();
    expect_nodes(&sparse, vec![(Nibbles::new(), leaf(&[0x5, 0x3, 0x3, 0x0, 0x2]))]);

    sparse.remove_leaf(nib(&[0x5, 0x3, 0x3, 0x0, 0x2])).unwrap();
    expect_nodes(&sparse, vec![(Nibbles::new(), SparseNode::Empty)]);
}

/// A small deterministic generator for the randomised comparison.
struct Lcg(u64);

impl Lcg {
    fn next(&mut self) -> u64 {
        self.0 = self.0.wrapping_mul(6364136223846793005).wrapping_add(1442695040888963407);
        self.0 >> 11
    }

    fn key(&mut self) -> B256 {
        let mut bytes = [0u8; 32];
        for chunk in bytes.chunks_mut(8) {
            chunk.copy_from_slice(&self.next().to_le_bytes());
        }
        B256::from(bytes)
    }
}

#[test]
fn sparse_trie_fuzz() {
    for seed in 0..4u64 {
        let mut rng = Lcg(seed);
        let mut state: std::collections::BTreeMap<B256, Vec<u8>> = Default::default();
        let mut sparse = RevealedSparseTrie::default();
        for _ in 0..4 {
            let batch = (rng.next() % 24) as usize;
            let update: Vec<(B256, Vec<u8>)> =
                (0..batch).map(|_| (rng.key(), value_of(rng.next()))).collect();
            for (key, value) in &update {
                sparse.update_leaf(unpack(*key), value.clone()).unwrap();
                state.insert(*key, value.clone());
            }
            let sparse_root = sparse.root().unwrap();
            let entries: Vec<(Nibbles, Vec<u8>)> =
                state.iter().map(|(k, v)| (unpack(*k), v.clone())).collect();
            let keys = state.keys().map(|k| unpack(*k)).collect();
            let (hash_builder_root, proof_nodes) = hash_builder_root_with_proofs(entries, keys);
            assert_eq!(sparse_root, hash_builder_root);
            assert_eq_sparse_trie_proof_nodes(&sparse, proof_nodes);

            let to_delete = update.len() / 2;
            let keys: Vec<B256> = state.keys().copied().collect();
            for i in 0..to_delete.min(keys.len()) {
                let key = keys[(rng.next() as usize + i) % keys.len()];
                if state.remove(&key).is_some() {
                    sparse.remove_leaf(unpack(key)).unwrap();
                }
            }
            let sparse_root = sparse.root().unwrap();
            let entries: Vec<(Nibbles, Vec<u8>)> =
                state.iter().map(|(k, v)| (unpack(*k), v.clone())).collect();
            let keys = state.keys().map(|k| unpack(*k)).collect();
            let (hash_builder_root, proof_nodes) = hash_builder_root_with_proofs(entries, keys);
            assert_eq!(sparse_root, hash_builder_root);
            assert_eq_sparse_trie_proof_nodes(&sparse, proof_nodes);
        }
    }
}
