use alloy_primitives::{Bytes, B256, U256};
use alloy_rlp::{Encodable, Header};
use alloy_trie::nodes::RlpNode;
use alloy_trie::proof::{ProofNodes, ProofRetainer};
use alloy_trie::{BranchNodeCompact, HashBuilder, Nibbles, TrieMask, EMPTY_ROOT_HASH, KECCAK_EMPTY};
use parallel_sparse_trie::changed::ChangedSubtrie;
use parallel_sparse_trie::node::{
    BranchNode, ExtensionNode, LeafNode, SparseNode, TrieMasks, TrieNode,
};
use parallel_sparse_trie::path::{path_subtrie_index_unchecked, SparseSubtrieType};
use parallel_sparse_trie::prefix_set::PrefixSetMut;
use parallel_sparse_trie::provider::{BlindedProvider, ProviderReply, RevealedNode};
use parallel_sparse_trie::subtrie::SparseSubtrie;
use parallel_sparse_trie::trie::ParallelSparseTrie;
use std::collections::HashMap;

/// A provider that knows the nodes it was given.
struct MockBlindedProvider {
    nodes: HashMap<Nibbles, RevealedNode>,
}

impl MockBlindedProvider {
    fn new() -> Self {
        Self { nodes: HashMap::new() }
    }

    fn add_revealed_node(&mut self, path: Nibbles, node: RevealedNode) {
        self.nodes.insert(path, node);
    }
}

impl BlindedProvider for MockBlindedProvider {
    fn blinded_node(&self, path: &Nibbles) -> ProviderReply {
        Ok(self.nodes.get(path).cloned())
    }
}

/// The RLP of an account with a nonce, no balance, no storage and no code.
fn encode_account_value(nonce: u64) -> Vec<u8> {
    let mut payload = Vec::new();
    nonce.encode(&mut payload);
    U256::ZERO.encode(&mut payload);
    EMPTY_ROOT_HASH.encode(&mut payload);
    KECCAK_EMPTY.encode(&mut payload);
    let mut buf = Vec::new();
    Header { list: true, payload_length: payload.len() }.encode(&mut buf);
    buf.extend_from_slice(&payload);
    buf
}

fn create_leaf_node(key: impl AsRef<[u8]>, value_nonce: u64) -> TrieNode {
    TrieNode::Leaf(LeafNode {
        key: Nibbles::from_nibbles(key),
        value: encode_account_value(value_nonce),
    })
}

fn create_extension_node(key: impl AsRef<[u8]>, child_hash: B256) -> TrieNode {
    TrieNode::Extension(ExtensionNode {
        key: Nibbles::from_nibbles(key),
        child: RlpNode::word_rlp(&child_hash),
    })
}

fn create_branch_node_with_children(
    children_indices: &[u8],
    child_hashes: impl IntoIterator<Item = RlpNode>,
) -> TrieNode {
    let mut stack = Vec::new();
    let mut state_mask = TrieMask::default();
    for (&idx, hash) in children_indices.iter().zip(child_hashes.into_iter()) {
        state_mask.set_bit(idx);
        stack.push(hash);
    }
    TrieNode::Branch(BranchNode { stack, state_mask })
}

/// The RLP of a node.
fn encode_node(node: &TrieNode) -> Vec<u8> {
    let mut buf = Vec::new();
    match node {
        TrieNode::EmptyRoot => alloy_trie::nodes::TrieNode::EmptyRoot.encode(&mut buf),
        TrieNode::Branch(branch) => {
            alloy_trie::nodes::BranchNode::new(branch.stack.clone(), branch.state_mask)
                .encode(&mut buf)
        }
        TrieNode::Extension(ext) => {
            alloy_trie::nodes::ExtensionNode::new(ext.key, ext.child.clone()).encode(&mut buf)
        }
        TrieNode::Leaf(leaf) => {
            alloy_trie::nodes::LeafNode::new(leaf.key, leaf.value.clone()).encode(&mut buf)
        }
    }
    buf
}

fn rlp_node(node: &TrieNode) -> RlpNode {
    RlpNode::from_rlp(&encode_node(node))
}

/// The root of the trie of some accounts, and the nodes on the way to some paths.
fn run_hash_builder(
    state: &[(Nibbles, u64)],
    proof_targets: Vec<Nibbles>,
) -> (B256, ProofNodes) {
    let mut sorted = state.to_vec();
    sorted.sort();
    let mut hash_builder = HashBuilder::default()
        .with_updates(true)
        .with_proof_retainer(ProofRetainer::new(proof_targets));
    for (path, nonce) in sorted {
        hash_builder.add_leaf(path, &encode_account_value(nonce));
    }
    let root = hash_builder.root();
    (root, hash_builder.take_proof_nodes())
}

fn proof_hash(proof_nodes: &ProofNodes, path: &Nibbles) -> B256 {
    let node: &Bytes = proof_nodes.get(path).unwrap();
    RlpNode::from_rlp(node.as_ref()).as_hash().unwrap()
}

/// A trie with the given nodes, and a value for each leaf.
fn new_test_trie(nodes: Vec<(Nibbles, SparseNode)>) -> ParallelSparseTrie {
    let mut trie = ParallelSparseTrie::default().with_updates(true);
    for (path, node) in nodes {
        let subtrie = trie.subtrie_for_path(&path);
        if let SparseNode::Leaf { key, .. } = &node {
            let mut full_key = path;
            full_key.extend(key);
            subtrie.inner.values.insert(full_key, "LEAF VALUE".into());
        }
        subtrie.nodes.insert(path, node);
    }
    trie
}

#[test]
fn test_get_changed_subtries_empty() {
    let mut trie = ParallelSparseTrie::default();
    let mut prefix_set = PrefixSetMut::from(vec![Nibbles::default()]).freeze();

    let (subtries, unchanged_prefix_set) = trie.take_changed_lower_subtries(&mut prefix_set);
    assert!(subtries.is_empty());
    assert_eq!(unchanged_prefix_set, PrefixSetMut::from(prefix_set.keys().clone()));
}

#[test]
fn test_get_changed_subtries() {
    // Create a trie with three subtries
    let mut trie = ParallelSparseTrie::default();
    let subtrie_1 = Box::new(SparseSubtrie::new(Nibbles::from_nibbles([0x0, 0x0])));
    let subtrie_1_index = path_subtrie_index_unchecked(&subtrie_1.path);
    let subtrie_2 = Box::new(SparseSubtrie::new(Nibbles::from_nibbles([0x1, 0x0])));
    let subtrie_2_index = path_subtrie_index_unchecked(&subtrie_2.path);
    let subtrie_3 = Box::new(SparseSubtrie::new(Nibbles::from_nibbles([0x3, 0x0])));
    let subtrie_3_index = path_subtrie_index_unchecked(&subtrie_3.path);

    // Add subtries at specific positions
    trie.lower_subtries[subtrie_1_index] = Some(subtrie_1.clone());
    trie.lower_subtries[subtrie_2_index] = Some(subtrie_2.clone());
    trie.lower_subtries[subtrie_3_index] = Some(subtrie_3);

    let expected_unchanged = PrefixSetMut::from(vec![
        Nibbles::from_nibbles([0x0]),
        Nibbles::from_nibbles([0x2, 0x0, 0x0]),
    ]);
    // Create a prefix set with the keys that match only the second subtrie
    let mut prefix_set = PrefixSetMut::from(vec![
        // Match second subtrie
        Nibbles::from_nibbles([0x1, 0x0, 0x0]),
        Nibbles::from_nibbles([0x1, 0x0, 0x1, 0x0]),
    ]);
    prefix_set.extend(expected_unchanged.clone());
    let mut prefix_set = prefix_set.freeze();

    // Second subtrie should be removed and returned
    let (subtries, unchanged_prefix_set) = trie.take_changed_lower_subtries(&mut prefix_set);
    assert_eq!(
        subtries
            .into_iter()
            .map(|ChangedSubtrie { index, subtrie, prefix_set }| {
                (index, subtrie, prefix_set.keys().clone())
            })
            .collect::<Vec<_>>(),
        vec![(
            subtrie_2_index,
            subtrie_2,
            vec![
                Nibbles::from_nibbles([0x1, 0x0, 0x0]),
                Nibbles::from_nibbles([0x1, 0x0, 0x1, 0x0])
            ]
        )]
    );
    assert_eq!(unchanged_prefix_set, expected_unchanged);
    assert!(trie.lower_subtries[subtrie_2_index].is_none());

    // First subtrie should remain unchanged
    assert_eq!(trie.lower_subtries[subtrie_1_index], Some(subtrie_1));
}

#[test]
fn test_get_changed_subtries_all() {
    // Create a trie with three subtries
    let mut trie = ParallelSparseTrie::default();
    let subtrie_1 = Box::new(SparseSubtrie::new(Nibbles::from_nibbles([0x0, 0x0])));
    let subtrie_1_index = path_subtrie_index_unchecked(&subtrie_1.path);
    let subtrie_2 = Box::new(SparseSubtrie::new(Nibbles::from_nibbles([0x1, 0x0])));
    let subtrie_2_index = path_subtrie_index_unchecked(&subtrie_2.path);
    let subtrie_3 = Box::new(SparseSubtrie::new(Nibbles::from_nibbles([0x3, 0x0])));
    let subtrie_3_index = path_subtrie_index_unchecked(&subtrie_3.path);

    // Add subtries at specific positions
    trie.lower_subtries[subtrie_1_index] = Some(subtrie_1.clone());
    trie.lower_subtries[subtrie_2_index] = Some(subtrie_2.clone());
    trie.lower_subtries[subtrie_3_index] = Some(subtrie_3.clone());

    // Create a prefix set that matches any key
    let mut prefix_set = PrefixSetMut::all().freeze();

    // All subtries should be removed and returned
    let (subtries, unchanged_prefix_set) = trie.take_changed_lower_subtries(&mut prefix_set);
    assert_eq!(
        subtries
            .into_iter()
            .map(|ChangedSubtrie { index, subtrie, prefix_set }| {
                (index, subtrie, prefix_set.all())
            })
            .collect::<Vec<_>>(),
        vec![
            (subtrie_1_index, subtrie_1, true),
            (subtrie_2_index, subtrie_2, true),
            (subtrie_3_index, subtrie_3, true)
        ]
    );
    assert_eq!(unchanged_prefix_set, PrefixSetMut::all());

    assert!(trie.lower_subtries.iter().all(Option::is_none));
}

#[test]
fn test_sparse_subtrie_type() {
    assert_eq!(SparseSubtrieType::from_path(&Nibbles::new()), SparseSubtrieType::Upper);
    assert_eq!(
        SparseSubtrieType::from_path(&Nibbles::from_nibbles([0])),
        SparseSubtrieType::Upper
    );
    assert_eq!(
        SparseSubtrieType::from_path(&Nibbles::from_nibbles([15])),
        SparseSubtrieType::Upper
    );
    assert_eq!(
        SparseSubtrieType::from_path(&Nibbles::from_nibbles([0, 0])),
        SparseSubtrieType::Lower(0)
    );
    assert_eq!(
        SparseSubtrieType::from_path(&Nibbles::from_nibbles([0, 0, 0])),
        SparseSubtrieType::Lower(0)
    );
    assert_eq!(
        SparseSubtrieType::from_path(&Nibbles::from_nibbles([0, 1])),
        SparseSubtrieType::Lower(1)
    );
    assert_eq!(
        SparseSubtrieType::from_path(&Nibbles::from_nibbles([0, 1, 0])),
        SparseSubtrieType::Lower(1)
    );
    assert_eq!(
        SparseSubtrieType::from_path(&Nibbles::from_nibbles([0, 15])),
        SparseSubtrieType::Lower(15)
    );
    assert_eq!(
        SparseSubtrieType::from_path(&Nibbles::from_nibbles([15, 0])),
        SparseSubtrieType::Lower(240)
    );
    assert_eq!(
        SparseSubtrieType::from_path(&Nibbles::from_nibbles([15, 1])),
        SparseSubtrieType::Lower(241)
    );
    assert_eq!(
        SparseSubtrieType::from_path(&Nibbles::from_nibbles([15, 15])),
        SparseSubtrieType::Lower(255)
    );
    assert_eq!(
        SparseSubtrieType::from_path(&Nibbles::from_nibbles([15, 15, 15])),
        SparseSubtrieType::Lower(255)
    );
}

#[test]
fn test_reveal_node_leaves() {
    let mut trie = ParallelSparseTrie::default();

    // Reveal leaf in the upper trie
    {
        let path = Nibbles::from_nibbles([0x1]);
        let node = create_leaf_node([0x2, 0x3], 42);
        let masks = TrieMasks::none();

        trie.reveal_node(path, node, masks).unwrap();

        assert!(matches!(
            trie.upper_subtrie.nodes.get(&path),
            Some(SparseNode::Leaf { key, hash: None })
            if key == &Nibbles::from_nibbles([0x2, 0x3])
        ));

        let full_path = Nibbles::from_nibbles([0x1, 0x2, 0x3]);
        assert_eq!(
            trie.upper_subtrie.inner.values.get(&full_path),
            Some(&encode_account_value(42))
        );
    }

    // Reveal leaf in a lower trie
    {
        let path = Nibbles::from_nibbles([0x1, 0x2]);
        let node = create_leaf_node([0x3, 0x4], 42);
        let masks = TrieMasks::none();

        trie.reveal_node(path, node, masks).unwrap();

        // Check that the lower subtrie was created
        let idx = path_subtrie_index_unchecked(&path);
        assert!(trie.lower_subtries[idx].is_some());

        let lower_subtrie = trie.lower_subtries[idx].as_ref().unwrap();
        assert!(matches!(
            lower_subtrie.nodes.get(&path),
            Some(SparseNode::Leaf { key, hash: None })
            if key == &Nibbles::from_nibbles([0x3, 0x4])
        ));
    }
}

#[test]
fn test_reveal_node_extension_all_upper() {
    let mut trie = ParallelSparseTrie::default();
    let path = Nibbles::new();
    let child_hash = B256::repeat_byte(0xab);
    let node = create_extension_node([0x1], child_hash);
    let masks = TrieMasks::none();

    trie.reveal_node(path, node, masks).unwrap();

    assert!(matches!(
        trie.upper_subtrie.nodes.get(&path),
        Some(SparseNode::Extension { key, hash: None, .. })
        if key == &Nibbles::from_nibbles([0x1])
    ));

    // Child path should be in upper trie
    let child_path = Nibbles::from_nibbles([0x1]);
    assert_eq!(trie.upper_subtrie.nodes.get(&child_path), Some(&SparseNode::Hash(child_hash)));
}

#[test]
fn test_reveal_node_extension_cross_level() {
    let mut trie = ParallelSparseTrie::default();
    let path = Nibbles::new();
    let child_hash = B256::repeat_byte(0xcd);
    let node = create_extension_node([0x1, 0x2, 0x3], child_hash);
    let masks = TrieMasks::none();

    trie.reveal_node(path, node, masks).unwrap();

    // Extension node should be in upper trie
    assert!(matches!(
        trie.upper_subtrie.nodes.get(&path),
        Some(SparseNode::Extension { key, hash: None, .. })
        if key == &Nibbles::from_nibbles([0x1, 0x2, 0x3])
    ));

    // Child path (0x1, 0x2, 0x3) should be in lower trie
    let child_path = Nibbles::from_nibbles([0x1, 0x2, 0x3]);
    let idx = path_subtrie_index_unchecked(&child_path);
    assert!(trie.lower_subtries[idx].is_some());

    let lower_subtrie = trie.lower_subtries[idx].as_ref().unwrap();
    assert_eq!(lower_subtrie.nodes.get(&child_path), Some(&SparseNode::Hash(child_hash)));
}

#[test]
fn test_reveal_node_extension_cross_level_boundary() {
    let mut trie = ParallelSparseTrie::default();
    let path = Nibbles::from_nibbles([0x1]);
    let child_hash = B256::repeat_byte(0xcd);
    let node = create_extension_node([0x2], child_hash);
    let masks = TrieMasks::none();

    trie.reveal_node(path, node, masks).unwrap();

    // Extension node should be in upper trie
    assert!(matches!(
        trie.upper_subtrie.nodes.get(&path),
        Some(SparseNode::Extension { key, hash: None, .. })
        if key == &Nibbles::from_nibbles([0x2])
    ));

    // Child path (0x1, 0x2) should be in lower trie
    let child_path = Nibbles::from_nibbles([0x1, 0x2]);
    let idx = path_subtrie_index_unchecked(&child_path);
    assert!(trie.lower_subtries[idx].is_some());

    let lower_subtrie = trie.lower_subtries[idx].as_ref().unwrap();
    assert_eq!(lower_subtrie.nodes.get(&child_path), Some(&SparseNode::Hash(child_hash)));
}

#[test]
fn test_reveal_node_branch_all_upper() {
    let mut trie = ParallelSparseTrie::default();
    let path = Nibbles::new();
    let child_hashes = [
        RlpNode::word_rlp(&B256::repeat_byte(0x11)),
        RlpNode::word_rlp(&B256::repeat_byte(0x22)),
    ];
    let node = create_branch_node_with_children(&[0x0, 0x5], child_hashes.clone());
    let masks = TrieMasks::none();

    trie.reveal_node(path, node, masks).unwrap();

    // Branch node should be in upper trie
    assert!(matches!(
        trie.upper_subtrie.nodes.get(&path),
        Some(SparseNode::Branch { state_mask, hash: None, .. })
        if *state_mask == TrieMask::new(0b0000000000100001)
    ));

    // Children should be in upper trie
    let child_path_0 = Nibbles::from_nibbles([0x0]);
    let child_path_5 = Nibbles::from_nibbles([0x5]);
    assert_eq!(
        trie.upper_subtrie.nodes.get(&child_path_0),
        Some(&SparseNode::Hash(child_hashes[0].as_hash().unwrap()))
    );
    assert_eq!(
        trie.upper_subtrie.nodes.get(&child_path_5),
        Some(&SparseNode::Hash(child_hashes[1].as_hash().unwrap()))
    );
}

#[test]
fn test_reveal_node_branch_cross_level() {
    let mut trie = ParallelSparseTrie::default();
    let path = Nibbles::from_nibbles([0x1]); // Exactly 1 nibble - boundary case
    let child_hashes = [
        RlpNode::word_rlp(&B256::repeat_byte(0x33)),
        RlpNode::word_rlp(&B256::repeat_byte(0x44)),
        RlpNode::word_rlp(&B256::repeat_byte(0x55)),
    ];
    let node = create_branch_node_with_children(&[0x0, 0x7, 0xf], child_hashes.clone());
    let masks = TrieMasks::none();

    trie.reveal_node(path, node, masks).unwrap();

    // Branch node should be in upper trie
    assert!(matches!(
        trie.upper_subtrie.nodes.get(&path),
        Some(SparseNode::Branch { state_mask, hash: None, .. })
        if *state_mask == TrieMask::new(0b1000000010000001)
    ));

    // All children should be in lower tries
    let child_paths = [
        Nibbles::from_nibbles([0x1, 0x0]),
        Nibbles::from_nibbles([0x1, 0x7]),
        Nibbles::from_nibbles([0x1, 0xf]),
    ];

    for (i, child_path) in child_paths.iter().enumerate() {
        let idx = path_subtrie_index_unchecked(child_path);
        let lower_subtrie = trie.lower_subtries[idx].as_ref().unwrap();
        assert_eq!(
            lower_subtrie.nodes.get(child_path),
            Some(&SparseNode::Hash(child_hashes[i].as_hash().unwrap())),
        );
    }
}

#[test]
fn test_update_subtrie_hashes() {
    // Create a trie with three subtries
    let mut trie = ParallelSparseTrie::default();
    let mut subtrie_1 = Box::new(SparseSubtrie::new(Nibbles::from_nibbles([0x0, 0x0])));
    let subtrie_1_index = path_subtrie_index_unchecked(&subtrie_1.path);
    let mut subtrie_2 = Box::new(SparseSubtrie::new(Nibbles::from_nibbles([0x1, 0x0])));
    let subtrie_2_index = path_subtrie_index_unchecked(&subtrie_2.path);
    let mut subtrie_3 = Box::new(SparseSubtrie::new(Nibbles::from_nibbles([0x3, 0x0])));
    let subtrie_3_index = path_subtrie_index_unchecked(&subtrie_3.path);

    // Reveal dummy leaf nodes that form an incorrect trie structure but enough to test the method
    let leaf_1_full_path = Nibbles::from_nibbles([0; 64]);
    let leaf_1_path = leaf_1_full_path.slice(..2);
    let leaf_1_key = leaf_1_full_path.slice(2..);
    let leaf_2_full_path = Nibbles::from_nibbles([vec![1, 0], vec![0; 62]].concat());
    let leaf_2_path = leaf_2_full_path.slice(..2);
    let leaf_2_key = leaf_2_full_path.slice(2..);
    let leaf_3_full_path = Nibbles::from_nibbles([vec![3, 0], vec![0; 62]].concat());
    let leaf_3_path = leaf_3_full_path.slice(..2);
    let leaf_3_key = leaf_3_full_path.slice(2..);
    let leaf_1 = create_leaf_node(leaf_1_key.to_vec(), 1);
    let leaf_2 = create_leaf_node(leaf_2_key.to_vec(), 2);
    let leaf_3 = create_leaf_node(leaf_3_key.to_vec(), 3);
    subtrie_1.reveal_node(leaf_1_path, &leaf_1, TrieMasks::none()).unwrap();
    subtrie_2.reveal_node(leaf_2_path, &leaf_2, TrieMasks::none()).unwrap();
    subtrie_3.reveal_node(leaf_3_path, &leaf_3, TrieMasks::none()).unwrap();

    // Add subtries at specific positions
    trie.lower_subtries[subtrie_1_index] = Some(subtrie_1);
    trie.lower_subtries[subtrie_2_index] = Some(subtrie_2);
    trie.lower_subtries[subtrie_3_index] = Some(subtrie_3);

    let unchanged_prefix_set = PrefixSetMut::from(vec![
        Nibbles::from_nibbles([0x0]),
        Nibbles::from_nibbles([0x2, 0x0, 0x0]),
    ]);
    // Create a prefix set with the keys that match only the second subtrie
    let mut prefix_set = PrefixSetMut::from(vec![
        // Match second subtrie
        Nibbles::from_nibbles([0x1, 0x0, 0x0]),
        Nibbles::from_nibbles([0x1, 0x0, 0x1, 0x0]),
    ]);
    prefix_set.extend(unchanged_prefix_set.clone());
    trie.prefix_set = prefix_set;

    // Update subtrie hashes
    trie.update_lower_subtrie_hashes();

    // Check that the prefix set was updated
    assert_eq!(trie.prefix_set, unchanged_prefix_set);
    // Check that subtries were returned back to the array
    assert!(trie.lower_subtries[subtrie_1_index].is_some());
    assert!(trie.lower_subtries[subtrie_2_index].is_some());
    assert!(trie.lower_subtries[subtrie_3_index].is_some());
}

#[test]
fn test_subtrie_update_hashes() {
    let mut subtrie =
        Box::new(SparseSubtrie::new(Nibbles::from_nibbles([0x0, 0x0])).with_updates(true));

    // Create leaf nodes with paths 0x0...0, 0x00001...0, 0x0010...0
    let leaf_1_full_path = Nibbles::from_nibbles([0; 64]);
    let leaf_1_path = leaf_1_full_path.slice(..5);
    let leaf_1_key = leaf_1_full_path.slice(5..);
    let leaf_2_full_path = Nibbles::from_nibbles([vec![0, 0, 0, 0, 1], vec![0; 59]].concat());
    let leaf_2_path = leaf_2_full_path.slice(..5);
    let leaf_2_key = leaf_2_full_path.slice(5..);
    let leaf_3_full_path = Nibbles::from_nibbles([vec![0, 0, 1], vec![0; 61]].concat());
    let leaf_3_path = leaf_3_full_path.slice(..3);
    let leaf_3_key = leaf_3_full_path.slice(3..);

    let leaf_1 = create_leaf_node(leaf_1_key.to_vec(), 1);
    let leaf_2 = create_leaf_node(leaf_2_key.to_vec(), 2);
    let leaf_3 = create_leaf_node(leaf_3_key.to_vec(), 3);

    // Create bottom branch node
    let branch_1_path = Nibbles::from_nibbles([0, 0, 0, 0]);
    let branch_1 =
        create_branch_node_with_children(&[0, 1], vec![rlp_node(&leaf_1), rlp_node(&leaf_2)]);

    // Create an extension node
    let extension_path = Nibbles::from_nibbles([0, 0, 0]);
    let extension_key = Nibbles::from_nibbles([0]);
    let extension = create_extension_node(
        extension_key.to_vec(),
        rlp_node(&branch_1).as_hash().unwrap(),
    );

    // Create top branch node
    let branch_2_path = Nibbles::from_nibbles([0, 0]);
    let branch_2 =
        create_branch_node_with_children(&[0, 1], vec![rlp_node(&extension), rlp_node(&leaf_3)]);

    // Reveal nodes
    subtrie.reveal_node(branch_2_path, &branch_2, TrieMasks::none()).unwrap();
    subtrie.reveal_node(leaf_1_path, &leaf_1, TrieMasks::none()).unwrap();
    subtrie.reveal_node(extension_path, &extension, TrieMasks::none()).unwrap();
    subtrie.reveal_node(branch_1_path, &branch_1, TrieMasks::none()).unwrap();
    subtrie.reveal_node(leaf_2_path, &leaf_2, TrieMasks::none()).unwrap();
    subtrie.reveal_node(leaf_3_path, &leaf_3, TrieMasks::none()).unwrap();

    // Run hash builder for the leaf nodes
    let (_, proof_nodes) = run_hash_builder(
        &[(leaf_1_full_path, 1), (leaf_2_full_path, 2), (leaf_3_full_path, 3)],
        vec![
            branch_1_path,
            extension_path,
            branch_2_path,
            leaf_1_full_path,
            leaf_2_full_path,
            leaf_3_full_path,
        ],
    );

    // Update hashes for the subtrie
    subtrie.update_hashes(
        &mut PrefixSetMut::from(vec![leaf_1_full_path, leaf_2_full_path, leaf_3_full_path])
            .freeze(),
    );

    // Compare hashes between hash builder and subtrie
    let hash_at = |path: &Nibbles| subtrie.nodes.get(path).unwrap().hash().unwrap();
    assert_eq!(proof_hash(&proof_nodes, &branch_1_path), hash_at(&branch_1_path));
    assert_eq!(proof_hash(&proof_nodes, &extension_path), hash_at(&extension_path));
    assert_eq!(proof_hash(&proof_nodes, &branch_2_path), hash_at(&branch_2_path));
    assert_eq!(proof_hash(&proof_nodes, &leaf_1_path), hash_at(&leaf_1_path));
    assert_eq!(proof_hash(&proof_nodes, &leaf_2_path), hash_at(&leaf_2_path));
    assert_eq!(proof_hash(&proof_nodes, &leaf_3_path), hash_at(&leaf_3_path));
}

#[test]
fn test_remove_leaf_branch_becomes_extension() {
    //
    // 0x:      Extension (Key = 5)
    // 0x5:     └── Branch (Mask = 1001)
    // 0x50:        ├── 0 -> Extension (Key = 23)
    // 0x5023:      │        └── Branch (Mask = 0101)
    // 0x50231:     │            ├── 1 -> Leaf
    // 0x50233:     │            └── 3 -> Leaf
    // 0x53:        └── 3 -> Leaf (Key = 7)
    //
    // After removing 0x53, extension+branch+extension become a single extension
    //
    let mut trie = new_test_trie(vec![
        (Nibbles::default(), SparseNode::new_ext(Nibbles::from_nibbles([0x5]))),
        (Nibbles::from_nibbles([0x5]), SparseNode::new_branch(TrieMask::new(0b1001))),
        (
            Nibbles::from_nibbles([0x5, 0x0]),
            SparseNode::new_ext(Nibbles::from_nibbles([0x2, 0x3])),
        ),
        (
            Nibbles::from_nibbles([0x5, 0x0, 0x2, 0x3]),
            SparseNode::new_branch(TrieMask::new(0b0101)),
        ),
        (
            Nibbles::from_nibbles([0x5, 0x0, 0x2, 0x3, 0x1]),
            SparseNode::new_leaf(Nibbles::new()),
        ),
        (
            Nibbles::from_nibbles([0x5, 0x0, 0x2, 0x3, 0x3]),
            SparseNode::new_leaf(Nibbles::new()),
        ),
        (Nibbles::from_nibbles([0x5, 0x3]), SparseNode::new_leaf(Nibbles::from_nibbles([0x7]))),
    ]);

    let provider = MockBlindedProvider::new();

    // Remove the leaf with a full path of 0x537
    let leaf_full_path = Nibbles::from_nibbles([0x5, 0x3, 0x7]);
    trie.remove_leaf(&leaf_full_path, provider).unwrap();

    let upper_subtrie = &trie.upper_subtrie;
    let lower_subtrie_50 = trie.lower_subtries[0x50].as_ref().unwrap();
    let lower_subtrie_53 = trie.lower_subtries[0x53].as_ref().unwrap();

    // Check that the leaf value was removed from the appropriate subtrie.
    assert!(lower_subtrie_53.inner.values.get(&leaf_full_path).is_none());

    // Check that the leaf node was removed, and that its parent/grandparent were modified
    // appropriately.
    assert!(matches!(
        upper_subtrie.nodes.get(&Nibbles::from_nibbles([])),
        Some(SparseNode::Extension { key, .. })
        if key == &Nibbles::from_nibbles([0x5, 0x0, 0x2, 0x3])
    ));
    assert!(upper_subtrie.nodes.get(&Nibbles::from_nibbles([0x5])).is_none());
    assert!(lower_subtrie_50.nodes.get(&Nibbles::from_nibbles([0x5, 0x0])).is_none());
    assert!(matches!(
        lower_subtrie_50.nodes.get(&Nibbles::from_nibbles([0x5, 0x0, 0x2, 0x3])),
        Some(SparseNode::Branch { state_mask, .. })
        if *state_mask == TrieMask::new(0b0101)
    ));
    assert!(lower_subtrie_53.nodes.get(&Nibbles::from_nibbles([0x5, 0x3])).is_none());
}

#[test]
fn test_remove_leaf_branch_becomes_leaf() {
    //
    // 0x:      Branch (Mask = 0011)
    // 0x0:     ├── 0 -> Leaf (Key = 12)
    // 0x1:     └── 1 -> Leaf (Key = 34)
    //
    // After removing 0x012, branch becomes a leaf
    //
    let mut trie = new_test_trie(vec![
        (Nibbles::default(), SparseNode::new_branch(TrieMask::new(0b0011))),
        (
            Nibbles::from_nibbles([0x0]),
            SparseNode::new_leaf(Nibbles::from_nibbles([0x1, 0x2])),
        ),
        (
            Nibbles::from_nibbles([0x1]),
            SparseNode::new_leaf(Nibbles::from_nibbles([0x3, 0x4])),
        ),
    ]);

    // Add the branch node to updated_nodes to simulate it being modified earlier
    if let Some(updates) = trie.updates.as_mut() {
        updates
            .updated_nodes
            .insert(Nibbles::default(), BranchNodeCompact::new(0b11, 0, 0, vec![], None));
    }

    let provider = MockBlindedProvider::new();

    // Remove the leaf with a full path of 0x012
    let leaf_full_path = Nibbles::from_nibbles([0x0, 0x1, 0x2]);
    trie.remove_leaf(&leaf_full_path, provider).unwrap();

    let upper_subtrie = &trie.upper_subtrie;

    // Check that the leaf's value was removed
    assert!(upper_subtrie.inner.values.get(&leaf_full_path).is_none());

    // Check that the branch node collapsed into a leaf node with the remaining child's key
    assert!(matches!(
        upper_subtrie.nodes.get(&Nibbles::default()),
        Some(SparseNode::Leaf { key, .. })
        if key == &Nibbles::from_nibbles([0x1, 0x3, 0x4])
    ));

    // Check that the remaining child node was removed
    assert!(upper_subtrie.nodes.get(&Nibbles::from_nibbles([0x1])).is_none());
    // Check that the removed child node was also removed
    assert!(upper_subtrie.nodes.get(&Nibbles::from_nibbles([0x0])).is_none());

    // Check that updates were tracked correctly when branch collapsed
    let updates = trie.updates.as_ref().unwrap();

    // The branch at root should be marked as removed since it collapsed
    assert!(updates.removed_nodes.contains(&Nibbles::default()));

    // The branch should no longer be in updated_nodes
    assert!(!updates.updated_nodes.contains_key(&Nibbles::default()));
}

#[test]
fn test_remove_leaf_extension_becomes_leaf() {
    //
    // 0x:      Extension (Key = 5)
    // 0x5:     └── Branch (Mask = 0011)
    // 0x50:        ├── 0 -> Leaf (Key = 12)
    // 0x51:        └── 1 -> Leaf (Key = 34)
    //
    // After removing 0x5012, extension+branch becomes a leaf
    //
    let mut trie = new_test_trie(vec![
        (Nibbles::default(), SparseNode::new_ext(Nibbles::from_nibbles([0x5]))),
        (Nibbles::from_nibbles([0x5]), SparseNode::new_branch(TrieMask::new(0b0011))),
        (
            Nibbles::from_nibbles([0x5, 0x0]),
            SparseNode::new_leaf(Nibbles::from_nibbles([0x1, 0x2])),
        ),
        (
            Nibbles::from_nibbles([0x5, 0x1]),
            SparseNode::new_leaf(Nibbles::from_nibbles([0x3, 0x4])),
        ),
    ]);

    let provider = MockBlindedProvider::new();

    // Remove the leaf with a full path of 0x5012
    let leaf_full_path = Nibbles::from_nibbles([0x5, 0x0, 0x1, 0x2]);
    trie.remove_leaf(&leaf_full_path, provider).unwrap();

    let upper_subtrie = &trie.upper_subtrie;
    let lower_subtrie_50 = trie.lower_subtries[0x50].as_ref().unwrap();
    let lower_subtrie_51 = trie.lower_subtries[0x51].as_ref().unwrap();

    // Check that the full key was removed
    assert!(lower_subtrie_50.inner.values.get(&leaf_full_path).is_none());

    // Check that the other leaf's value was moved to the upper trie
    let other_leaf_full_value = Nibbles::from_nibbles([0x5, 0x1, 0x3, 0x4]);
    assert!(lower_subtrie_51.inner.values.get(&other_leaf_full_value).is_none());
    assert!(upper_subtrie.inner.values.get(&other_leaf_full_value).is_some());

    // Check that the extension node collapsed into a leaf node
    assert!(matches!(
        upper_subtrie.nodes.get(&Nibbles::default()),
        Some(SparseNode::Leaf { key, .. })
        if key == &Nibbles::from_nibbles([0x5, 0x1, 0x3, 0x4])
    ));

    // Check that intermediate nodes were removed
    assert!(upper_subtrie.nodes.get(&Nibbles::from_nibbles([0x5])).is_none());
    assert!(lower_subtrie_50.nodes.get(&Nibbles::from_nibbles([0x5, 0x0])).is_none());
    assert!(lower_subtrie_51.nodes.get(&Nibbles::from_nibbles([0x5, 0x1])).is_none());
}

#[test]
fn test_remove_leaf_branch_on_branch() {
    //
    // 0x:      Branch (Mask = 0101)
    // 0x0:     ├── 0 -> Leaf (Key = 12)
    // 0x2:     └── 2 -> Branch (Mask = 0011)
    // 0x20:        ├── 0 -> Leaf (Key = 34)
    // 0x21:        └── 1 -> Leaf (Key = 56)
    //
    // After removing 0x2034, the inner branch becomes a leaf
    //
    let mut trie = new_test_trie(vec![
        (Nibbles::default(), SparseNode::new_branch(TrieMask::new(0b0101))),
        (
            Nibbles::from_nibbles([0x0]),
            SparseNode::new_leaf(Nibbles::from_nibbles([0x1, 0x2])),
        ),
        (Nibbles::from_nibbles([0x2]), SparseNode::new_branch(TrieMask::new(0b0011))),
        (
            Nibbles::from_nibbles([0x2, 0x0]),
            SparseNode::new_leaf(Nibbles::from_nibbles([0x3, 0x4])),
        ),
        (
            Nibbles::from_nibbles([0x2, 0x1]),
            SparseNode::new_leaf(Nibbles::from_nibbles([0x5, 0x6])),
        ),
    ]);

    let provider = MockBlindedProvider::new();

    // Remove the leaf with a full path of 0x2034
    let leaf_full_path = Nibbles::from_nibbles([0x2, 0x0, 0x3, 0x4]);
    trie.remove_leaf(&leaf_full_path, provider).unwrap();

    let upper_subtrie = &trie.upper_subtrie;
    let lower_subtrie_20 = trie.lower_subtries[0x20].as_ref().unwrap();
    let lower_subtrie_21 = trie.lower_subtries[0x21].as_ref().unwrap();

    // Check that the leaf's value was removed
    assert!(lower_subtrie_20.inner.values.get(&leaf_full_path).is_none());

    // Check that the other leaf's value was moved to the upper trie
    let other_leaf_full_value = Nibbles::from_nibbles([0x2, 0x1, 0x5, 0x6]);
    assert!(lower_subtrie_21.inner.values.get(&other_leaf_full_value).is_none());
    assert!(upper_subtrie.inner.values.get(&other_leaf_full_value).is_some());

    // Check that the root branch still exists unchanged
    assert!(matches!(
        upper_subtrie.nodes.get(&Nibbles::default()),
        Some(SparseNode::Branch { state_mask, .. })
        if *state_mask == TrieMask::new(0b0101)
    ));

    // Check that the inner branch became a leaf
    assert!(matches!(
        upper_subtrie.nodes.get(&Nibbles::from_nibbles([0x2])),
        Some(SparseNode::Leaf { key, .. })
        if key == &Nibbles::from_nibbles([0x1, 0x5, 0x6])
    ));

    // Check that the branch's child nodes were removed
    assert!(lower_subtrie_20.nodes.get(&Nibbles::from_nibbles([0x2, 0x0])).is_none());
    assert!(lower_subtrie_21.nodes.get(&Nibbles::from_nibbles([0x2, 0x1])).is_none());
}

#[test]
fn test_remove_leaf_remaining_child_needs_reveal() {
    //
    // 0x:      Branch (Mask = 0011)
    // 0x0:     ├── 0 -> Leaf (Key = 12)
    // 0x1:     └── 1 -> Hash (blinded leaf)
    //
    // After removing 0x012, the hash node needs to be revealed to collapse the branch
    //
    let mut trie = new_test_trie(vec![
        (Nibbles::default(), SparseNode::new_branch(TrieMask::new(0b0011))),
        (
            Nibbles::from_nibbles([0x0]),
            SparseNode::new_leaf(Nibbles::from_nibbles([0x1, 0x2])),
        ),
        (Nibbles::from_nibbles([0x1]), SparseNode::Hash(B256::repeat_byte(0xab))),
    ]);

    // Create a mock provider that will reveal the blinded leaf
    let mut provider = MockBlindedProvider::new();
    let revealed_leaf = create_leaf_node([0x3, 0x4], 42);
    provider.add_revealed_node(
        Nibbles::from_nibbles([0x1]),
        RevealedNode { node: encode_node(&revealed_leaf), tree_mask: None, hash_mask: None },
    );

    // Remove the leaf with a full path of 0x012
    let leaf_full_path = Nibbles::from_nibbles([0x0, 0x1, 0x2]);
    trie.remove_leaf(&leaf_full_path, provider).unwrap();

    let upper_subtrie = &trie.upper_subtrie;

    // Check that the leaf value was removed
    assert!(upper_subtrie.inner.values.get(&leaf_full_path).is_none());

    // Check that the branch node collapsed into a leaf node with the revealed child's key
    assert!(matches!(
        upper_subtrie.nodes.get(&Nibbles::default()),
        Some(SparseNode::Leaf { key, .. })
        if key == &Nibbles::from_nibbles([0x1, 0x3, 0x4])
    ));

    // Check that the remaining child node was removed (since it was merged)
    assert!(upper_subtrie.nodes.get(&Nibbles::from_nibbles([0x1])).is_none());
}

#[test]
fn test_remove_leaf_root() {
    //
    // 0x:      Leaf (Key = 123)
    //
    // After removing 0x123, the trie becomes empty
    //
    let mut trie = new_test_trie(vec![(
        Nibbles::default(),
        SparseNode::new_leaf(Nibbles::from_nibbles([0x1, 0x2, 0x3])),
    )]);

    let provider = MockBlindedProvider::new();

    // Remove the leaf with a full key of 0x123
    let leaf_full_path = Nibbles::from_nibbles([0x1, 0x2, 0x3]);
    trie.remove_leaf(&leaf_full_path, provider).unwrap();

    let upper_subtrie = &trie.upper_subtrie;

    // Check that the leaf value was removed
    assert!(upper_subtrie.inner.values.get(&leaf_full_path).is_none());

    // Check that the root node was changed to Empty
    assert!(matches!(upper_subtrie.nodes.get(&Nibbles::default()), Some(SparseNode::Empty)));
}

#[test]
fn test_remove_leaf_unsets_hash_along_path() {
    //
    // Creates a trie structure:
    // 0x:      Branch (with hash set)
    // 0x0:     ├── Extension (with hash set)
    // 0x01:    │   └── Branch (with hash set)
    // 0x012:   │       ├── Leaf (Key = 34, with hash set)
    // 0x013:   │       ├── Leaf (Key = 56, with hash set)
    // 0x014:   │       └── Leaf (Key = 78, with hash set)
    // 0x1:     └── Leaf (Key = 78, with hash set)
    //
    // When removing leaf at 0x01234, all nodes along the path (root branch,
    // extension at 0x0, branch at 0x01) should have their hash field unset
    //
    let mut trie = new_test_trie(vec![
        (
            Nibbles::default(),
            SparseNode::Branch {
                state_mask: TrieMask::new(0b0011),
                hash: Some(B256::repeat_byte(0x10)),
                store_in_db_trie: None,
            },
        ),
        (
            Nibbles::from_nibbles([0x0]),
            SparseNode::Extension {
                key: Nibbles::from_nibbles([0x1]),
                hash: Some(B256::repeat_byte(0x20)),
                store_in_db_trie: None,
            },
        ),
        (
            Nibbles::from_nibbles([0x0, 0x1]),
            SparseNode::Branch {
                state_mask: TrieMask::new(0b11100),
                hash: Some(B256::repeat_byte(0x30)),
                store_in_db_trie: None,
            },
        ),
        (
            Nibbles::from_nibbles([0x0, 0x1, 0x2]),
            SparseNode::Leaf {
                key: Nibbles::from_nibbles([0x3, 0x4]),
                hash: Some(B256::repeat_byte(0x40)),
            },
        ),
        (
            Nibbles::from_nibbles([0x0, 0x1, 0x3]),
            SparseNode::Leaf {
                key: Nibbles::from_nibbles([0x5, 0x6]),
                hash: Some(B256::repeat_byte(0x50)),
            },
        ),
        (
            Nibbles::from_nibbles([0x0, 0x1, 0x4]),
            SparseNode::Leaf {
                key: Nibbles::from_nibbles([0x6, 0x7]),
                hash: Some(B256::repeat_byte(0x60)),
            },
        ),
        (
            Nibbles::from_nibbles([0x1]),
            SparseNode::Leaf {
                key: Nibbles::from_nibbles([0x7, 0x8]),
                hash: Some(B256::repeat_byte(0x70)),
            },
        ),
    ]);

    let provider = MockBlindedProvider::new();

    // Remove the leaf at path 0x01234
    let leaf_full_path = Nibbles::from_nibbles([0x0, 0x1, 0x2, 0x3, 0x4]);
    trie.remove_leaf(&leaf_full_path, provider).unwrap();

    let upper_subtrie = &trie.upper_subtrie;
    let lower_subtrie_10 = trie.lower_subtries[0x01].as_ref().unwrap();

    // Verify that hash fields are unset for all nodes along the path to the removed leaf
    assert!(matches!(
        upper_subtrie.nodes.get(&Nibbles::default()),
        Some(SparseNode::Branch { hash: None, .. })
    ));
    assert!(matches!(
        upper_subtrie.nodes.get(&Nibbles::from_nibbles([0x0])),
        Some(SparseNode::Extension { hash: None, .. })
    ));
    assert!(matches!(
        lower_subtrie_10.nodes.get(&Nibbles::from_nibbles([0x0, 0x1])),
        Some(SparseNode::Branch { hash: None, .. })
    ));

    // Verify that nodes not on the path still have their hashes
    assert!(matches!(
        upper_subtrie.nodes.get(&Nibbles::from_nibbles([0x1])),
        Some(SparseNode::Leaf { hash: Some(_), .. })
    ));
    assert!(matches!(
        lower_subtrie_10.nodes.get(&Nibbles::from_nibbles([0x0, 0x1, 0x3])),
        Some(SparseNode::Leaf { hash: Some(_), .. })
    ));
    assert!(matches!(
        lower_subtrie_10.nodes.get(&Nibbles::from_nibbles([0x0, 0x1, 0x4])),
        Some(SparseNode::Leaf { hash: Some(_), .. })
    ));
}

#[test]
fn test_parallel_sparse_trie_root() {
    let mut trie = ParallelSparseTrie::default().with_updates(true);

    // Step 1: Create the trie structure
    // Extension node at 0x with key 0x2 (goes to upper subtrie)
    let extension_path = Nibbles::new();
    let extension_key = Nibbles::from_nibbles([0x2]);

    // Branch node at 0x2 with children 0 and 1 (goes to upper subtrie)
    let branch_path = Nibbles::from_nibbles([0x2]);

    // Leaf nodes at 0x20 and 0x21 (go to lower subtries)
    let leaf_1_path = Nibbles::from_nibbles([0x2, 0x0]);
    let leaf_1_key = Nibbles::from_nibbles(vec![0; 62]); // Remaining key
    let leaf_1_full_path = Nibbles::from_nibbles([vec![0x2, 0x0], vec![0; 62]].concat());

    let leaf_2_path = Nibbles::from_nibbles([0x2, 0x1]);
    let leaf_2_key = Nibbles::from_nibbles(vec![0; 62]); // Remaining key
    let leaf_2_full_path = Nibbles::from_nibbles([vec![0x2, 0x1], vec![0; 62]].concat());

    // Create leaf nodes
    let leaf_1 = create_leaf_node(leaf_1_key.to_vec(), 1);
    let leaf_2 = create_leaf_node(leaf_2_key.to_vec(), 2);

    // Create branch node with children at indices 0 and 1
    let branch =
        create_branch_node_with_children(&[0, 1], vec![rlp_node(&leaf_1), rlp_node(&leaf_2)]);

    // Create extension node pointing to branch
    let extension = create_extension_node(
        extension_key.to_vec(),
        rlp_node(&branch).as_hash().unwrap(),
    );

    // Step 2: Reveal nodes in the trie
    trie.reveal_node(extension_path, extension, TrieMasks::none()).unwrap();
    trie.reveal_node(branch_path, branch, TrieMasks::none()).unwrap();
    trie.reveal_node(leaf_1_path, leaf_1, TrieMasks::none()).unwrap();
    trie.reveal_node(leaf_2_path, leaf_2, TrieMasks::none()).unwrap();

    // Step 3: Reset hashes for all revealed nodes to test actual hash calculation
    // Reset upper subtrie node hashes
    trie.upper_subtrie.nodes.get_mut(&extension_path).unwrap().set_hash(None);
    trie.upper_subtrie.nodes.get_mut(&branch_path).unwrap().set_hash(None);

    // Reset lower subtrie node hashes
    let leaf_1_subtrie_idx = path_subtrie_index_unchecked(&leaf_1_path);
    let leaf_2_subtrie_idx = path_subtrie_index_unchecked(&leaf_2_path);

    trie.lower_subtries[leaf_1_subtrie_idx]
        .as_mut()
        .unwrap()
        .nodes
        .get_mut(&leaf_1_path)
        .unwrap()
        .set_hash(None);
    trie.lower_subtries[leaf_2_subtrie_idx]
        .as_mut()
        .unwrap()
        .nodes
        .get_mut(&leaf_2_path)
        .unwrap()
        .set_hash(None);

    // Step 4: Add changed leaf node paths to prefix set
    trie.prefix_set.insert(leaf_1_full_path);
    trie.prefix_set.insert(leaf_2_full_path);

    // Step 5: Calculate root using our implementation
    let root = trie.root();

    // Step 6: Calculate root using HashBuilder for comparison
    let (hash_builder_root, _proof_nodes) = run_hash_builder(
        &[(leaf_1_full_path, 1), (leaf_2_full_path, 2)],
        vec![extension_path, branch_path, leaf_1_full_path, leaf_2_full_path],
    );

    // Step 7: Verify the roots match
    assert_eq!(root, hash_builder_root);

    // Verify hashes were computed
    let leaf_1_subtrie = trie.lower_subtries[leaf_1_subtrie_idx].as_ref().unwrap();
    let leaf_2_subtrie = trie.lower_subtries[leaf_2_subtrie_idx].as_ref().unwrap();
    assert!(trie.upper_subtrie.nodes.get(&extension_path).unwrap().hash().is_some());
    assert!(trie.upper_subtrie.nodes.get(&branch_path).unwrap().hash().is_some());
    assert!(leaf_1_subtrie.nodes.get(&leaf_1_path).unwrap().hash().is_some());
    assert!(leaf_2_subtrie.nodes.get(&leaf_2_path).unwrap().hash().is_some());
}
