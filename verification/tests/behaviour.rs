use alloy_primitives::{keccak256, Bytes, B256};
use alloy_rlp::{Decodable, Encodable};
use alloy_trie::nodes::RlpNode;
use alloy_trie::proof::ProofRetainer;
use alloy_trie::{BranchNodeCompact, HashBuilder, Nibbles, TrieMask, EMPTY_ROOT_HASH};
use parallel_sparse_trie::error::SparseTrieErrorKind;
use parallel_sparse_trie::node::{
    BranchNode, ExtensionNode, LeafNode, SparseNode, TrieMasks, TrieNode,
};
use parallel_sparse_trie::path::{SparseSubtrieType, NUM_LOWER_SUBTRIES, UPPER_TRIE_MAX_DEPTH};
use parallel_sparse_trie::path_map::{PathMap, PathSet};
use parallel_sparse_trie::prefix_set::PrefixSetMut;
use parallel_sparse_trie::provider::{BlindedProvider, ProviderReply, RevealedNode};
use parallel_sparse_trie::remove::FindNextToLeafOutcome;
use parallel_sparse_trie::subtrie::SparseSubtrie;
use parallel_sparse_trie::trie::ParallelSparseTrie;
use parallel_sparse_trie::updates::SparseTrieUpdates;

/// A provider that answers every question in the same way.
struct Answers(fn() -> ProviderReply);

impl BlindedProvider for Answers {
    fn blinded_node(&self, _path: &Nibbles) -> ProviderReply {
        (self.0)()
    }
}

/// A provider that must not be asked.
fn nobody() -> Answers {
    Answers(|| panic!("the provider is not asked"))
}

fn nibbles(path: &[u8]) -> Nibbles {
    Nibbles::from_nibbles(path)
}

/// A full path: the given nibbles, then zeros.
fn full(start: &[u8]) -> Nibbles {
    let mut path = start.to_vec();
    path.resize(64, 0);
    Nibbles::from_nibbles(path)
}

/// A value that is too long for its node to be embedded in another one.
fn value(n: u8) -> Vec<u8> {
    vec![n; 40]
}

fn to_library(node: alloy_trie::nodes::TrieNode) -> TrieNode {
    match node {
        alloy_trie::nodes::TrieNode::EmptyRoot => TrieNode::EmptyRoot,
        alloy_trie::nodes::TrieNode::Branch(branch) => TrieNode::Branch(BranchNode {
            stack: branch.stack,
            state_mask: branch.state_mask,
        }),
        alloy_trie::nodes::TrieNode::Extension(ext) => {
            TrieNode::Extension(ExtensionNode { key: ext.key, child: ext.child })
        }
        alloy_trie::nodes::TrieNode::Leaf(leaf) => {
            TrieNode::Leaf(LeafNode { key: leaf.key, value: leaf.value })
        }
    }
}

fn decode(rlp: &Bytes) -> TrieNode {
    to_library(alloy_trie::nodes::TrieNode::decode(&mut rlp.as_ref()).unwrap())
}

/// The root hash of the trie with the given leaves, and the nodes on the ways to all of them, from
/// the root down.
fn built(leaves: &[(Nibbles, Vec<u8>)]) -> (B256, Vec<(Nibbles, Bytes)>) {
    let mut sorted = leaves.to_vec();
    sorted.sort();
    let targets = sorted.iter().map(|(path, _)| *path).collect();
    let mut builder =
        HashBuilder::default().with_proof_retainer(ProofRetainer::new(targets));
    for (path, value) in sorted {
        builder.add_leaf(path, &value);
    }
    let root = builder.root();
    (root, builder.take_proof_nodes().into_nodes_sorted())
}

/// A trie in which all nodes with the given leaves are revealed.
fn revealed(leaves: &[(Nibbles, Vec<u8>)]) -> ParallelSparseTrie {
    let (_, nodes) = built(leaves);
    let mut nodes = nodes.into_iter();
    let (_, root) = nodes.next().unwrap();
    let mut trie = ParallelSparseTrie::from_root(decode(&root), TrieMasks::none(), false).unwrap();
    for (path, node) in nodes {
        trie.reveal_node(path, decode(&node), TrieMasks::none()).unwrap();
    }
    trie
}

/// Leaves in three lower subtries.
fn leaves() -> Vec<(Nibbles, Vec<u8>)> {
    vec![
        (full(&[0x1, 0x2, 0x3, 0x4]), value(1)),
        (full(&[0x1, 0x2, 0x3, 0x5]), value(2)),
        (full(&[0x1, 0x2, 0x7]), value(3)),
        (full(&[0x1, 0x8]), value(4)),
        (full(&[0x6, 0x1]), value(5)),
        (full(&[0x6, 0x2]), value(6)),
    ]
}

fn without(leaves: &[(Nibbles, Vec<u8>)], path: &Nibbles) -> Vec<(Nibbles, Vec<u8>)> {
    leaves.iter().filter(|(p, _)| p != path).cloned().collect()
}

/// Looks up the value of a leaf, as the way through the nodes leads to it.
fn lookup(trie: &ParallelSparseTrie, path: &Nibbles) -> Option<Vec<u8>> {
    let mut at = Nibbles::new();
    loop {
        let subtrie = match SparseSubtrieType::from_path(&at) {
            SparseSubtrieType::Upper => &trie.upper_subtrie,
            SparseSubtrieType::Lower(index) => trie.lower_subtries[index].as_ref().unwrap(),
        };
        let node = subtrie.nodes.get(&at).unwrap();
        match ParallelSparseTrie::find_next_to_leaf(&at, node, path).unwrap() {
            FindNextToLeafOutcome::Found => return subtrie.inner.values.get(path).cloned(),
            FindNextToLeafOutcome::NotFound => return None,
            FindNextToLeafOutcome::ContinueFrom(next) => at = next,
        }
    }
}

fn leaf_node(key: &[u8], value: Vec<u8>) -> TrieNode {
    TrieNode::Leaf(LeafNode { key: nibbles(key), value })
}

fn encoded_leaf(key: &[u8], value: Vec<u8>) -> Vec<u8> {
    let mut rlp = Vec::new();
    alloy_trie::nodes::LeafNode::new(nibbles(key), value).encode(&mut rlp);
    rlp
}

fn branch_of(children: &[(u8, RlpNode)]) -> TrieNode {
    let mut state_mask = TrieMask::default();
    let mut stack = Vec::new();
    for (nibble, child) in children {
        state_mask.set_bit(*nibble);
        stack.push(child.clone());
    }
    TrieNode::Branch(BranchNode { stack, state_mask })
}

/// A trie with the given nodes, each leaf with a value.
fn trie_of(nodes: Vec<(&[u8], SparseNode)>) -> ParallelSparseTrie {
    let mut trie = ParallelSparseTrie::default().with_updates(true);
    for (path, node) in nodes {
        let path = nibbles(path);
        let subtrie = trie.subtrie_for_path(&path);
        if let SparseNode::Leaf { key, .. } = &node {
            let mut full = path;
            full.extend(key);
            subtrie.inner.values.insert(full, value(9));
        }
        subtrie.nodes.insert(path, node);
    }
    trie
}

// Paths.

#[test]
fn lower_subtries_are_chosen_by_the_first_nibbles() {
    assert_eq!(UPPER_TRIE_MAX_DEPTH, 2);
    assert_eq!(NUM_LOWER_SUBTRIES, 256);
    assert_eq!(SparseSubtrieType::from_path(&nibbles(&[0xf])), SparseSubtrieType::Upper);
    assert_eq!(
        SparseSubtrieType::from_path(&nibbles(&[0xa, 0x3])),
        SparseSubtrieType::Lower(0xa3)
    );
    assert_eq!(
        SparseSubtrieType::from_path(&nibbles(&[0xa, 0x3, 0x9])).lower_index(),
        Some(0xa3)
    );
    assert_eq!(SparseSubtrieType::from_path(&Nibbles::new()).lower_index(), None);
    assert!(SparseSubtrieType::path_len_is_upper(1));
    assert!(!SparseSubtrieType::path_len_is_upper(2));
}

#[test]
fn lower_subtries_are_created_at_their_paths() {
    let mut trie = ParallelSparseTrie::default();
    assert!(trie.lower_subtrie_for_path(&nibbles(&[0x5])).is_none());
    let path = trie.lower_subtrie_for_path(&nibbles(&[0x5, 0xb, 0x1])).unwrap().path;
    assert_eq!(path, nibbles(&[0x5, 0xb]));
    assert_eq!(trie.lower_subtries[0x5b].as_ref().unwrap().path, path);
    assert!(trie.lower_subtries[0x5b].as_ref().unwrap().inner.updates.is_none());

    let mut trie = trie.with_updates(true);
    assert!(trie.lower_subtries[0x5b].as_ref().unwrap().inner.updates.is_some());
    assert!(trie.subtrie_for_path(&nibbles(&[0x5, 0xc])).inner.updates.is_some());
}

// Prefix sets.

#[test]
fn prefix_sets_are_asked_for_prefixes() {
    let mut set = PrefixSetMut::from(vec![
        nibbles(&[3, 1]),
        nibbles(&[1, 2, 3]),
        nibbles(&[1, 2, 3]),
        nibbles(&[1, 2]),
    ]);
    set.insert(nibbles(&[2]));
    set.extend_keys(vec![nibbles(&[0, 5])]);
    let mut more = PrefixSetMut::default();
    assert!(more.is_empty());
    more.insert(nibbles(&[9]));
    set.extend(more);
    assert!(!set.is_empty());
    let mut set = set.freeze();
    assert_eq!(
        set.keys().clone(),
        vec![
            nibbles(&[0, 5]),
            nibbles(&[1, 2]),
            nibbles(&[1, 2, 3]),
            nibbles(&[2]),
            nibbles(&[3, 1]),
            nibbles(&[9]),
        ]
    );
    assert_eq!(set.len(), 6);
    assert_eq!(set.key_at(1), nibbles(&[1, 2]));
    assert!(!set.all());
    for (path, yes) in [
        (vec![1, 2, 3], true),
        (vec![1, 2, 3, 4], false),
        (vec![3], true),
        (vec![0], true),
        (vec![], true),
        (vec![2, 0], false),
        (vec![1], true),
        (vec![8], false),
    ] {
        assert_eq!(set.contains(&nibbles(&path)), yes, "{path:?}");
    }
}

#[test]
fn the_set_of_all_keys_has_every_prefix() {
    let mut set = PrefixSetMut::all();
    set.insert(nibbles(&[1]));
    let mut set = set.freeze();
    assert!(set.all());
    assert_eq!(set.len(), 0);
    assert!(set.contains(&nibbles(&[7, 7])));

    let mut merged = PrefixSetMut::from(vec![nibbles(&[1])]);
    merged.extend(PrefixSetMut::all());
    assert!(merged.freeze().all());
}

#[test]
fn changed_keys_go_to_one_place_each() {
    let mut trie = ParallelSparseTrie::default();
    for path in [[0x1, 0x0], [0x4, 0x2], [0x9, 0x9]] {
        trie.subtrie_for_path(&nibbles(&path));
    }
    let keys = vec![
        nibbles(&[0x4, 0x2, 0x1]),
        nibbles(&[0x0, 0x1]),
        nibbles(&[0x4, 0x2, 0x0]),
        nibbles(&[0x4, 0x3]),
        nibbles(&[0x1, 0x0]),
    ];
    let mut prefix_set = PrefixSetMut::from(keys).freeze();
    let (changed, remaining) = trie.take_changed_lower_subtries(&mut prefix_set);
    let indices: Vec<usize> = changed.iter().map(|c| c.index).collect();
    assert_eq!(indices, vec![0x10, 0x42]);
    assert_eq!(changed[0].prefix_set.keys().clone(), vec![nibbles(&[0x1, 0x0])]);
    assert_eq!(
        changed[1].prefix_set.keys().clone(),
        vec![nibbles(&[0x4, 0x2, 0x0]), nibbles(&[0x4, 0x2, 0x1])]
    );
    assert_eq!(
        remaining.freeze().keys().clone(),
        vec![nibbles(&[0x0, 0x1]), nibbles(&[0x4, 0x3])]
    );
    assert!(trie.lower_subtries[0x10].is_none());
    assert!(trie.lower_subtries[0x99].is_some());
}

#[test]
fn all_keys_remain_where_all_have_changed() {
    let mut trie = ParallelSparseTrie::default();
    let mut prefix_set = PrefixSetMut::all().freeze();
    let (changed, remaining) = trie.take_changed_lower_subtries(&mut prefix_set);
    assert!(changed.is_empty());
    assert!(remaining.freeze().all());
}

// Maps.

#[test]
fn maps_are_keyed_by_paths() {
    let mut map: PathMap<Vec<u8>> = PathMap::new();
    assert!(map.get(&nibbles(&[1])).is_none());
    map.insert(nibbles(&[1]), vec![1]);
    map.insert(nibbles(&[1, 0]), vec![2]);
    assert_eq!(map.get(&nibbles(&[1])), Some(&vec![1]));
    map.get_mut(&nibbles(&[1])).unwrap().push(7);
    assert_eq!(map.get(&nibbles(&[1])), Some(&vec![1, 7]));
    assert!(map.get_mut(&nibbles(&[2])).is_none());
    let mut other: PathMap<Vec<u8>> = PathMap::new();
    other.insert(nibbles(&[1]), vec![3]);
    other.insert(nibbles(&[2]), vec![4]);
    map.extend(other);
    assert_eq!(map.get(&nibbles(&[1])), Some(&vec![3]));
    assert_eq!(map.get(&nibbles(&[2])), Some(&vec![4]));
    assert_eq!(map.remove(&nibbles(&[1, 0])), Some(vec![2]));
    assert_eq!(map.remove(&nibbles(&[1, 0])), None);
    assert!(!map.contains_key(&nibbles(&[1, 0])));
}

#[test]
fn updates_follow_one_another() {
    let branch = |mask: u16| BranchNodeCompact::new(mask, 0, 0, vec![], None);
    let mut earlier = SparseTrieUpdates::default();
    earlier.updated_nodes.insert(nibbles(&[1]), branch(3));
    earlier.removed_nodes.insert(nibbles(&[2]));
    let mut later = SparseTrieUpdates::default();
    later.updated_nodes.insert(nibbles(&[1]), branch(7));
    later.removed_nodes.insert(nibbles(&[3]));
    later.wiped = true;
    earlier.extend(later);
    assert_eq!(earlier.updated_nodes.get(&nibbles(&[1])), Some(&branch(7)));
    assert!(earlier.removed_nodes.contains(&nibbles(&[2])));
    assert!(earlier.removed_nodes.contains(&nibbles(&[3])));
    assert!(!earlier.removed_nodes.contains(&nibbles(&[1])));
    assert!(earlier.wiped);

    let mut set = PathSet::new();
    set.insert(nibbles(&[5]));
    let copy = set.clone();
    set.insert(nibbles(&[6]));
    assert!(copy.contains(&nibbles(&[5])) && !copy.contains(&nibbles(&[6])));
}

// Revealing.

#[test]
fn revealing_twice_changes_nothing() {
    let leaves = leaves();
    let (_, nodes) = built(&leaves);
    let trie = revealed(&leaves);
    let mut again = trie.clone();
    for (path, node) in nodes {
        again.reveal_node(path, decode(&node), TrieMasks::none()).unwrap();
    }
    assert_eq!(again, trie);
    // Neither does another node where one has been revealed.
    again.reveal_node(nibbles(&[1, 2]), leaf_node(&[5], value(1)), TrieMasks::none()).unwrap();
    assert_eq!(again, trie);
}

#[test]
fn another_node_is_not_revealed_where_one_has_been() {
    let path = nibbles(&[1]);
    let mut trie = ParallelSparseTrie::default();
    trie.reveal_node(path, leaf_node(&[2, 3], vec![9]), TrieMasks::none()).unwrap();
    let before = trie.clone();
    let branch = branch_of(&[
        (0, RlpNode::word_rlp(&B256::repeat_byte(1))),
        (7, RlpNode::word_rlp(&B256::repeat_byte(2))),
    ]);
    let masks = TrieMasks { hash_mask: Some(TrieMask::new(1)), tree_mask: Some(TrieMask::new(1)) };
    trie.reveal_node(path, branch, masks).unwrap();
    assert_eq!(trie, before);
    assert!(trie.lower_subtries.iter().all(|subtrie| subtrie.is_none()));
}

#[test]
fn the_path_of_a_lower_subtrie_is_the_shortest_that_was_revealed() {
    let mut trie = ParallelSparseTrie::default();
    let ext = TrieNode::Extension(ExtensionNode {
        key: nibbles(&[1, 2, 3]),
        child: RlpNode::word_rlp(&B256::repeat_byte(1)),
    });
    trie.reveal_node(Nibbles::new(), ext, TrieMasks::none()).unwrap();
    let lower = trie.lower_subtries[0x12].as_ref().unwrap();
    assert_eq!(lower.path, nibbles(&[1, 2, 3]));
    assert!(lower.nodes.contains_key(&lower.path));

    // A longer path changes nothing, a shorter one does, unless revealing fails there.
    let leaf = leaf_node(&[5], vec![1]);
    trie.reveal_node(nibbles(&[1, 2, 3, 4]), leaf.clone(), TrieMasks::none()).unwrap();
    assert_eq!(trie.lower_subtries[0x12].as_ref().unwrap().path, nibbles(&[1, 2, 3]));
    let long = TrieNode::Leaf(LeafNode { key: full(&[1]), value: vec![1] });
    trie.reveal_node(nibbles(&[1, 2]), long, TrieMasks::none()).unwrap_err();
    assert_eq!(trie.lower_subtries[0x12].as_ref().unwrap().path, nibbles(&[1, 2, 3]));
    trie.reveal_node(nibbles(&[1, 2]), leaf, TrieMasks::none()).unwrap();
    assert_eq!(trie.lower_subtries[0x12].as_ref().unwrap().path, nibbles(&[1, 2]));
}

#[test]
fn revealed_nodes_keep_the_hash_of_the_blinded_one() {
    let (_, nodes) = built(&leaves());
    let (_, root) = &nodes[0];
    let (path, node) = &nodes[1];
    assert_eq!(path, &nibbles(&[1]));
    let mut trie = ParallelSparseTrie::from_root(decode(root), TrieMasks::none(), false).unwrap();
    let hash = keccak256(node);
    assert_eq!(trie.upper_subtrie.nodes.get(path), Some(&SparseNode::Hash(hash)));
    assert!(trie.lower_subtries[0x12].is_none());
    let masks = TrieMasks { hash_mask: Some(TrieMask::new(0b100)), tree_mask: None };
    trie.reveal_node(*path, decode(node), masks).unwrap();
    assert_eq!(
        trie.upper_subtrie.nodes.get(path),
        Some(&SparseNode::Branch {
            state_mask: TrieMask::new(0b1_0000_0100),
            hash: Some(hash),
            store_in_db_trie: Some(true),
        })
    );
    assert_eq!(
        trie.upper_subtrie.inner.branch_node_hash_masks.get(path),
        Some(&TrieMask::new(0b100))
    );
    assert!(trie.upper_subtrie.inner.branch_node_tree_masks.get(path).is_none());
    // The children are in lower subtries.
    assert!(trie.lower_subtries[0x12].as_ref().unwrap().nodes.contains_key(&nibbles(&[1, 2])));
    assert!(trie.lower_subtries[0x18].as_ref().unwrap().nodes.contains_key(&nibbles(&[1, 8])));
}

#[test]
fn short_children_are_revealed_with_their_parent() {
    let child = encoded_leaf(&[3], vec![7]);
    let hash = B256::repeat_byte(1);
    let branch = branch_of(&[(0, RlpNode::from_rlp(&child)), (4, RlpNode::word_rlp(&hash))]);
    let mut subtrie = SparseSubtrie::new(nibbles(&[5, 6]));
    subtrie.reveal_node(nibbles(&[5, 6]), &branch, TrieMasks::none()).unwrap();
    assert_eq!(
        subtrie.nodes.get(&nibbles(&[5, 6, 0])),
        Some(&SparseNode::new_leaf(nibbles(&[3])))
    );
    assert_eq!(subtrie.inner.values.get(&nibbles(&[5, 6, 0, 3])), Some(&vec![7]));
    assert_eq!(subtrie.nodes.get(&nibbles(&[5, 6, 4])), Some(&SparseNode::Hash(hash)));
}

/// The RLP of a branch with short leaves at two nibbles.
fn short_branch() -> Vec<u8> {
    let leaf = |value: u8| RlpNode::from_rlp(&encoded_leaf(&[2], vec![value]));
    let mut rlp = Vec::new();
    alloy_trie::nodes::BranchNode::new(vec![leaf(7), leaf(8)], TrieMask::new(0b11)).encode(&mut rlp);
    assert!(rlp.len() < 32);
    rlp
}

fn assert_short_branch_revealed(trie: &ParallelSparseTrie) {
    assert_eq!(
        trie.upper_subtrie.nodes.get(&nibbles(&[1])),
        Some(&SparseNode::new_branch(TrieMask::new(0b11)))
    );
    for (nibble, value) in [(0, 7), (1, 8)] {
        let lower = trie.lower_subtries[0x10 + nibble as usize].as_ref().unwrap();
        assert_eq!(lower.path, nibbles(&[1, nibble]));
        assert_eq!(lower.nodes.get(&lower.path), Some(&SparseNode::new_leaf(nibbles(&[2]))));
        assert_eq!(lower.inner.values.get(&nibbles(&[1, nibble, 2])), Some(&vec![value]));
    }
}

#[test]
fn the_children_of_a_short_node_in_the_upper_subtrie_are_revealed() {
    // The root is a branch.
    let blinded = RlpNode::word_rlp(&B256::repeat_byte(4));
    let stack = vec![RlpNode::from_rlp(&short_branch()), blinded];
    let mut rlp = Vec::new();
    alloy_trie::nodes::BranchNode::new(stack.clone(), TrieMask::new(0b10010)).encode(&mut rlp);
    let root = branch_of(&[(1, stack[0].clone()), (4, stack[1].clone())]);
    let mut trie = ParallelSparseTrie::from_root(root, TrieMasks::none(), false).unwrap();
    assert_short_branch_revealed(&trie);
    assert_eq!(trie.root(), keccak256(&rlp));
    // What has been revealed stays.
    let before = trie.clone();
    trie.reveal_node(nibbles(&[1]), leaf_node(&[3], value(1)), TrieMasks::none()).unwrap();
    assert_eq!(trie, before);
    trie.remove_leaf(&nibbles(&[1, 0, 2]), nobody()).unwrap();
    assert_eq!(lookup(&trie, &nibbles(&[1, 1, 2])), Some(vec![8]));

    // The root is an extension.
    let child = RlpNode::from_rlp(&short_branch());
    let mut rlp = Vec::new();
    alloy_trie::nodes::ExtensionNode::new(nibbles(&[1]), child.clone()).encode(&mut rlp);
    let root = TrieNode::Extension(ExtensionNode { key: nibbles(&[1]), child });
    let mut trie = ParallelSparseTrie::from_root(root, TrieMasks::none(), false).unwrap();
    assert_short_branch_revealed(&trie);
    assert_eq!(trie.root(), keccak256(&rlp));
}

#[test]
fn a_node_that_could_not_be_revealed_can_be_revealed_later() {
    let hash = |n: u8| RlpNode::word_rlp(&B256::repeat_byte(n));
    let malformed = RlpNode::from_rlp(&[0xc1]);
    // In the upper subtrie, with children in lower ones.
    let path = nibbles(&[1]);
    let mut trie = ParallelSparseTrie::default();
    let bad = branch_of(&[(0, hash(1)), (7, malformed.clone())]);
    let error = trie.reveal_node(path, bad, TrieMasks::none()).unwrap_err();
    assert!(matches!(error, SparseTrieErrorKind::Rlp(_)));
    assert!(trie.upper_subtrie.nodes.get(&path).is_none());
    let good = branch_of(&[(0, hash(1)), (7, hash(2))]);
    trie.reveal_node(path, good, TrieMasks::none()).unwrap();
    assert!(trie.upper_subtrie.nodes.contains_key(&path));
    for (index, n) in [(0x10, 1), (0x17, 2)] {
        let lower = trie.lower_subtries[index].as_ref().unwrap();
        assert_eq!(
            lower.nodes.get(&lower.path),
            Some(&SparseNode::Hash(B256::repeat_byte(n)))
        );
    }
    // An extension from the upper subtrie to a lower one, and one within a lower subtrie.
    for path in [nibbles(&[2]), nibbles(&[2, 3])] {
        let ext = |child: RlpNode| {
            TrieNode::Extension(ExtensionNode { key: nibbles(&[5, 6]), child })
        };
        let mut trie = ParallelSparseTrie::default();
        let masks = TrieMasks { tree_mask: Some(TrieMask::new(1)), hash_mask: None };
        trie.reveal_node(path, ext(malformed.clone()), masks).unwrap_err();
        let subtrie = trie.subtrie_for_path(&path);
        assert!(subtrie.nodes.get(&path).is_none());
        assert!(subtrie.inner.branch_node_tree_masks.get(&path).is_none());
        trie.reveal_node(path, ext(hash(3)), TrieMasks::none()).unwrap();
        assert!(trie.subtrie_for_path(&path).nodes.contains_key(&path));
        let mut child = path;
        child.extend(&nibbles(&[5, 6]));
        assert_eq!(
            trie.subtrie_for_path(&child).nodes.get(&child),
            Some(&SparseNode::Hash(B256::repeat_byte(3)))
        );
    }
}

#[test]
fn an_extension_without_a_key_is_where_its_child_is() {
    let path = nibbles(&[1, 2]);
    let ext =
        |child: RlpNode| TrieNode::Extension(ExtensionNode { key: Nibbles::new(), child });
    let mut subtrie = SparseSubtrie::new(path);
    let error = subtrie
        .reveal_node(path, &ext(RlpNode::from_rlp(&[0xc1])), TrieMasks::none())
        .unwrap_err();
    assert!(matches!(error, SparseTrieErrorKind::Rlp(_)));
    assert!(subtrie.nodes.get(&path).is_none());
    let hash = RlpNode::word_rlp(&B256::repeat_byte(1));
    subtrie.reveal_node(path, &ext(hash), TrieMasks::none()).unwrap();
    assert_eq!(subtrie.nodes.get(&path), Some(&SparseNode::new_ext(Nibbles::new())));
}

#[test]
fn another_hash_for_a_blinded_node_is_refused() {
    let path = nibbles(&[1, 2]);
    let mut subtrie = SparseSubtrie::new(path);
    let first = B256::repeat_byte(1);
    let second = B256::repeat_byte(2);
    subtrie.reveal_node_or_hash(path, RlpNode::word_rlp(&first).as_ref()).unwrap();
    subtrie.reveal_node_or_hash(path, RlpNode::word_rlp(&first).as_ref()).unwrap();
    assert_eq!(
        subtrie.reveal_node_or_hash(path, RlpNode::word_rlp(&second).as_ref()),
        Err(SparseTrieErrorKind::Reveal { path, node: SparseNode::Hash(second) })
    );
    assert_eq!(subtrie.nodes.get(&path), Some(&SparseNode::Hash(first)));
}

#[test]
fn malformed_children_are_refused() {
    let path = nibbles(&[1, 2]);
    let mut subtrie = SparseSubtrie::new(path);
    let error = subtrie.reveal_node_or_hash(path, &[0xc1]).unwrap_err();
    assert!(matches!(error, SparseTrieErrorKind::Rlp(_)));
    assert!(subtrie.nodes.get(&path).is_none());
}

#[test]
fn an_empty_trie_is_empty_at_its_root_only() {
    let mut trie = ParallelSparseTrie::default();
    let path = nibbles(&[3, 4]);
    assert_eq!(
        trie.reveal_node(path, TrieNode::EmptyRoot, TrieMasks::none()),
        Err(SparseTrieErrorKind::Reveal { path, node: SparseNode::Empty })
    );
    trie.reveal_node(Nibbles::new(), TrieNode::EmptyRoot, TrieMasks::none()).unwrap();
    assert_eq!(trie.root(), EMPTY_ROOT_HASH);
}

#[test]
fn paths_that_are_too_long_are_refused() {
    let path = full(&[1]);
    let mut trie = ParallelSparseTrie::default();
    let key = nibbles(&[1]);
    assert_eq!(
        trie.reveal_node(path, leaf_node(&[1], value(1)), TrieMasks::none()),
        Err(SparseTrieErrorKind::Reveal { path, node: SparseNode::new_leaf(key) })
    );
    let child = RlpNode::word_rlp(&B256::ZERO);
    let ext = TrieNode::Extension(ExtensionNode { key, child: child.clone() });
    assert_eq!(
        trie.reveal_node(path, ext, TrieMasks::none()),
        Err(SparseTrieErrorKind::Reveal { path, node: SparseNode::new_ext(key) })
    );
    assert_eq!(
        trie.reveal_node(path, branch_of(&[(2, child)]), TrieMasks::none()),
        Err(SparseTrieErrorKind::Reveal {
            path,
            node: SparseNode::new_branch(TrieMask::new(0b100)),
        })
    );
}

#[test]
fn a_root_that_does_not_fit_gives_no_trie() {
    let key = full(&[1]).slice(..63);
    let child = RlpNode::from_rlp(&encoded_leaf(&[1, 1], vec![1]));
    let ext = TrieNode::Extension(ExtensionNode { key, child });
    let error = ParallelSparseTrie::from_root(ext, TrieMasks::none(), false).unwrap_err();
    assert_eq!(
        error,
        SparseTrieErrorKind::Reveal { path: key, node: SparseNode::new_leaf(nibbles(&[1, 1])) }
    );
}

// The root hash.

#[test]
fn the_root_is_that_of_the_leaves() {
    let leaves = leaves();
    let (root, _) = built(&leaves);
    let mut trie = revealed(&leaves);
    assert_eq!(trie.root(), root);
    // Again from what the nodes keep, and again from scratch.
    assert_eq!(trie.root(), root);
    trie.prefix_set = PrefixSetMut::all();
    assert_eq!(trie.root(), root);
    for (path, value) in &leaves {
        assert_eq!(lookup(&trie, path).as_ref(), Some(value));
    }
}

#[test]
fn blinded_nodes_stand_for_what_they_hide() {
    let leaves = leaves();
    let (root, nodes) = built(&leaves);
    let (_, root_node) = &nodes[0];
    let mut trie =
        ParallelSparseTrie::from_root(decode(root_node), TrieMasks::none(), false).unwrap();
    assert_eq!(trie.root(), root);
    for (path, node) in &nodes[1..] {
        trie.reveal_node(*path, decode(node), TrieMasks::none()).unwrap();
        assert_eq!(trie.root(), root);
    }
}

#[test]
fn a_short_root_is_hashed_too() {
    let rlp = encoded_leaf(&[1, 2], vec![3]);
    assert!(rlp.len() < 32);
    let mut trie =
        ParallelSparseTrie::from_root(leaf_node(&[1, 2], vec![3]), TrieMasks::none(), false)
            .unwrap();
    assert_eq!(trie.root(), keccak256(rlp));
}

#[test]
fn hashing_a_lower_subtrie_gives_the_rlp_of_its_root() {
    let path = nibbles(&[0xa, 0xb]);
    let mut subtrie = SparseSubtrie::new(path);
    let leaf = leaf_node(&[1, 2, 3], value(8));
    subtrie.reveal_node(path, &leaf, TrieMasks::none()).unwrap();
    let mut prefix_set = PrefixSetMut::default().freeze();
    let rlp_node = subtrie.update_hashes(&mut prefix_set);
    let expected = RlpNode::from_rlp(&encoded_leaf(&[1, 2, 3], value(8)));
    assert_eq!(rlp_node, expected);
    assert_eq!(
        subtrie.nodes.get(&path),
        Some(&SparseNode::Leaf { key: nibbles(&[1, 2, 3]), hash: expected.as_hash() })
    );
}

// Removing leaves.

#[test]
fn removal_gives_the_root_of_the_other_leaves() {
    let leaves = leaves();
    for (gone, _) in &leaves {
        let mut trie = revealed(&leaves);
        let before = trie.root();
        trie.remove_leaf(gone, nobody()).unwrap();
        let others = without(&leaves, gone);
        let (root, _) = built(&others);
        assert_eq!(trie.root(), root);
        assert_ne!(root, before);
        assert_eq!(lookup(&trie, gone), None);
        for (path, value) in &others {
            assert_eq!(lookup(&trie, path).as_ref(), Some(value));
        }
    }
}

#[test]
fn roots_are_right_while_all_leaves_are_removed() {
    let mut left = leaves();
    let mut trie = revealed(&left);
    trie.root();
    while left.len() > 1 {
        let (gone, _) = left.pop().unwrap();
        trie.remove_leaf(&gone, nobody()).unwrap();
        assert_eq!(trie.root(), built(&left).0);
        assert_eq!(trie.root(), built(&left).0);
    }
    trie.remove_leaf(&left[0].0, nobody()).unwrap();
    assert_eq!(trie.root(), EMPTY_ROOT_HASH);
}

#[test]
fn the_root_of_a_lower_subtrie_moves_with_its_nodes() {
    // Below one nibble there are a leaf and an extension, then two leaves.
    let leaves = vec![
        (full(&[0x1, 0x2]), value(1)),
        (full(&[0x1, 0x5, 0x6, 0x7]), value(2)),
        (full(&[0x1, 0x5, 0x6, 0x8]), value(3)),
        (full(&[0x9]), value(4)),
    ];
    let mut trie = revealed(&leaves);
    assert_eq!(trie.lower_subtries[0x15].as_ref().unwrap().path, nibbles(&[0x1, 0x5]));
    trie.remove_leaf(&leaves[0].0, nobody()).unwrap();
    let lower = trie.lower_subtries[0x15].as_ref().unwrap();
    assert_eq!(lower.path, nibbles(&[0x1, 0x5, 0x6]));
    assert!(lower.nodes.contains_key(&lower.path));
    assert_eq!(trie.root(), built(&leaves[1..]).0);
    // The extension takes the place of the root, too.
    trie.remove_leaf(&leaves[3].0, nobody()).unwrap();
    assert_eq!(trie.root(), built(&leaves[1..3]).0);
    // Of the branch that it leads to a leaf is left, which moves to the upper subtrie.
    trie.remove_leaf(&leaves[1].0, nobody()).unwrap();
    assert_eq!(trie.root(), built(&leaves[2..3]).0);
    assert_eq!(lookup(&trie, &leaves[2].0), Some(value(3)));
}

#[test]
fn the_children_of_a_node_that_is_revealed_for_removal_are_revealed() {
    let below = |rest: &[u8]| full(&[&[0x2, 0x3], rest].concat());
    // The blinded node is an extension, or a branch.
    for others in [
        vec![(below(&[0x4]), value(2)), (below(&[0x5]), value(3))],
        vec![(full(&[0x2, 0x3]), value(2)), (full(&[0x2, 0x8]), value(3))],
    ] {
        let gone = (full(&[0x1]), value(1));
        let mut leaves = others.clone();
        leaves.push(gone.clone());
        let (_, nodes) = built(&leaves);
        let mut trie =
            ParallelSparseTrie::from_root(decode(&nodes[0].1), TrieMasks::none(), false).unwrap();
        let node = |path: &[u8]| {
            nodes.iter().find(|(at, _)| *at == nibbles(path)).unwrap().1.clone()
        };
        trie.reveal_node(nibbles(&[0x1]), decode(&node(&[0x1])), TrieMasks::none()).unwrap();
        trie.remove_leaf(&gone.0, Known(nodes.clone())).unwrap();
        let (root, _) = built(&others);
        assert_eq!(trie.root(), root);
        for (path, value) in &others {
            for (at, rlp) in &nodes {
                if path.starts_with(at) && at.len() > 1 {
                    trie.reveal_node(*at, decode(rlp), TrieMasks::none()).unwrap();
                }
            }
            assert_eq!(lookup(&trie, path).as_ref(), Some(value));
        }
        trie.remove_leaf(&others[0].0, nobody()).unwrap();
        assert_eq!(trie.root(), built(&others[1..]).0);
    }
}

/// Goes through all nodes from a path on.
fn assert_normal(trie: &ParallelSparseTrie, path: Nibbles) {
    let node = |path: &Nibbles| {
        let subtrie = match SparseSubtrieType::from_path(path) {
            SparseSubtrieType::Upper => &trie.upper_subtrie,
            SparseSubtrieType::Lower(index) => trie.lower_subtries[index].as_ref().unwrap(),
        };
        subtrie.nodes.get(path).unwrap().clone()
    };
    match node(&path) {
        SparseNode::Branch { state_mask, .. } => {
            assert!(state_mask.count_bits() >= 2);
            for nibble in (0..16).filter(|nibble| state_mask.is_bit_set(*nibble)) {
                let mut child = path;
                child.push(nibble);
                assert_normal(trie, child);
            }
        }
        SparseNode::Extension { key, .. } => {
            let child = path.join(&key);
            assert!(matches!(node(&child), SparseNode::Branch { .. }));
            assert_normal(trie, child);
        }
        _ => {}
    }
}

#[test]
fn removal_leaves_neither_lone_children_nor_chains() {
    let leaves = leaves();
    for (first, _) in &leaves {
        for (second, _) in &without(&leaves, first) {
            let mut trie = revealed(&leaves);
            assert_normal(&trie, Nibbles::new());
            trie.remove_leaf(first, nobody()).unwrap();
            assert_normal(&trie, Nibbles::new());
            trie.remove_leaf(second, nobody()).unwrap();
            assert_normal(&trie, Nibbles::new());
        }
    }
}

#[test]
fn a_branch_with_many_children_stays_without_the_leaf() {
    let leaves: Vec<(Nibbles, Vec<u8>)> = (1..4).map(|n| (full(&[n]), value(n))).collect();
    let mut trie = revealed(&leaves).with_updates(true);
    trie.remove_leaf(&leaves[1].0, nobody()).unwrap();
    let root = trie.upper_subtrie.nodes.get(&Nibbles::new()).unwrap();
    assert_eq!(*root, SparseNode::new_branch(TrieMask::new(0b1010)));
    assert_eq!(trie.updates, Some(SparseTrieUpdates::default()));
    // With one child left it does not stay.
    trie.remove_leaf(&leaves[2].0, nobody()).unwrap();
    let root = trie.upper_subtrie.nodes.get(&Nibbles::new()).unwrap();
    assert_eq!(*root, SparseNode::new_leaf(leaves[0].0));
}

#[test]
fn removal_takes_one_value_and_moves_the_others() {
    let leaves = leaves();
    for (gone, _) in &leaves {
        let mut trie = revealed(&leaves);
        trie.remove_leaf(gone, nobody()).unwrap();
        for (path, value) in &leaves {
            let mut found: Vec<Vec<u8>> = Vec::new();
            found.extend(trie.upper_subtrie.inner.values.get(path).cloned());
            for lower in trie.lower_subtries.iter().flatten() {
                found.extend(lower.inner.values.get(path).cloned());
            }
            if path == gone {
                assert!(found.is_empty());
            } else {
                assert_eq!(found, vec![value.clone()]);
            }
        }
    }
}

#[test]
fn leaves_and_values_stay_together() {
    let mut leaves = leaves();
    let mut trie = revealed(&leaves);
    while let Some((gone, _)) = leaves.pop() {
        trie.remove_leaf(&gone, nobody()).unwrap();
        let mut values: Vec<(Nibbles, Vec<u8>)> = Vec::new();
        for (path, value) in &leaves {
            assert_eq!(lookup(&trie, path).as_ref(), Some(value));
            values.push((*path, value.clone()));
        }
        assert_eq!(lookup(&trie, &gone), None);
        for lower in trie.lower_subtries.iter().flatten() {
            assert!(lower.inner.values.get(&gone).is_none());
        }
        assert!(trie.upper_subtrie.inner.values.get(&gone).is_none());
    }
    assert_eq!(trie.upper_subtrie.nodes.get(&Nibbles::new()), Some(&SparseNode::Empty));
}

#[test]
fn removing_a_leaf_that_is_not_there_succeeds() {
    let leaves = leaves();
    let mut trie = revealed(&leaves);
    // Off a branch, off a leaf, and off the root.
    for path in [full(&[0x1, 0x2, 0x4]), full(&[0x1, 0x8, 0x1]), full(&[0x0])] {
        trie.remove_leaf(&path, nobody()).unwrap();
        for (path, value) in &leaves {
            assert_eq!(lookup(&trie, path).as_ref(), Some(value));
        }
    }
    assert_eq!(trie.root(), built(&leaves).0);

    let mut empty =
        ParallelSparseTrie::from_root(TrieNode::EmptyRoot, TrieMasks::none(), false).unwrap();
    empty.remove_leaf(&full(&[1]), nobody()).unwrap();
    assert_eq!(empty.upper_subtrie.nodes.get(&Nibbles::new()), Some(&SparseNode::Empty));
}

#[test]
fn a_blinded_node_in_the_way_is_named() {
    let hash = B256::repeat_byte(5);
    let mut trie = trie_of(vec![
        (&[], SparseNode::new_branch(TrieMask::new(0b11))),
        (&[0], SparseNode::Hash(hash)),
        (&[1], SparseNode::new_leaf(nibbles(&[2]))),
    ]);
    assert_eq!(
        trie.remove_leaf(&nibbles(&[0, 1, 2]), nobody()),
        Err(SparseTrieErrorKind::BlindedNode { path: nibbles(&[0]), hash })
    );
}

/// A trie of a leaf beside a blinded node.
fn beside_blinded() -> ParallelSparseTrie {
    trie_of(vec![
        (&[], SparseNode::new_branch(TrieMask::new(0b11))),
        (&[0], SparseNode::new_leaf(nibbles(&[1, 2]))),
        (&[1], SparseNode::Hash(B256::repeat_byte(5))),
    ])
}

#[test]
fn removal_fails_if_the_provider_does_not_know() {
    let mut trie = beside_blinded();
    assert_eq!(
        trie.remove_leaf(&nibbles(&[0, 1, 2]), Answers(|| Ok(None))),
        Err(SparseTrieErrorKind::NodeNotFoundInProvider { path: nibbles(&[1]) })
    );
}

#[test]
fn removal_fails_if_the_provider_does() {
    let mut trie = beside_blinded();
    assert_eq!(
        trie.remove_leaf(
            &nibbles(&[0, 1, 2]),
            Answers(|| Err(SparseTrieErrorKind::Other("broken".into())))
        ),
        Err(SparseTrieErrorKind::Other("broken".into()))
    );
}

#[test]
fn removal_fails_if_the_answer_is_malformed() {
    let mut trie = beside_blinded();
    let error = trie
        .remove_leaf(
            &nibbles(&[0, 1, 2]),
            Answers(|| {
                Ok(Some(RevealedNode { node: vec![0xc1], tree_mask: None, hash_mask: None }))
            }),
        )
        .unwrap_err();
    assert!(matches!(error, SparseTrieErrorKind::Rlp(_)));
}

#[test]
fn removal_goes_on_with_the_answer() {
    let mut trie = beside_blinded();
    let removal = trie.start_leaf_removal(&nibbles(&[0, 1, 2])).unwrap().unwrap();
    assert_eq!(removal.branch_path, Nibbles::new());
    assert_eq!(removal.child_path, nibbles(&[1]));
    assert_eq!(removal.ext_path, None);
    let mut node = Vec::new();
    let child = RlpNode::word_rlp(&B256::repeat_byte(6));
    alloy_trie::nodes::ExtensionNode::new(nibbles(&[7]), child).encode(&mut node);
    let reply = Ok(Some(RevealedNode { node, tree_mask: None, hash_mask: None }));
    trie.finish_leaf_removal(removal, reply).unwrap();
    assert_eq!(
        trie.upper_subtrie.nodes.get(&Nibbles::new()),
        Some(&SparseNode::new_ext(nibbles(&[1, 7])))
    );
}

/// A provider that knows some nodes.
struct Known(Vec<(Nibbles, Bytes)>);

impl BlindedProvider for Known {
    fn blinded_node(&self, path: &Nibbles) -> ProviderReply {
        let known = self.0.iter().find(|(p, _)| p == path);
        Ok(known.map(|(_, node)| RevealedNode {
            node: node.to_vec(),
            tree_mask: None,
            hash_mask: None,
        }))
    }
}

#[test]
fn removal_beside_a_blinded_branch_gives_the_root_of_the_other_leaves() {
    let gone = full(&[0x1]);
    let mut leaves = vec![
        (full(&[0x2, 0x1]), value(1)),
        (full(&[0x2, 0x5]), value(2)),
        (full(&[0x2, 0x5, 0x7]), value(3)),
    ];
    let (rest, _) = built(&leaves);
    leaves.push((gone, value(4)));
    let (root, nodes) = built(&leaves);
    let mut trie =
        ParallelSparseTrie::from_root(decode(&nodes[0].1), TrieMasks::none(), false).unwrap();
    let (path, leaf) = nodes.iter().find(|(p, _)| p == &nibbles(&[0x1])).unwrap();
    trie.reveal_node(*path, decode(leaf), TrieMasks::none()).unwrap();
    assert_eq!(trie.root(), root);
    let blinded = nibbles(&[0x2]);
    let hash = match trie.upper_subtrie.nodes.get(&blinded) {
        Some(SparseNode::Hash(hash)) => *hash,
        other => panic!("{other:?}"),
    };
    trie.remove_leaf(&gone, Known(nodes)).unwrap();
    // The branch at the root is an extension now, and the one below it keeps its hash.
    assert_eq!(
        trie.upper_subtrie.nodes.get(&Nibbles::new()),
        Some(&SparseNode::new_ext(blinded))
    );
    assert_eq!(trie.upper_subtrie.nodes.get(&blinded).unwrap().hash(), Some(hash));
    assert_eq!(trie.root(), rest);
}

#[test]
fn removal_leaves_nodes_off_the_way_as_they_are() {
    let leaves = leaves();
    let mut trie = revealed(&leaves);
    trie.root();
    let before = trie.clone();
    trie.remove_leaf(&full(&[0x1, 0x2, 0x7]), nobody()).unwrap();
    // The way goes through these.
    for path in [Nibbles::new(), nibbles(&[0x1])] {
        assert!(before.upper_subtrie.nodes.get(&path).unwrap().hash().is_some());
        assert!(trie.upper_subtrie.nodes.get(&path).unwrap().hash().is_none());
    }
    assert_eq!(trie.upper_subtrie.nodes.get(&nibbles(&[0x6])), before.upper_subtrie.nodes.get(
        &nibbles(&[0x6]),
    ));
    for index in [0x18, 0x61, 0x62] {
        assert_eq!(trie.lower_subtries[index], before.lower_subtries[index]);
    }
}

#[test]
fn a_value_moves_up_with_its_leaf() {
    let mut trie = trie_of(vec![
        (&[], SparseNode::new_ext(nibbles(&[1]))),
        (&[1], SparseNode::new_branch(TrieMask::new(0b1100))),
        (&[1, 2], SparseNode::new_leaf(nibbles(&[7]))),
        (&[1, 3], SparseNode::new_leaf(nibbles(&[8]))),
    ]);
    trie.remove_leaf(&nibbles(&[1, 2, 7]), nobody()).unwrap();
    let path = nibbles(&[1, 3, 8]);
    assert_eq!(
        trie.upper_subtrie.nodes.get(&Nibbles::new()),
        Some(&SparseNode::new_leaf(path))
    );
    assert_eq!(trie.upper_subtrie.inner.values.get(&path), Some(&value(9)));
    let lower = trie.lower_subtries[0x13].as_ref().unwrap();
    assert!(lower.inner.values.get(&path).is_none());
    assert!(lower.nodes.get(&nibbles(&[1, 3])).is_none());
    // Moving it once more from a leaf that did not move does nothing.
    let before = trie.clone();
    trie.move_value_on_leaf_removal(
        &nibbles(&[1, 2]),
        &SparseNode::new_leaf(nibbles(&[0])),
        &nibbles(&[1, 2, 3]),
    );
    assert_eq!(trie, before);
}

#[test]
fn a_branch_with_one_child_left_takes_its_place() {
    let changes = |child: &SparseNode| {
        ParallelSparseTrie::branch_changes_on_leaf_removal(
            &nibbles(&[4]),
            &nibbles(&[4, 6]),
            child,
        )
    };
    assert_eq!(
        changes(&SparseNode::new_leaf(nibbles(&[1, 2]))),
        (SparseNode::new_leaf(nibbles(&[6, 1, 2])), true)
    );
    assert_eq!(
        changes(&SparseNode::new_ext(nibbles(&[3]))),
        (SparseNode::new_ext(nibbles(&[6, 3])), true)
    );
    assert_eq!(
        changes(&SparseNode::new_branch(TrieMask::new(0b11))),
        (SparseNode::new_ext(nibbles(&[6])), false)
    );
}

#[test]
fn an_extension_takes_the_place_of_its_child() {
    let changes = |child: &SparseNode| {
        ParallelSparseTrie::extension_changes_on_leaf_removal(
            &nibbles(&[4]),
            &nibbles(&[5, 6]),
            &nibbles(&[4, 5, 6]),
            child,
        )
    };
    assert_eq!(
        changes(&SparseNode::new_leaf(nibbles(&[1]))),
        Some(SparseNode::new_leaf(nibbles(&[5, 6, 1])))
    );
    assert_eq!(
        changes(&SparseNode::new_ext(nibbles(&[2, 3]))),
        Some(SparseNode::new_ext(nibbles(&[5, 6, 2, 3])))
    );
    assert_eq!(changes(&SparseNode::new_branch(TrieMask::new(0b11))), None);
}

#[test]
fn the_way_to_a_leaf_is_found() {
    let next = |node: &SparseNode, path: &[u8]| {
        ParallelSparseTrie::find_next_to_leaf(&nibbles(&[1]), node, &nibbles(path))
    };
    let leaf = SparseNode::new_leaf(nibbles(&[2, 3]));
    assert_eq!(next(&leaf, &[1, 2, 3]), Ok(FindNextToLeafOutcome::Found));
    assert_eq!(next(&leaf, &[1, 2, 4]), Ok(FindNextToLeafOutcome::NotFound));
    let ext = SparseNode::new_ext(nibbles(&[2, 3]));
    assert_eq!(
        next(&ext, &[1, 2, 3, 4]),
        Ok(FindNextToLeafOutcome::ContinueFrom(nibbles(&[1, 2, 3])))
    );
    assert_eq!(next(&ext, &[1, 2, 4]), Ok(FindNextToLeafOutcome::NotFound));
    assert_eq!(next(&ext, &[1]), Ok(FindNextToLeafOutcome::NotFound));
    let branch = SparseNode::new_branch(TrieMask::new(0b100));
    assert_eq!(
        next(&branch, &[1, 2, 3]),
        Ok(FindNextToLeafOutcome::ContinueFrom(nibbles(&[1, 2])))
    );
    assert_eq!(next(&branch, &[1, 3]), Ok(FindNextToLeafOutcome::NotFound));
    assert_eq!(next(&branch, &[1]), Ok(FindNextToLeafOutcome::NotFound));
    assert_eq!(next(&SparseNode::Empty, &[1, 3]), Ok(FindNextToLeafOutcome::NotFound));
    let hash = B256::repeat_byte(3);
    assert_eq!(
        next(&SparseNode::Hash(hash), &[1, 3]),
        Err(SparseTrieErrorKind::BlindedNode { path: nibbles(&[1]), hash })
    );
}

// Updates.

/// A subtrie of a branch with two blinded children, and the masks that the database has for it.
fn blinded_pair(tree: Option<u16>, hash: Option<u16>) -> SparseSubtrie {
    let path = nibbles(&[1, 2]);
    let mut subtrie = SparseSubtrie::new(path).with_updates(true);
    let branch = branch_of(&[
        (0, RlpNode::word_rlp(&B256::repeat_byte(10))),
        (1, RlpNode::word_rlp(&B256::repeat_byte(11))),
    ]);
    let masks = TrieMasks {
        tree_mask: tree.map(TrieMask::new),
        hash_mask: hash.map(TrieMask::new),
    };
    subtrie.reveal_node(path, &branch, masks).unwrap();
    subtrie
}

#[test]
fn a_stored_branch_is_recorded_with_its_masks() {
    let mut subtrie = blinded_pair(Some(0b10), Some(0b01));
    let mut prefix_set = PrefixSetMut::from(vec![nibbles(&[1, 2, 0, 0])]).freeze();
    subtrie.update_hashes(&mut prefix_set);
    let updates = subtrie.take_updates();
    assert_eq!(
        updates.updated_nodes.get(&nibbles(&[1, 2])),
        Some(&BranchNodeCompact::new(0b11, 0b10, 0b01, vec![B256::repeat_byte(10)], None))
    );
    assert!(!updates.removed_nodes.contains(&nibbles(&[1, 2])));
    // What was taken is not there any more.
    assert_eq!(subtrie.inner.updates, Some(SparseTrieUpdates::default()));
    let rest = subtrie.take_updates();
    assert!(rest.updated_nodes.get(&nibbles(&[1, 2])).is_none());
    // What is recorded next is there.
    let mut prefix_set = PrefixSetMut::from(vec![nibbles(&[1, 2, 0, 0])]).freeze();
    subtrie.update_hashes(&mut prefix_set);
    assert_eq!(subtrie.take_updates(), updates);
}

#[test]
fn a_branch_that_has_not_changed_is_not_recorded() {
    let mut subtrie = blinded_pair(Some(0b10), Some(0b01));
    let mut prefix_set = PrefixSetMut::from(vec![nibbles(&[1, 3])]).freeze();
    subtrie.update_hashes(&mut prefix_set);
    assert_eq!(subtrie.take_updates(), SparseTrieUpdates::default());
}

#[test]
fn a_branch_that_is_stored_no_more_is_recorded_as_dropped() {
    let path = nibbles(&[1, 2]);
    let mut subtrie = SparseSubtrie::new(path).with_updates(true);
    let leaf = |n: u8| RlpNode::from_rlp(&encoded_leaf(&[3], vec![n]));
    let branch = branch_of(&[(0, leaf(1)), (1, leaf(2))]);
    let masks = TrieMasks { tree_mask: Some(TrieMask::new(0b1)), hash_mask: None };
    subtrie.reveal_node(path, &branch, masks).unwrap();
    let mut prefix_set = PrefixSetMut::all().freeze();
    subtrie.update_hashes(&mut prefix_set);
    let updates = subtrie.take_updates();
    assert!(updates.updated_nodes.get(&path).is_none());
    assert!(updates.removed_nodes.contains(&path));
}

#[test]
fn taken_updates_are_those_of_the_trie_and_all_subtries() {
    let leaves = leaves();
    let mut trie = revealed(&leaves).with_updates(true);
    // The branch at this path has two children, and is merged with one of them.
    trie.remove_leaf(&full(&[0x1, 0x2, 0x3, 0x4]), nobody()).unwrap();
    trie.prefix_set = PrefixSetMut::all();
    trie.root();
    let updates = trie.take_updates();
    assert!(updates.removed_nodes.contains(&nibbles(&[0x1, 0x2, 0x3])));
    // A branch above another one is stored: here the upper one.
    assert_eq!(
        updates.updated_nodes.get(&nibbles(&[0x1])).map(|branch| branch.hash_mask),
        Some(TrieMask::new(0b100))
    );
    assert_eq!(trie.take_updates(), SparseTrieUpdates::default());
    // A new set of updates is recorded.
    assert_eq!(trie.updates, Some(SparseTrieUpdates::default()));
    assert_eq!(trie.upper_subtrie.inner.updates, Some(SparseTrieUpdates::default()));
    for lower in trie.lower_subtries.iter().flatten() {
        assert_eq!(lower.inner.updates, Some(SparseTrieUpdates::default()));
    }
    trie.remove_leaf(&full(&[0x6, 0x1]), nobody()).unwrap();
    trie.root();
    let updates = trie.take_updates();
    assert!(updates.removed_nodes.contains(&nibbles(&[0x6])));
    assert!(!updates.removed_nodes.contains(&nibbles(&[0x1, 0x2, 0x3])));
}

#[test]
fn branches_above_changed_lower_subtries_are_recorded() {
    let leaves = leaves();
    let mut trie = revealed(&leaves).with_updates(true);
    trie.root();
    // Nothing has changed.
    let updates = trie.take_updates();
    assert!(updates.updated_nodes.get(&nibbles(&[0x1])).is_none());
    let gone = full(&[0x1, 0x2, 0x3, 0x4]);
    trie.remove_leaf(&gone, nobody()).unwrap();
    // The changed key belongs to a lower subtrie.
    assert!(trie.lower_subtries[0x12].is_some());
    let root = trie.root();
    assert_eq!(root, built(&without(&leaves, &gone)).0);
    let updates = trie.take_updates();
    let branch = updates.updated_nodes.get(&nibbles(&[0x1])).unwrap();
    assert_eq!(branch.hash_mask, TrieMask::new(0b100));
    // Others have not changed.
    assert!(updates.updated_nodes.get(&nibbles(&[0x6])).is_none());
    assert!(!updates.removed_nodes.contains(&nibbles(&[0x6])));
    // It is the same as if all keys had changed.
    let mut other = revealed(&without(&leaves, &gone)).with_updates(true);
    other.prefix_set = PrefixSetMut::all();
    assert_eq!(other.root(), root);
    assert_eq!(other.take_updates().updated_nodes.get(&nibbles(&[0x1])), Some(branch));
}

#[test]
fn subtries_that_do_not_record_still_do_not_once_updates_were_taken() {
    let mut subtrie = SparseSubtrie::new(nibbles(&[1, 2]));
    assert_eq!(subtrie.take_updates(), SparseTrieUpdates::default());
    assert!(subtrie.inner.updates.is_none());
    let mut trie = ParallelSparseTrie::default();
    assert_eq!(trie.take_updates(), SparseTrieUpdates::default());
    assert!(trie.updates.is_none());
    assert!(trie.upper_subtrie.inner.updates.is_none());
}

#[test]
fn nothing_is_recorded_unless_asked_for() {
    let leaves = leaves();
    let mut trie = revealed(&leaves).with_updates(true).with_updates(false);
    trie.remove_leaf(&full(&[0x1, 0x2, 0x3, 0x4]), nobody()).unwrap();
    trie.prefix_set = PrefixSetMut::all();
    trie.root();
    assert_eq!(trie.take_updates(), SparseTrieUpdates::default());
}
