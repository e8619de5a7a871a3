//! The nodes of a trie: decoded ones, and those that a sparse trie keeps.

use crate::model::{model_opt, model_seq, MasksModel, Model, NodeModel, TrieNodeModel};
use crate::outside::{hash_bytes, mask_bits, nibbles_of, rlp_bytes};
use alloy_primitives::B256;
use alloy_trie::{Nibbles, TrieMask};
use alloy_trie::nodes::RlpNode;
use vstd::prelude::*;

verus! {

impl Model for Nibbles {
    type M = Seq<u8>;

    open spec fn model(&self) -> Seq<u8> {
        nibbles_of(*self)
    }
}

impl Model for TrieMask {
    type M = Set<u8>;

    open spec fn model(&self) -> Set<u8> {
        mask_bits(*self)
    }
}

impl Model for B256 {
    type M = Seq<u8>;

    open spec fn model(&self) -> Seq<u8> {
        hash_bytes(*self)
    }
}

impl Model for RlpNode {
    type M = Seq<u8>;

    open spec fn model(&self) -> Seq<u8> {
        rlp_bytes(*self)
    }
}

/// A decoded branch node.
#[derive(Clone, PartialEq, Eq, Debug)]
pub struct BranchNode {
    /// The RLP nodes of the children. The last ones belong to the nibbles of the mask, in
    /// ascending order.
    pub stack: Vec<RlpNode>,
    /// The nibbles that have a child.
    pub state_mask: TrieMask,
}

/// A decoded extension node.
#[derive(Clone, PartialEq, Eq, Debug)]
pub struct ExtensionNode {
    /// The path from the node to its child.
    pub key: Nibbles,
    /// The RLP node of the child.
    pub child: RlpNode,
}

/// A decoded leaf node.
#[derive(Clone, PartialEq, Eq, Debug)]
pub struct LeafNode {
    /// The rest of the path to the value.
    pub key: Nibbles,
    /// The value.
    pub value: Vec<u8>,
}

/// A decoded trie node.
#[derive(Clone, PartialEq, Eq, Debug)]
pub enum TrieNode {
    /// The root of a trie that holds nothing.
    EmptyRoot,
    /// A branch node.
    Branch(BranchNode),
    /// An extension node.
    Extension(ExtensionNode),
    /// A leaf node.
    Leaf(LeafNode),
}

impl Model for TrieNode {
    type M = TrieNodeModel;

    open spec fn model(&self) -> TrieNodeModel {
        match *self {
            TrieNode::EmptyRoot => TrieNodeModel::EmptyRoot,
            TrieNode::Branch(branch) => TrieNodeModel::Branch {
                stack: model_seq(branch.stack@),
                mask: branch.state_mask.model(),
            },
            TrieNode::Extension(ext) => TrieNodeModel::Extension {
                key: ext.key.model(),
                child: ext.child.model(),
            },
            TrieNode::Leaf(leaf) => TrieNodeModel::Leaf {
                key: leaf.key.model(),
                value: leaf.value@,
            },
        }
    }
}

/// A node of a sparse trie.
#[derive(Clone, Copy, PartialEq, Eq, Debug)]
pub enum SparseNode {
    /// The root of a trie that holds nothing.
    Empty,
    /// A blinded node, of which only the hash is known.
    Hash(B256),
    /// A leaf, whose value is kept apart.
    Leaf {
        /// The rest of the path to the value.
        key: Nibbles,
        /// The hash of the node, if it has been computed.
        hash: Option<B256>,
    },
    /// An extension.
    Extension {
        /// The path from the node to its child.
        key: Nibbles,
        /// The hash of the node, if it has been computed.
        hash: Option<B256>,
        /// Whether the branch below it is stored in the database, if that has been computed.
        store_in_db_trie: Option<bool>,
    },
    /// A branch.
    Branch {
        /// The nibbles that have a child.
        state_mask: TrieMask,
        /// The hash of the node, if it has been computed.
        hash: Option<B256>,
        /// Whether the branch is stored in the database, if that has been computed.
        store_in_db_trie: Option<bool>,
    },
}

impl Model for SparseNode {
    type M = NodeModel;

    open spec fn model(&self) -> NodeModel {
        match *self {
            SparseNode::Empty => NodeModel::Empty,
            SparseNode::Hash(hash) => NodeModel::Hash(hash.model()),
            SparseNode::Leaf { key, hash } => NodeModel::Leaf {
                key: key.model(),
                hash: model_opt(hash),
            },
            SparseNode::Extension { key, hash, store_in_db_trie } => NodeModel::Extension {
                key: key.model(),
                hash: model_opt(hash),
                store: store_in_db_trie,
            },
            SparseNode::Branch { state_mask, hash, store_in_db_trie } => NodeModel::Branch {
                mask: state_mask.model(),
                hash: model_opt(hash),
                store: store_in_db_trie,
            },
        }
    }
}

impl SparseNode {
    /// Creates a branch whose hash is not computed.
    pub fn new_branch(state_mask: TrieMask) -> (node: Self)
        ensures
            node.model() == NodeModel::new_branch(state_mask.model()),
    {
        Self::Branch { state_mask, hash: None, store_in_db_trie: None }
    }

    /// Creates an extension whose hash is not computed.
    pub fn new_ext(key: Nibbles) -> (node: Self)
        ensures
            node.model() == NodeModel::new_ext(key.model()),
    {
        Self::Extension { key, hash: None, store_in_db_trie: None }
    }

    /// Creates a leaf whose hash is not computed.
    pub fn new_leaf(key: Nibbles) -> (node: Self)
        ensures
            node.model() == NodeModel::new_leaf(key.model()),
    {
        Self::Leaf { key, hash: None }
    }

    /// Returns true if the node is blinded.
    pub fn is_hash(&self) -> (yes: bool)
        ensures
            yes == (self.model() is Hash),
    {
        matches!(self, Self::Hash(_))
    }

    /// Returns the hash of the node, if it is known.
    pub fn hash(&self) -> (hash: Option<B256>)
        ensures
            model_opt(hash) == self.model().known_hash(),
    {
        match *self {
            Self::Empty => None,
            Self::Hash(hash) => Some(hash),
            Self::Leaf { hash, .. } => hash,
            Self::Extension { hash, .. } => hash,
            Self::Branch { hash, .. } => hash,
        }
    }

    /// Sets the computed hash of a leaf, an extension or a branch.
    pub fn set_hash(&mut self, new_hash: Option<B256>)
        ensures
            final(self).model() == old(self).model().with_hash(model_opt(new_hash)),
    {
        match self {
            Self::Empty | Self::Hash(_) => {},
            Self::Leaf { hash, .. } => {
                *hash = new_hash;
            },
            Self::Extension { hash, .. } => {
                *hash = new_hash;
            },
            Self::Branch { hash, .. } => {
                *hash = new_hash;
            },
        }
    }
}

/// What the database says of the children of a branch.
#[derive(Clone, Copy, PartialEq, Eq, Debug)]
pub struct TrieMasks {
    /// The children that the database keeps as a hash in the branch.
    pub hash_mask: Option<TrieMask>,
    /// The children below which the database keeps a branch.
    pub tree_mask: Option<TrieMask>,
}

impl Model for TrieMasks {
    type M = MasksModel;

    open spec fn model(&self) -> MasksModel {
        MasksModel { hash: model_opt(self.hash_mask), tree: model_opt(self.tree_mask) }
    }
}

impl TrieMasks {
    /// Creates masks of which nothing is known.
    pub fn none() -> (masks: Self)
        ensures
            masks.model() == MasksModel::none(),
    {
        TrieMasks { hash_mask: None, tree_mask: None }
    }
}

/// The kind of a node whose RLP has been computed.
#[derive(Clone, Copy, PartialEq, Eq, Structural, Debug)]
pub enum SparseNodeType {
    /// The root of a trie that holds nothing.
    Empty,
    /// A blinded node.
    Hash,
    /// A leaf.
    Leaf,
    /// An extension.
    Extension {
        /// Whether the branch below it is stored in the database, if that is known.
        store_in_db_trie: Option<bool>,
    },
    /// A branch.
    Branch {
        /// Whether the branch is stored in the database, if that is known.
        store_in_db_trie: Option<bool>,
    },
}

/// Whether a node of some kind is stored in the database, if the kind says so.
pub open spec fn stored(kind: SparseNodeType) -> Option<bool> {
    match kind {
        SparseNodeType::Extension { store_in_db_trie } => store_in_db_trie,
        SparseNodeType::Branch { store_in_db_trie } => store_in_db_trie,
        _ => None,
    }
}

impl SparseNodeType {
    /// Returns true if the node is blinded.
    pub fn is_hash(&self) -> (yes: bool)
        ensures
            yes == (*self is Hash),
    {
        matches!(self, Self::Hash)
    }

    /// Returns true if the node is a branch.
    pub fn is_branch(&self) -> (yes: bool)
        ensures
            yes == (*self is Branch),
    {
        matches!(self, Self::Branch { .. })
    }

    /// Returns whether the node is stored in the database, if that is known.
    pub fn store_in_db_trie(&self) -> (store: Option<bool>)
        ensures
            store == stored(*self),
    {
        match *self {
            Self::Extension { store_in_db_trie } => store_in_db_trie,
            Self::Branch { store_in_db_trie } => store_in_db_trie,
            _ => None,
        }
    }
}

}
