//! Mathematical models: paths are sequences of nibbles, child masks are sets of nibbles, hashes
//! and RLP nodes are sequences of bytes.

use alloy_trie::BranchNodeCompact;
use vstd::prelude::*;

verus! {

/// A value that stands for a mathematical one.
pub trait Model {
    /// The kind of mathematical value.
    type M;

    /// The mathematical value.
    spec fn model(&self) -> Self::M;
}

/// The model of an optional value.
pub open spec fn model_opt<T: Model>(value: Option<T>) -> Option<T::M> {
    match value {
        Some(v) => Some(v.model()),
        None => None,
    }
}

/// The models of a sequence of values.
pub open spec fn model_seq<T: Model>(values: Seq<T>) -> Seq<T::M> {
    values.map_values(|v: T| v.model())
}

impl Model for Vec<u8> {
    type M = Seq<u8>;

    open spec fn model(&self) -> Seq<u8> {
        self@
    }
}

impl Model for BranchNodeCompact {
    type M = BranchNodeCompact;

    open spec fn model(&self) -> BranchNodeCompact {
        *self
    }
}

/// The order of paths: nibble by nibble, a proper prefix before what it begins.
pub open spec fn lex_less(a: Seq<u8>, b: Seq<u8>) -> bool
    decreases a.len(),
{
    if b.len() == 0 {
        false
    } else if a.len() == 0 {
        true
    } else if a[0] != b[0] {
        a[0] < b[0]
    } else {
        lex_less(a.skip(1), b.skip(1))
    }
}

/// The nibbles of a mask that are below `bound`, in ascending order.
pub open spec fn nibbles_below(mask: Set<u8>, bound: int) -> Seq<u8>
    decreases bound,
{
    if bound <= 0 {
        Seq::empty()
    } else {
        let below = nibbles_below(mask, bound - 1);
        if mask.contains((bound - 1) as u8) {
            below.push((bound - 1) as u8)
        } else {
            below
        }
    }
}

/// The nibbles of a mask in ascending order.
pub open spec fn child_nibbles(mask: Set<u8>) -> Seq<u8> {
    nibbles_below(mask, 16)
}

/// The RLP of a string of 32 bytes: one header byte, then the bytes.
pub open spec fn hash_rlp(hash: Seq<u8>) -> Seq<u8> {
    seq![0xa0u8] + hash
}

/// The hash in an RLP node, which is one of exactly 33 bytes.
pub open spec fn rlp_hash(rlp: Seq<u8>) -> Option<Seq<u8>> {
    if rlp.len() == 33 {
        Some(rlp.skip(1))
    } else {
        None
    }
}

/// An RLP node of 33 bytes is the RLP of a hash: it starts with the header of a string of 32 bytes.
pub open spec fn headed(rlp: Seq<u8>) -> bool {
    rlp.len() == 33 ==> rlp[0] == 0xa0
}

/// The model of a decoded trie node.
#[verifier::ext_equal]
pub enum TrieNodeModel {
    EmptyRoot,
    Branch { stack: Seq<Seq<u8>>, mask: Set<u8> },
    Extension { key: Seq<u8>, child: Seq<u8> },
    Leaf { key: Seq<u8>, value: Seq<u8> },
}

impl TrieNodeModel {
    /// A branch has a child for each nibble of its mask.
    pub open spec fn well_formed(self) -> bool {
        self matches TrieNodeModel::Branch { stack, mask } ==> stack.len() >= child_nibbles(
            mask,
        ).len()
    }

    /// Every child has fewer than `bound` bytes.
    pub open spec fn children_below(self, bound: nat) -> bool {
        match self {
            TrieNodeModel::Branch { stack, .. } => forall|i: int|
                0 <= i < stack.len() ==> (#[trigger] stack[i]).len() < bound,
            TrieNodeModel::Extension { child, .. } => child.len() < bound,
            _ => true,
        }
    }
}

/// The model of a node of a sparse trie.
#[verifier::ext_equal]
pub enum NodeModel {
    Empty,
    Hash(Seq<u8>),
    Leaf { key: Seq<u8>, hash: Option<Seq<u8>> },
    Extension { key: Seq<u8>, hash: Option<Seq<u8>>, store: Option<bool> },
    Branch { mask: Set<u8>, hash: Option<Seq<u8>>, store: Option<bool> },
}

impl NodeModel {
    /// A branch whose hash is not computed.
    pub open spec fn new_branch(mask: Set<u8>) -> Self {
        NodeModel::Branch { mask, hash: None, store: None }
    }

    /// An extension whose hash is not computed.
    pub open spec fn new_ext(key: Seq<u8>) -> Self {
        NodeModel::Extension { key, hash: None, store: None }
    }

    /// A leaf whose hash is not computed.
    pub open spec fn new_leaf(key: Seq<u8>) -> Self {
        NodeModel::Leaf { key, hash: None }
    }

    /// The hash of the node, as far as it is known.
    pub open spec fn known_hash(self) -> Option<Seq<u8>> {
        match self {
            NodeModel::Empty => None,
            NodeModel::Hash(hash) => Some(hash),
            NodeModel::Leaf { hash, .. } => hash,
            NodeModel::Extension { hash, .. } => hash,
            NodeModel::Branch { hash, .. } => hash,
        }
    }

    /// The node with another computed hash.
    pub open spec fn with_hash(self, hash: Option<Seq<u8>>) -> Self {
        match self {
            NodeModel::Leaf { key, .. } => NodeModel::Leaf { key, hash },
            NodeModel::Extension { key, store, .. } => NodeModel::Extension { key, hash, store },
            NodeModel::Branch { mask, store, .. } => NodeModel::Branch { mask, hash, store },
            _ => self,
        }
    }
}

/// What the database says of the children of a branch.
#[verifier::ext_equal]
pub struct MasksModel {
    pub hash: Option<Set<u8>>,
    pub tree: Option<Set<u8>>,
}

impl MasksModel {
    /// Masks of which nothing is known.
    pub open spec fn none() -> Self {
        MasksModel { hash: None, tree: None }
    }

    /// Whether one of the masks has nibbles.
    pub open spec fn nonempty(self) -> bool {
        ||| self.hash is Some && self.hash->0 != Set::<u8>::empty()
        ||| self.tree is Some && self.tree->0 != Set::<u8>::empty()
    }
}

}
