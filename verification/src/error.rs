//! Why an operation on a trie fails.

use crate::model::{Model, NodeModel};
use crate::node::SparseNode;
use alloy_primitives::B256;
use alloy_trie::Nibbles;
use vstd::prelude::*;

verus! {

/// Why an operation on a sparse trie failed.
#[derive(PartialEq, Eq, Debug)]
pub enum SparseTrieErrorKind {
    /// Nothing of the trie has been revealed.
    Blind,
    /// A blinded node is in the way.
    BlindedNode {
        /// The path of the node.
        path: Nibbles,
        /// The hash of the node.
        hash: B256,
    },
    /// A node cannot stand at a path.
    Reveal {
        /// The path.
        path: Nibbles,
        /// The node.
        node: SparseNode,
    },
    /// The RLP of a node is malformed.
    Rlp(alloy_rlp::Error),
    /// The provider does not know a blinded node.
    NodeNotFoundInProvider {
        /// The path of the node.
        path: Nibbles,
    },
    /// The provider failed.
    Other(String),
}

/// What an operation on a sparse trie returns.
pub type SparseTrieResult<T> = Result<T, SparseTrieErrorKind>;

/// The model of an error.
#[verifier::ext_equal]
pub enum ErrorModel {
    Blind,
    BlindedNode { path: Seq<u8>, hash: Seq<u8> },
    Reveal { path: Seq<u8>, node: NodeModel },
    Rlp(alloy_rlp::Error),
    NodeNotFoundInProvider { path: Seq<u8> },
    Other(Seq<char>),
}

impl Model for SparseTrieErrorKind {
    type M = ErrorModel;

    open spec fn model(&self) -> ErrorModel {
        match *self {
            SparseTrieErrorKind::Blind => ErrorModel::Blind,
            SparseTrieErrorKind::BlindedNode { path, hash } => ErrorModel::BlindedNode {
                path: path.model(),
                hash: hash.model(),
            },
            SparseTrieErrorKind::Reveal { path, node } => ErrorModel::Reveal {
                path: path.model(),
                node: node.model(),
            },
            SparseTrieErrorKind::Rlp(error) => ErrorModel::Rlp(error),
            SparseTrieErrorKind::NodeNotFoundInProvider { path } => {
                ErrorModel::NodeNotFoundInProvider { path: path.model() }
            },
            SparseTrieErrorKind::Other(message) => ErrorModel::Other(message@),
        }
    }
}

/// The model of a result that carries nothing but an error.
pub open spec fn outcome(result: Result<(), SparseTrieErrorKind>) -> Result<(), ErrorModel> {
    match result {
        Ok(_) => Ok(()),
        Err(error) => Err(error.model()),
    }
}

}
