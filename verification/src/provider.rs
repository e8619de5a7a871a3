//! Where the blinded nodes of a trie come from.

use crate::error::{ErrorModel, SparseTrieErrorKind};
use crate::model::{model_opt, MasksModel, Model};
use alloy_trie::{Nibbles, TrieMask};
use vstd::prelude::*;

verus! {

/// A node that a provider knows.
#[derive(Clone, PartialEq, Eq, Debug)]
pub struct RevealedNode {
    /// The RLP of the node.
    pub node: Vec<u8>,
    /// The children of a branch below which the database keeps a branch, if that is known.
    pub tree_mask: Option<TrieMask>,
    /// The children of a branch that the database keeps as a hash, if that is known.
    pub hash_mask: Option<TrieMask>,
}

/// The model of a node that a provider knows.
#[verifier::ext_equal]
pub struct RevealedModel {
    pub node: Seq<u8>,
    pub masks: MasksModel,
}

impl Model for RevealedNode {
    type M = RevealedModel;

    open spec fn model(&self) -> RevealedModel {
        RevealedModel {
            node: self.node@,
            masks: MasksModel { hash: model_opt(self.hash_mask), tree: model_opt(self.tree_mask) },
        }
    }
}

/// What a provider answers.
pub type ProviderReply = Result<Option<RevealedNode>, SparseTrieErrorKind>;

/// The model of what a provider answers.
pub open spec fn reply_model(reply: ProviderReply) -> Result<Option<RevealedModel>, ErrorModel> {
    match reply {
        Ok(node) => Ok(model_opt(node)),
        Err(error) => Err(error.model()),
    }
}

/// Something that knows the blinded nodes of a trie.
pub trait BlindedProvider {
    /// Returns the blinded node at a path, if it is known.
    fn blinded_node(&self, path: &Nibbles) -> ProviderReply;
}

}
