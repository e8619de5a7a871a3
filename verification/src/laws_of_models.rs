//! What the models stand for, field by field.

use crate::error::{ErrorModel, SparseTrieErrorKind};
use crate::hashing::{PathItem, RlpItem};
use crate::model::{model_opt, MasksModel, Model, NodeModel, TrieNodeModel};
use crate::node::{SparseNode, TrieMasks, TrieNode};
use crate::path::{is_upper, subtrie_type, SparseSubtrieType};
use crate::provider::{reply_model, ProviderReply, RevealedModel, RevealedNode};
use crate::revealing::same_level;
use crate::subtrie::{
    RlpNodePathStackItem, RlpNodeStackItem, SparseSubtrie, SparseSubtrieInner, SubtrieModel,
};
use crate::trie::ParallelSparseTrie;
use crate::updates::{updates_of, SparseTrieUpdates};
use vstd::prelude::*;

verus! {

/// The masks of a branch, each as what it is.
pub proof fn law_masks(masks: TrieMasks)
    ensures
        masks.model() == (MasksModel {
            hash: model_opt(masks.hash_mask),
            tree: model_opt(masks.tree_mask),
        }),
        masks.hash_mask matches Some(mask) ==> masks.model().hash == Some(mask.model()),
        masks.tree_mask matches Some(mask) ==> masks.model().tree == Some(mask.model()),
        masks.hash_mask is None ==> masks.model().hash is None,
        masks.tree_mask is None ==> masks.model().tree is None,
{
}

/// What a provider answers, with its masks each as what it is.
pub proof fn law_replies(node: RevealedNode, reply: ProviderReply)
    ensures
        node.model() == (RevealedModel {
            node: node.node@,
            masks: MasksModel {
                hash: model_opt(node.hash_mask),
                tree: model_opt(node.tree_mask),
            },
        }),
        match reply {
            Ok(Some(known)) => reply_model(reply) == Ok::<Option<RevealedModel>, ErrorModel>(
                Some(known.model()),
            ),
            Ok(None) => reply_model(reply) == Ok::<Option<RevealedModel>, ErrorModel>(None),
            Err(error) => reply_model(reply) == Err::<Option<RevealedModel>, ErrorModel>(
                error.model(),
            ),
        },
{
}

/// A node of a sparse trie.
pub proof fn law_nodes(node: SparseNode)
    ensures
        match node {
            SparseNode::Empty => node.model() is Empty,
            SparseNode::Hash(hash) => node.model() == NodeModel::Hash(hash.model()),
            SparseNode::Leaf { key, hash } => node.model() == (NodeModel::Leaf {
                key: key.model(),
                hash: model_opt(hash),
            }),
            SparseNode::Extension { key, hash, store_in_db_trie } => node.model()
                == (NodeModel::Extension {
                key: key.model(),
                hash: model_opt(hash),
                store: store_in_db_trie,
            }),
            SparseNode::Branch { state_mask, hash, store_in_db_trie } => node.model()
                == (NodeModel::Branch {
                mask: state_mask.model(),
                hash: model_opt(hash),
                store: store_in_db_trie,
            }),
        },
{
}

/// A decoded node. The RLP nodes of the children of a branch are in the order in which it has them.
pub proof fn law_decoded_nodes(node: TrieNode)
    ensures
        match node {
            TrieNode::EmptyRoot => node.model() is EmptyRoot,
            TrieNode::Branch(branch) => {
                &&& node.model() is Branch
                &&& node.model()->Branch_mask == branch.state_mask.model()
                &&& node.model()->stack.len() == branch.stack@.len()
                &&& forall|i: int|
                    0 <= i < branch.stack@.len() ==> #[trigger] node.model()->stack[i]
                        == branch.stack@[i].model()
            },
            TrieNode::Extension(ext) => node.model() == (TrieNodeModel::Extension {
                key: ext.key.model(),
                child: ext.child.model(),
            }),
            TrieNode::Leaf(leaf) => node.model() == (TrieNodeModel::Leaf {
                key: leaf.key.model(),
                value: leaf.value@,
            }),
        },
{
}

/// Recorded updates.
pub proof fn law_updates(updates: SparseTrieUpdates)
    ensures
        updates@.updated == updates.updated_nodes@,
        updates@.removed == updates.removed_nodes@,
        updates@.wiped == updates.wiped,
        updates_of(Some(updates)) == Some(updates@),
        updates_of(None) is None,
{
}

/// What a subtrie keeps beside its nodes.
pub proof fn law_sources(inner: SparseSubtrieInner)
    ensures
        inner.source().values == inner.values@,
        inner.source().tree_masks == inner.branch_node_tree_masks@,
        inner.source().hash_masks == inner.branch_node_hash_masks@,
{
}

/// A subtrie.
pub proof fn law_subtries(subtrie: SparseSubtrie)
    ensures
        subtrie@ == (SubtrieModel {
            path: subtrie.path.model(),
            nodes: subtrie.nodes@,
            src: subtrie.inner.source(),
            updates: updates_of(subtrie.inner.updates),
        }),
{
}

/// A trie.
pub proof fn law_tries(trie: ParallelSparseTrie, i: int)
    requires
        0 <= i < trie.lower_subtries@.len(),
    ensures
        trie@.upper == trie.upper_subtrie@,
        trie@.lower.len() == trie.lower_subtries@.len(),
        trie.lower_subtries@[i] matches Some(subtrie) ==> trie@.lower[i] == Some(subtrie@),
        trie.lower_subtries@[i] is None ==> trie@.lower[i] is None,
        trie@.prefix == trie.prefix_set@,
        trie@.updates == updates_of(trie.updates),
{
}

/// Waiting nodes, and encoded ones.
pub proof fn law_stack_items(waiting: RlpNodePathStackItem, encoded: RlpNodeStackItem)
    ensures
        waiting.model() == (PathItem {
            path: waiting.path.model(),
            touched: waiting.is_in_prefix_set,
        }),
        encoded.model() == (RlpItem {
            path: encoded.path.model(),
            rlp: encoded.rlp_node.model(),
            kind: encoded.node_type,
        }),
{
}

/// Why an operation failed.
pub proof fn law_errors(error: SparseTrieErrorKind)
    ensures
        match error {
            SparseTrieErrorKind::Blind => error.model() is Blind,
            SparseTrieErrorKind::BlindedNode { path, hash } => error.model()
                == (ErrorModel::BlindedNode { path: path.model(), hash: hash.model() }),
            SparseTrieErrorKind::Reveal { path, node } => error.model() == (ErrorModel::Reveal {
                path: path.model(),
                node: node.model(),
            }),
            SparseTrieErrorKind::Rlp(cause) => error.model() == ErrorModel::Rlp(cause),
            SparseTrieErrorKind::NodeNotFoundInProvider { path } => error.model()
                == (ErrorModel::NodeNotFoundInProvider { path: path.model() }),
            SparseTrieErrorKind::Other(message) => error.model() == ErrorModel::Other(message@),
        },
{
}

/// Where a path belongs: with fewer than two nibbles to the upper subtrie, and otherwise to the lower one
/// that its first two nibbles number. Two paths are of the same level if both belong to the upper subtrie, or
/// both to lower ones.
pub proof fn law_levels(path: Seq<u8>, other: Seq<u8>)
    ensures
        is_upper(path) == (path.len() < 2),
        same_level(path, other) == ((path.len() < 2) == (other.len() < 2)),
        path.len() < 2 ==> subtrie_type(path) == SparseSubtrieType::Upper,
        path.len() >= 2 && path[0] < 16 && path[1] < 16 ==> subtrie_type(path)
            == SparseSubtrieType::Lower((path[0] * 16 + path[1]) as usize),
{
}

}
