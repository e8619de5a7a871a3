//! What holds of revealing a node: what it is then, and what is noted of it.

use crate::error::ErrorModel;
use crate::hash_run::lemma_nibbles_below;
use crate::lower::{key_ok, lemma_all_lower, lemma_kids_apart, lemma_kids_low};
use crate::model::{child_nibbles, MasksModel, NodeModel, TrieNodeModel};
use crate::notes::{lemma_own_masks, lemma_reveal_notes};
use crate::order::lemma_prefix_pointwise;
use crate::outside::{decoded_node, MAX_PATH_LEN};
use crate::path::{is_path, is_upper, lower_index_of, NUM_LOWER_SUBTRIES};
use crate::revealed::same_masks;
use crate::revealing::{
    child_bound, lemma_child_bound, lemma_reveal_grows, lemma_revealed_node, lemma_widest,
    same_level, widest,
};
use crate::shown::{
    child_acceptable, lemma_child_accepted, lemma_child_acceptable_same, lemma_other_kid,
    lemma_same_back, same_nodes_below, acceptable, blinded_in, child_shown, lemma_accepted,
    lemma_blinded_children, lemma_blinded_kids, lemma_blinded_lower, lemma_kid_shown,
    lemma_reveal_shown, lemma_trie_shown, open_in, shown,
};
use crate::soundness::lemma_child_there;
use crate::subtrie::SubtrieModel;
use crate::trie::TrieModel;
use vstd::prelude::*;

verus! {

/// Whether one of the given masks has a nibble.
pub open spec fn some_nibble(masks: MasksModel) -> bool {
    exists|n: u8| nibble_given(masks, n)
}

/// Whether one of the given masks has the given nibble.
pub open spec fn nibble_given(masks: MasksModel, n: u8) -> bool {
    ||| masks.hash matches Some(mask) && mask.contains(n)
    ||| masks.tree matches Some(mask) && mask.contains(n)
}

/// The node that takes the place of a blinded one with the given hash, or comes where there was none. A
/// branch that takes the place of a blinded one counts as stored if one of the given masks has a nibble.
pub open spec fn shown_node(node: TrieNodeModel, hash: Option<Seq<u8>>, masks: MasksModel) -> NodeModel {
    match node {
        TrieNodeModel::EmptyRoot => NodeModel::Empty,
        TrieNodeModel::Branch { mask, .. } => NodeModel::Branch {
            mask,
            hash,
            store: if hash is Some {
                Some(some_nibble(masks))
            } else {
                None
            },
        },
        TrieNodeModel::Extension { key, .. } => NodeModel::Extension { key, hash, store: None },
        TrieNodeModel::Leaf { key, .. } => NodeModel::Leaf { key, hash },
    }
}

/// Masks are empty if neither has a nibble.
pub proof fn lemma_some_nibble(masks: MasksModel)
    ensures
        masks.nonempty() == some_nibble(masks),
{
    if masks.nonempty() && !some_nibble(masks) {
        if let Some(mask) = masks.hash {
            assert forall|n: u8| !mask.contains(n) by {
                assert(!nibble_given(masks, n));
            }
            assert(mask =~= Set::empty());
        }
        if let Some(mask) = masks.tree {
            assert forall|n: u8| !mask.contains(n) by {
                assert(!nibble_given(masks, n));
            }
            assert(mask =~= Set::empty());
        }
    }
}

/// A node that is revealed in a subtrie is there as it was given, with the hash of the blinded node whose
/// place it takes, and a leaf with its value. Its masks are noted as they were given; all others stay, and
/// nothing is recorded. An empty root can only be the root.
pub proof fn law_subtrie_shows_the_node(
    s: SubtrieModel,
    path: Seq<u8>,
    node: TrieNodeModel,
    masks: MasksModel,
)
    requires
        !s.nodes.contains_key(path) || s.nodes[path] is Hash,
        s.with_revealed(path, node, masks).result is Ok,
    ensures
        ({
            let r = s.with_revealed(path, node, masks).subtrie;
            let hash = if s.nodes.contains_key(path) {
                Some(s.nodes[path]->Hash_0)
            } else {
                None
            };
            &&& r.nodes.contains_key(path)
            &&& r.nodes[path] == shown_node(node, hash, masks)
            &&& node matches TrieNodeModel::Leaf { key, value } ==> r.src.values.contains_key(path + key)
                && r.src.values[path + key] == value
            &&& node is EmptyRoot ==> path.len() == 0 && s.path.len() == 0
            &&& r.src.tree_masks == match masks.tree {
                Some(mask) => s.src.tree_masks.insert(path, mask),
                None => s.src.tree_masks,
            }
            &&& r.src.hash_masks == match masks.hash {
                Some(mask) => s.src.hash_masks.insert(path, mask),
                None => s.src.hash_masks,
            }
            &&& r.updates == s.updates
        }),
{
    lemma_revealed_node(s, path, node, masks);
    lemma_own_masks(s, path, node, masks);
    lemma_some_nibble(masks);
    lemma_reveal_grows(s, path, node, masks);
}

/// A node that is revealed in a trie is there as it was given, with the hash of the blinded node whose
/// place it takes, and a leaf with its value.
pub proof fn law_trie_shows_the_node(
    t: TrieModel,
    path: Seq<u8>,
    node: TrieNodeModel,
    masks: MasksModel,
)
    requires
        t.placed(),
        is_path(path),
        !t.has_node(path) || t.node(path) is Hash,
        t.with_revealed(path, node, masks).result is Ok,
    ensures
        ({
            let r = t.with_revealed(path, node, masks).trie;
            let hash = if t.has_node(path) {
                Some(t.node(path)->Hash_0)
            } else {
                None
            };
            &&& r.has_node(path)
            &&& r.node(path) == shown_node(node, hash, masks)
            &&& node matches TrieNodeModel::Leaf { key, value } ==> r.subtrie_at(
                path,
            ).src.values.contains_key(path + key) && r.subtrie_at(path).src.values[path + key] == value
            &&& node is EmptyRoot ==> path.len() == 0
        }),
{
    lemma_node_shown(t, path, node, masks);
}

/// A node that is revealed in a trie is there.
pub proof fn lemma_node_shown(
    t: TrieModel,
    path: Seq<u8>,
    node: TrieNodeModel,
    masks: MasksModel,
)
    requires
        t.lower.len() == NUM_LOWER_SUBTRIES,
        is_path(path),
        !t.has_node(path) || t.node(path) is Hash,
        t.with_revealed(path, node, masks).result is Ok,
    ensures
        ({
            let r = t.with_revealed(path, node, masks).trie;
            let hash = if t.has_node(path) {
                Some(t.node(path)->Hash_0)
            } else {
                None
            };
            &&& r.has_node(path)
            &&& r.node(path) == shown_node(node, hash, masks)
            &&& node matches TrieNodeModel::Leaf { key, value } ==> r.subtrie_at(
                path,
            ).src.values.contains_key(path + key) && r.subtrie_at(path).src.values[path + key] == value
            &&& node is EmptyRoot ==> path.len() == 0
        }),
{
    if is_upper(path) {
        let kids = t.lower_kids(path, node);
        lemma_kids_low(t, path, node);
        lemma_all_lower(t, path, kids);
    } else {
        assert(path[0] < 16 && path[1] < 16);
    }
    law_subtrie_shows_the_node(t.subtrie_at(path), path, node, masks);
}

/// Revealing a node, if that succeeds, notes the masks that were given with it, in the subtrie of the
/// node, and no others.
pub proof fn law_reveal_notes_masks(
    t: TrieModel,
    path: Seq<u8>,
    node: TrieNodeModel,
    masks: MasksModel,
    q: Seq<u8>,
)
    requires
        t.placed(),
        is_path(path),
        is_path(q),
        !t.has_node(path) || t.node(path) is Hash,
        t.with_revealed(path, node, masks).result is Ok,
    ensures
        ({
            let before = t.subtrie_at(q).src;
            let after = t.with_revealed(path, node, masks).trie.subtrie_at(q).src;
            &&& q == path ==> after.tree_masks == match masks.tree {
                Some(mask) => before.tree_masks.insert(path, mask),
                None => before.tree_masks,
            }
            &&& q == path ==> after.hash_masks == match masks.hash {
                Some(mask) => before.hash_masks.insert(path, mask),
                None => before.hash_masks,
            }
            &&& q != path ==> after.tree_masks.contains_key(q) == before.tree_masks.contains_key(q)
                && (before.tree_masks.contains_key(q) ==> after.tree_masks[q]
                == before.tree_masks[q])
            &&& q != path ==> after.hash_masks.contains_key(q) == before.hash_masks.contains_key(q)
                && (before.hash_masks.contains_key(q) ==> after.hash_masks[q]
                == before.hash_masks[q])
        }),
{
    lemma_masks_noted(t, path, node, masks, q);
}

/// Revealing a node notes its masks.
pub proof fn lemma_masks_noted(
    t: TrieModel,
    path: Seq<u8>,
    node: TrieNodeModel,
    masks: MasksModel,
    q: Seq<u8>,
)
    requires
        t.lower.len() == NUM_LOWER_SUBTRIES,
        is_path(path),
        is_path(q),
        !t.has_node(path) || t.node(path) is Hash,
        t.with_revealed(path, node, masks).result is Ok,
    ensures
        ({
            let before = t.subtrie_at(q).src;
            let after = t.with_revealed(path, node, masks).trie.subtrie_at(q).src;
            &&& q == path ==> after.tree_masks == match masks.tree {
                Some(mask) => before.tree_masks.insert(path, mask),
                None => before.tree_masks,
            }
            &&& q == path ==> after.hash_masks == match masks.hash {
                Some(mask) => before.hash_masks.insert(path, mask),
                None => before.hash_masks,
            }
            &&& q != path ==> after.tree_masks.contains_key(q) == before.tree_masks.contains_key(q)
                && (before.tree_masks.contains_key(q) ==> after.tree_masks[q]
                == before.tree_masks[q])
            &&& q != path ==> after.hash_masks.contains_key(q) == before.hash_masks.contains_key(q)
                && (before.hash_masks.contains_key(q) ==> after.hash_masks[q]
                == before.hash_masks[q])
        }),
{
    let r = t.with_revealed(path, node, masks).trie;
    lemma_reveal_notes(t, path, node, masks);
    if is_upper(path) {
        let kids = t.lower_kids(path, node);
        lemma_kids_low(t, path, node);
        lemma_all_lower(t, path, kids);
    } else {
        assert(path[0] < 16 && path[1] < 16);
    }
    law_subtrie_shows_the_node(t.subtrie_at(path), path, node, masks);
    if !is_upper(q) {
        assert(q[0] < 16 && q[1] < 16);
        let i = lower_index_of(q);
        assert(t.subtrie_at(q) == t.lower_at(i));
        if is_upper(path) || i != lower_index_of(path) {
            assert(same_masks(t.lower_at(i), r.lower_at(i)));
        }
    }
}

/// Revealing a node, whether it succeeds or fails, records nothing in any part of the trie, and starts no
/// recording. What a lower subtrie would have that is created counts.
pub proof fn law_reveal_records_nothing(
    t: TrieModel,
    path: Seq<u8>,
    node: TrieNodeModel,
    masks: MasksModel,
    i: int,
)
    requires
        t.placed(),
        is_path(path),
        0 <= i < t.lower.len(),
    ensures
        ({
            let r = t.with_revealed(path, node, masks).trie;
            &&& r.updates == t.updates
            &&& r.upper.updates == t.upper.updates
            &&& r.lower_at(i).updates == t.lower_at(i).updates
            &&& r.prefix == t.prefix
        }),
{
    lemma_reveal_notes(t, path, node, masks);
    assert(t.lower_at(i).updates == t.with_revealed(path, node, masks).trie.lower_at(i).updates);
}

/// A node that is revealed in a trie is shown there with all that comes with it: children that were given
/// by their hashes are blinded, others are shown as the nodes that they are, and so on below. What had been
/// revealed is as it was.
pub proof fn law_trie_shows_all(t: TrieModel, path: Seq<u8>, node: TrieNodeModel, masks: MasksModel)
    requires
        t.placed(),
        is_path(path),
        !t.has_node(path) || t.node(path) is Hash,
        t.with_revealed(path, node, masks).result is Ok,
    ensures
        shown(t.shot(), t.with_revealed(path, node, masks).trie.shot(), path, node, masks, true),
{
    lemma_trie_shown(t, path, node, masks);
}

/// A node that is revealed in a subtrie is shown there with all that comes with it, as far as it belongs to
/// the same level of the trie.
pub proof fn law_subtrie_shows_all(
    s: SubtrieModel,
    path: Seq<u8>,
    node: TrieNodeModel,
    masks: MasksModel,
)
    requires
        !s.nodes.contains_key(path) || s.nodes[path] is Hash,
        s.with_revealed(path, node, masks).result is Ok,
    ensures
        shown(s.shot(), s.with_revealed(path, node, masks).subtrie.shot(), path, node, masks, false),
{
    lemma_reveal_shown(s, path, node, masks);
}

/// The children of a branch that is revealed in a trie: the RLP nodes belong to the nibbles in ascending
/// order. A child that was not there, and is given by its hash, is blinded with that hash; one that was
/// blinded has to have that hash; one that had been revealed stays.
pub proof fn law_children_of_a_branch(
    t: TrieModel,
    path: Seq<u8>,
    stack: Seq<Seq<u8>>,
    mask: Set<u8>,
    masks: MasksModel,
    i: int,
)
    requires
        t.placed(),
        is_path(path),
        !t.has_node(path) || t.node(path) is Hash,
        t.with_revealed(path, TrieNodeModel::Branch { stack, mask }, masks).result is Ok,
        stack.len() == child_nibbles(mask).len(),
        0 <= i < stack.len(),
    ensures
        ({
            let r = t.with_revealed(path, TrieNodeModel::Branch { stack, mask }, masks).trie;
            let kid = path.push(child_nibbles(mask)[i]);
            &&& r.has_node(kid)
            &&& t.has_node(kid) && t.node(kid) !is Hash ==> r.node(kid) == t.node(kid)
            &&& stack[i].len() == 33 && (!t.has_node(kid) || t.node(kid) is Hash) ==> r.node(kid)
                == NodeModel::Hash(stack[i].skip(1))
            &&& stack[i].len() == 33 && t.has_node(kid) && t.node(kid) is Hash ==> t.node(kid)
                == NodeModel::Hash(stack[i].skip(1))
        }),
{
    let node = TrieNodeModel::Branch { stack, mask };
    let r = t.with_revealed(path, node, masks).trie;
    lemma_trie_shown(t, path, node, masks);
    lemma_kid_shown(t.shot(), r.shot(), path, stack, child_nibbles(mask), 0, true, i);
    let kid = path.push(child_nibbles(mask)[i]);
    assert(t.shot().nodes.contains_key(kid) == t.has_node(kid));
    assert(r.shot().nodes.contains_key(kid) == r.has_node(kid));
}

/// The child of an extension that is revealed in a trie is where the key of the extension leads to.
pub proof fn law_child_of_an_extension(
    t: TrieModel,
    path: Seq<u8>,
    key: Seq<u8>,
    child: Seq<u8>,
    masks: MasksModel,
)
    requires
        t.placed(),
        is_path(path),
        !t.has_node(path) || t.node(path) is Hash,
        t.with_revealed(path, TrieNodeModel::Extension { key, child }, masks).result is Ok,
        key.len() > 0,
        forall|i: int| 0 <= i < key.len() ==> (#[trigger] key[i]) < 16,
    ensures
        ({
            let r = t.with_revealed(path, TrieNodeModel::Extension { key, child }, masks).trie;
            let kid = path + key;
            &&& r.has_node(kid)
            &&& t.has_node(kid) && t.node(kid) !is Hash ==> r.node(kid) == t.node(kid)
            &&& child.len() == 33 && (!t.has_node(kid) || t.node(kid) is Hash) ==> r.node(kid)
                == NodeModel::Hash(child.skip(1))
            &&& child.len() == 33 && t.has_node(kid) && t.node(kid) is Hash ==> t.node(kid)
                == NodeModel::Hash(child.skip(1))
        }),
{
    let node = TrieNodeModel::Extension { key, child };
    let r = t.with_revealed(path, node, masks).trie;
    lemma_trie_shown(t, path, node, masks);
    let kid = path + key;
    assert(key_ok(node));
    assert(child_shown(t.shot(), r.shot(), kid, child, true));
    assert(t.shot().nodes.contains_key(kid) == t.has_node(kid));
    assert(r.shot().nodes.contains_key(kid) == r.has_node(kid));
}

// When revealing succeeds.

/// Revealing a node in a subtrie that has not been revealed there succeeds just if it fits and its children
/// can be revealed, as far as they belong to the same level of the trie.
pub proof fn law_when_a_subtrie_reveals(
    s: SubtrieModel,
    path: Seq<u8>,
    node: TrieNodeModel,
    masks: MasksModel,
)
    ensures
        s.with_revealed(path, node, masks).result is Ok == (open_in(s.shot(), path) || acceptable(
            s.shot(),
            s.path.len() == 0,
            path,
            node,
        )),
{
    if !open_in(s.shot(), path) {
        lemma_accepted(s, path, node, masks);
    }
}

/// Revealing a node in a lower subtrie of a trie succeeds just if it fits and all its children can be
/// revealed.
pub proof fn law_when_a_lower_node_is_revealed(
    t: TrieModel,
    path: Seq<u8>,
    node: TrieNodeModel,
    masks: MasksModel,
)
    requires
        t.placed(),
        is_path(path),
        !is_upper(path),
    ensures
        t.with_revealed(path, node, masks).result is Ok == (t.is_revealed(path) || acceptable(
            t.subtrie_at(path).shot(),
            t.subtrie_at(path).path.len() == 0,
            path,
            node,
        )),
{
    assert(path[0] < 16 && path[1] < 16);
    if !t.is_revealed(path) {
        lemma_accepted(t.subtrie_at(path), path, node, masks);
    }
}

/// A leaf, or a branch whose children are given by their hashes, can be revealed wherever it fits and
/// nothing contradicts the hashes. An empty root can be revealed as the root.
pub proof fn law_what_can_be_revealed(
    t: TrieModel,
    path: Seq<u8>,
    node: TrieNodeModel,
    masks: MasksModel,
)
    requires
        t.placed(),
        is_path(path),
        match node {
            TrieNodeModel::EmptyRoot => path.len() == 0,
            TrieNodeModel::Leaf { key, .. } => path.len() + key.len() <= MAX_PATH_LEN,
            TrieNodeModel::Branch { stack, mask } => {
                &&& path.len() < MAX_PATH_LEN
                &&& stack.len() == child_nibbles(mask).len()
                &&& forall|i: int| 0 <= i < stack.len() ==> (#[trigger] stack[i]).len() == 33
                &&& forall|i: int|
                    0 <= i < stack.len() ==> {
                        let kid = path.push(#[trigger] child_nibbles(mask)[i]);
                        t.has_node(kid) && t.node(kid) is Hash ==> t.node(kid) == NodeModel::Hash(
                            stack[i].skip(1),
                        )
                    }
            },
            TrieNodeModel::Extension { .. } => false,
        },
    ensures
        t.with_revealed(path, node, masks).result is Ok,
{
    if !t.is_revealed(path) {
        if is_upper(path) {
            let kids = t.lower_kids(path, node);
            lemma_kids_low(t, path, node);
            lemma_all_lower(t, path, kids);
            lemma_kids_apart(t, path, node);
            if let TrieNodeModel::Branch { stack, mask } = node {
                lemma_blinded_lower(t, path, stack, child_nibbles(mask), 0);
            }
            lemma_blinded_children(t, path, kids);
        } else {
            assert(path[0] < 16 && path[1] < 16);
        }
        let s = t.subtrie_at(path);
        lemma_accepted(s, path, node, masks);
        if let TrieNodeModel::Branch { stack, mask } = node {
            let nibbles = child_nibbles(mask);
            assert forall|i: int|
                0 <= i < nibbles.len() && same_level(path, path.push(nibbles[i])) implies (blinded_in(
                s.shot(),
                path.push(#[trigger] nibbles[i]),
            ) matches Some(hash) ==> hash == stack[stack.len() - nibbles.len() + i].skip(1)) by {
                let kid = path.push(nibbles[i]);
                if !is_upper(path) {
                    assert(kid[0] == path[0] && kid[1] == path[1]);
                }
                assert(t.has_node(kid) == s.nodes.contains_key(kid));
            }
            lemma_blinded_kids(s.shot(), s.path.len() == 0, path, stack, nibbles, 0);
        }
    }
}

/// What does not fit cannot be revealed, and is refused: an empty root anywhere but at the root, and a leaf
/// or an extension whose full path is too long.
pub proof fn law_what_is_refused(s: SubtrieModel, path: Seq<u8>, node: TrieNodeModel, masks: MasksModel)
    requires
        !open_in(s.shot(), path),
        match node {
            TrieNodeModel::EmptyRoot => path.len() > 0 || s.path.len() > 0,
            TrieNodeModel::Leaf { key, .. } => path.len() + key.len() > MAX_PATH_LEN,
            TrieNodeModel::Extension { key, .. } => path.len() + key.len() > MAX_PATH_LEN,
            TrieNodeModel::Branch { mask, .. } => path.len() >= MAX_PATH_LEN && child_nibbles(
                mask,
            ).len() > 0,
        },
    ensures
        s.with_revealed(path, node, masks).subtrie == s,
        s.with_revealed(path, node, masks).result == Err::<(), ErrorModel>(
            ErrorModel::Reveal {
                path,
                node: match node {
                    TrieNodeModel::EmptyRoot => NodeModel::Empty,
                    TrieNodeModel::Leaf { key, .. } => NodeModel::Leaf { key, hash: None },
                    TrieNodeModel::Extension { key, .. } => NodeModel::Extension {
                        key,
                        hash: None,
                        store: None,
                    },
                    TrieNodeModel::Branch { mask, .. } => NodeModel::Branch {
                        mask,
                        hash: None,
                        store: None,
                    },
                },
            },
        ),
{
}

/// A child of 33 bytes is blinded, with the hash in it, where there is no node. It leaves what is there,
/// and is refused if that is a blinded node with another hash.
pub proof fn law_child_given_by_its_hash(s: SubtrieModel, path: Seq<u8>, child: Seq<u8>)
    requires
        child.len() == 33,
    ensures
        ({
            let r = s.reveal_child(path, child);
            let new = NodeModel::Hash(child.skip(1));
            &&& !s.nodes.contains_key(path) ==> r.result is Ok && r.subtrie == (SubtrieModel {
                nodes: s.nodes.insert(path, new),
                ..s
            })
            &&& s.nodes.contains_key(path) ==> r.subtrie == s
            &&& s.nodes.contains_key(path) && (s.nodes[path] !is Hash || s.nodes[path] == new)
                ==> r.result is Ok
            &&& s.nodes.contains_key(path) && s.nodes[path] is Hash && s.nodes[path] != new
                ==> r.result == Err::<(), ErrorModel>(ErrorModel::Reveal { path, node: new })
        }),
{
}

/// A child of another length is revealed as the node that it is the RLP of, without masks. If it is the RLP
/// of none, that is the error.
pub proof fn law_child_given_as_a_node(s: SubtrieModel, path: Seq<u8>, child: Seq<u8>)
    requires
        child.len() != 33,
    ensures
        match decoded_node(child) {
            Ok(node) => node.children_below(child.len()) ==> s.reveal_child(path, child)
                == s.with_revealed(path, node, MasksModel { hash: None, tree: None }),
            Err(error) => s.reveal_child(path, child).subtrie == s && s.reveal_child(path, child).result
                == Err::<(), ErrorModel>(ErrorModel::Rlp(error)),
        },
{
}

/// Why the child of a branch cannot be revealed from its RLP node, if that shows at once: a blinded node with
/// another hash is there, or it is the RLP of no node.
pub open spec fn plain_failure(s: SubtrieModel, path: Seq<u8>, child: Seq<u8>) -> Option<ErrorModel> {
    if child.len() == 33 {
        if s.nodes.contains_key(path) && s.nodes[path] is Hash && s.nodes[path] != NodeModel::Hash(
            child.skip(1),
        ) {
            Some(ErrorModel::Reveal { path, node: NodeModel::Hash(child.skip(1)) })
        } else {
            None
        }
    } else {
        match decoded_node(child) {
            Ok(_) => None,
            Err(error) => Some(ErrorModel::Rlp(error)),
        }
    }
}

/// Revealing a branch in a subtrie fails with the failure of the first child that cannot be revealed. The node
/// is not revealed then.
pub proof fn law_first_failure_is_reported(
    s: SubtrieModel,
    path: Seq<u8>,
    stack: Seq<Seq<u8>>,
    mask: Set<u8>,
    masks: MasksModel,
    i: int,
)
    requires
        !open_in(s.shot(), path),
        path.len() < MAX_PATH_LEN,
        stack.len() == child_nibbles(mask).len(),
        0 <= i < stack.len(),
        same_level(path, path.push(child_nibbles(mask)[i])),
        plain_failure(s, path.push(child_nibbles(mask)[i]), stack[i]) is Some,
        forall|j: int|
            0 <= j < i ==> child_acceptable(
                s.shot(),
                s.path.len() == 0,
                path.push(#[trigger] child_nibbles(mask)[j]),
                stack[j],
            ),
    ensures
        s.with_revealed(path, TrieNodeModel::Branch { stack, mask }, masks).result == Err::<
            (),
            ErrorModel,
        >(plain_failure(s, path.push(child_nibbles(mask)[i]), stack[i])->0),
{
    lemma_nibbles_below(mask, 16);
    lemma_first_failure(s, path, stack, child_nibbles(mask), 0, i);
}

/// The failure of the first child from some number on that cannot be revealed.
proof fn lemma_first_failure(
    s: SubtrieModel,
    path: Seq<u8>,
    stack: Seq<Seq<u8>>,
    nibbles: Seq<u8>,
    from: int,
    i: int,
)
    requires
        stack.len() == nibbles.len(),
        0 <= from <= i < nibbles.len(),
        forall|a: int, b: int|
            0 <= a < b < nibbles.len() ==> #[trigger] nibbles[a] < #[trigger] nibbles[b],
        same_level(path, path.push(nibbles[i])),
        plain_failure(s, path.push(nibbles[i]), stack[i]) is Some,
        forall|j: int|
            from <= j < i ==> child_acceptable(
                s.shot(),
                s.path.len() == 0,
                path.push(#[trigger] nibbles[j]),
                stack[j],
            ),
    ensures
        s.reveal_kids(path, stack, nibbles, from).result == Err::<(), ErrorModel>(
            plain_failure(s, path.push(nibbles[i]), stack[i])->0,
        ),
    decreases i - from,
{
    let kid = path.push(nibbles[from]);
    if from < i {
        let n = nibbles[from];
        assert(same_level(path, kid));
        lemma_child_accepted(s, kid, stack[from]);
        lemma_child_there(s, kid, stack[from]);
        let u = s.reveal_child(kid, stack[from]).subtrie;
        assert forall|j: int| from + 1 <= j <= i implies same_nodes_below(
            u.shot(),
            s.shot(),
            path.push(#[trigger] nibbles[j]),
        ) by {
            assert(nibbles[from] < nibbles[j]);
            lemma_other_kid(s, path, n, nibbles[j], stack[from]);
            lemma_same_back(s.shot(), u.shot(), path.push(nibbles[j]));
        }
        assert forall|j: int| from + 1 <= j < i implies child_acceptable(
            u.shot(),
            u.path.len() == 0,
            path.push(#[trigger] nibbles[j]),
            stack[j],
        ) by {
            lemma_child_acceptable_same(
                u.shot(),
                s.shot(),
                s.path.len() == 0,
                path.push(nibbles[j]),
                stack[j],
            );
        }
        let last = path.push(nibbles[i]);
        lemma_prefix_pointwise(last, last);
        assert(same_nodes_below(u.shot(), s.shot(), last));
        assert(u.shot().nodes.contains_key(last) == s.shot().nodes.contains_key(last));
        lemma_first_failure(u, path, stack, nibbles, from + 1, i);
    }
}

/// Revealing a node in a trie, where it has not been revealed, does in the subtrie of the node what revealing
/// it there does, if it succeeds; for a node of a lower subtrie also if it fails. The other lower subtries stay
/// then, and so does the upper one.
pub proof fn law_reveal_in_the_own_subtrie(
    t: TrieModel,
    path: Seq<u8>,
    node: TrieNodeModel,
    masks: MasksModel,
    i: int,
)
    requires
        t.placed(),
        is_path(path),
        !t.is_revealed(path),
        0 <= i < t.lower.len(),
    ensures
        ({
            let own = t.subtrie_at(path).with_revealed(path, node, masks);
            let r = t.with_revealed(path, node, masks);
            &&& r.result is Ok || !is_upper(path) ==> {
                &&& r.result == own.result
                &&& r.trie.subtrie_at(path).nodes == own.subtrie.nodes
                &&& r.trie.subtrie_at(path).src == own.subtrie.src
                &&& r.trie.subtrie_at(path).updates == own.subtrie.updates
            }
            &&& !is_upper(path) ==> r.trie.upper == t.upper
            &&& !is_upper(path) && i != lower_index_of(path) ==> r.trie.lower[i] == t.lower[i]
            &&& r.trie.prefix == t.prefix
            &&& r.trie.updates == t.updates
        }),
{
    lemma_reveal_notes(t, path, node, masks);
    if is_upper(path) {
        let kids = t.lower_kids(path, node);
        lemma_kids_low(t, path, node);
        lemma_all_lower(t, path, kids);
    } else {
        assert(path[0] < 16 && path[1] < 16);
    }
}

/// The path of a lower subtrie in which a node was revealed is the path of that node, if it is shorter than
/// the one that the subtrie had, or if there is no node at that one; otherwise it stays. That of the upper
/// subtrie always does, and so does that of a lower one if revealing fails.
pub proof fn law_path_of_the_subtrie(
    t: TrieModel,
    path: Seq<u8>,
    node: TrieNodeModel,
    masks: MasksModel,
)
    requires
        t.placed(),
        is_path(path),
        !t.is_revealed(path),
    ensures
        ({
            let r = t.with_revealed(path, node, masks);
            let before = t.subtrie_at(path).path;
            let after = r.trie.subtrie_at(path);
            &&& is_upper(path) || r.result is Err ==> after.path == before
            &&& !is_upper(path) && r.result is Ok ==> after.path == if path.len() < before.len()
                || !after.nodes.contains_key(before) {
                path
            } else {
                before
            }
        }),
{
    if is_upper(path) {
        let kids = t.lower_kids(path, node);
        lemma_kids_low(t, path, node);
        lemma_all_lower(t, path, kids);
    } else {
        assert(path[0] < 16 && path[1] < 16);
    }
    lemma_path_stays(t.subtrie_at(path), path, node, masks);
}

/// Revealing a node in a subtrie leaves the path of the subtrie.
proof fn lemma_path_stays(s: SubtrieModel, path: Seq<u8>, node: TrieNodeModel, masks: MasksModel)
    ensures
        s.with_revealed(path, node, masks).subtrie.path == s.path,
    decreases child_bound(node), 2int, 0int,
{
    match node {
        TrieNodeModel::Branch { stack, mask } => {
            lemma_kids_path(s, path, stack, child_nibbles(mask), 0);
        },
        TrieNodeModel::Extension { key, child } => {
            lemma_child_path_stays(s, path + key, child);
        },
        _ => {},
    }
}

/// Revealing the children of a branch leaves the path of the subtrie.
proof fn lemma_kids_path(
    s: SubtrieModel,
    path: Seq<u8>,
    stack: Seq<Seq<u8>>,
    nibbles: Seq<u8>,
    from: int,
)
    ensures
        s.reveal_kids(path, stack, nibbles, from).subtrie.path == s.path,
    decreases widest(stack), 1int, nibbles.len() - from,
{
    let place = stack.len() - nibbles.len() + from;
    if !(from >= nibbles.len() || !(0 <= place < stack.len())) {
        let kid = path.push(nibbles[from]);
        lemma_widest(stack, place);
        let next = if same_level(path, kid) {
            lemma_child_path_stays(s, kid, stack[place]);
            s.reveal_child(kid, stack[place])
        } else {
            s.ok()
        };
        if next.result is Ok {
            lemma_kids_path(next.subtrie, path, stack, nibbles, from + 1);
        }
    }
}

/// Revealing a child leaves the path of the subtrie.
proof fn lemma_child_path_stays(s: SubtrieModel, path: Seq<u8>, child: Seq<u8>)
    ensures
        s.reveal_child(path, child).subtrie.path == s.path,
    decreases child.len(), 3int, 0int,
{
    if child.len() != 33 {
        if let Ok(node) = decoded_node(child) {
            if node.children_below(child.len()) {
                lemma_child_bound(node, child.len());
                lemma_path_stays(s, path, node, MasksModel::none());
            }
        }
    }
}

}
