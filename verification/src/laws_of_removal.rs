//! What holds of removing a leaf: what it needs, what it records, and what takes the place of a branch.

use crate::canon::lemma_leaf_found;
use crate::error::ErrorModel;
use crate::hash_run::lemma_nibbles_below;
use crate::laws_of_recording::{drops, writes};
use crate::laws_of_revealing::{lemma_masks_noted, lemma_node_shown, shown_node};
use crate::lookup::{
    child_known, lemma_cleared_shape, lemma_collapse_done, lemma_lead_down_shape,
    lemma_leaf_place, lemma_passes_below, lemma_passes_same_shape, lemma_unlinked_child,
    lemma_walk, lemma_walk_nodes, lemma_walk_ok_shape, Lookup,
};
use crate::model::{child_nibbles, NodeModel};
use crate::normal::{lemma_no_other_ext, lemma_normal_led, lemma_one_fewer, lemma_whole_removable};
use crate::notes::{lemma_masks_at, lemma_removed_masks, lemma_removed_notes};
use crate::order::lemma_prefix_pointwise;
use crate::outside::decoded_node;
use crate::path::{is_path, is_upper, lower_index_of, NUM_LOWER_SUBTRIES};
use crate::provider::RevealedModel;
use crate::recorded::same_record;
use crate::removal::{merged_branch, merged_ext, next_to_leaf, takes_child, NextModel, WalkEnd};
use crate::remove::{lemma_drop_node, lemma_put_node, lemma_recorded_gone, lemma_unlinked};
use crate::remove_sound::lemma_walk_alike;
use crate::revealed::{lemma_reveal_only, same_masks};
use crate::soundness::lemma_alike_node;
use crate::trie::TrieModel;
use vstd::prelude::*;

verus! {

impl TrieModel {
    /// Whether the leaf with a full path is a child of the branch at a path.
    pub open spec fn right_above(self, full: Seq<u8>, branch: Seq<u8>) -> bool {
        &&& self.has_node(branch)
        &&& self.node(branch) is Branch
        &&& branch.len() < full.len()
        &&& self.lookup(full) == Lookup::At(branch.push(full[branch.len() as int]))
    }

    /// Whether the leaf with a full path is one of two children of the branch at a path, so that the
    /// branch has one child left without it.
    pub open spec fn one_of_two(self, full: Seq<u8>, branch: Seq<u8>) -> bool {
        self.right_above(full, branch) && child_nibbles(self.node(branch)->Branch_mask).len() == 2
    }
}

/// What the walk to a leaf knows of the branch above it.
proof fn lemma_right_above(t: TrieModel, full: Seq<u8>)
    requires
        t.lower.len() == NUM_LOWER_SUBTRIES,
        t.removable(full),
        is_path(full),
    ensures
        ({
            let walk = t.walk(full, Seq::empty(), None, None);
            &&& walk.end is Leaf == t.lookup(full) is At
            &&& match walk.end {
                WalkEnd::Leaf { path, branch, .. } => {
                    &&& t.lookup(full) == Lookup::At(path)
                    &&& path.len() > 0 ==> {
                        let b = branch->0;
                        let n = full[b.len() as int];
                        let mask = t.node(b)->Branch_mask;
                        &&& branch is Some
                        &&& t.right_above(full, b)
                        &&& path == b.push(n)
                        &&& n < 16
                        &&& mask.contains(n)
                        &&& walk.trie.mask_without(b, path) == mask.remove(n)
                        &&& child_nibbles(mask).len() == child_nibbles(mask.remove(n)).len() + 1
                        &&& forall|q: Seq<u8>| #[trigger] t.right_above(full, q) ==> q == b
                    }
                },
                _ => forall|q: Seq<u8>| !#[trigger] t.right_above(full, q),
            }
        }),
{
    let root = Seq::<u8>::empty();
    let walk = t.walk(full, root, None, None);
    let w = walk.trie;
    lemma_prefix_pointwise(root, full);
    lemma_walk(t, full, root, None, None);
    lemma_walk_alike(t, full, root, None, None);
    lemma_leaf_place(t, full);
    if let WalkEnd::Leaf { path, branch, ext } = walk.end {
        if path.len() > 0 {
            let b = branch->0;
            let n = full[b.len() as int];
            lemma_alike_node(t, w, b);
            assert(path[b.len() as int] == n);
            lemma_one_fewer(t.node(b)->Branch_mask, n, 16);
            assert forall|q: Seq<u8>| #[trigger] t.right_above(full, q) implies q == b by {
                assert(q.push(full[q.len() as int]).drop_last() =~= q);
                assert(path.drop_last() =~= b);
            }
        }
    }
}

// What a removal records.

/// Removing a leaf keeps all that any part of the trie has recorded of a path, unless the path is that of
/// a branch that is merged with its only other child. Nothing is recorded where the removal fails, or
/// where updates are not recorded.
pub proof fn law_removal_keeps_records(
    t: TrieModel,
    full: Seq<u8>,
    reply: Result<Option<RevealedModel>, ErrorModel>,
    q: Seq<u8>,
    part: int,
)
    requires
        t.placed(),
        t.removable(full),
        is_path(full),
        0 <= part < t.lower.len() + 2,
        part >= 2 ==> t.lower[part - 2] is Some,
        !t.one_of_two(full, q) || t.leaf_removed(full, reply).result is Err || t.updates is None,
    ensures
        same_record(
            t.part_updates(part),
            t.leaf_removed(full, reply).trie.part_updates(part),
            q,
        ),
{
    let r = t.leaf_removed(full, reply).trie;
    lemma_removed_notes(t, full, reply);
    lemma_right_above(t, full);
    if part >= 2 {
        assert(t.lower_at(part - 2).updates == t.part_updates(part));
        assert(r.lower[part - 2] is Some);
        assert(r.lower_at(part - 2).updates == r.part_updates(part));
    }
}

/// Removing one of two children of a branch, while updates are recorded, records that the branch is gone:
/// the trie drops it and does not write it, and the subtrie that had it does not write it either.
pub proof fn law_merged_branch_is_gone(
    t: TrieModel,
    full: Seq<u8>,
    reply: Result<Option<RevealedModel>, ErrorModel>,
    branch: Seq<u8>,
)
    requires
        t.placed(),
        t.removable(full),
        is_path(full),
        t.updates is Some,
        t.one_of_two(full, branch),
        t.leaf_removed(full, reply).result is Ok,
    ensures
        ({
            let r = t.leaf_removed(full, reply).trie;
            &&& drops(r.updates, branch)
            &&& !writes(r.updates, branch)
            &&& !writes(r.subtrie_at(branch).updates, branch)
            &&& drops(r.subtrie_at(branch).updates, branch) == drops(
                t.subtrie_at(branch).updates,
                branch,
            )
        }),
{
    let r = t.leaf_removed(full, reply).trie;
    lemma_removed_notes(t, full, reply);
    lemma_right_above(t, full);
    if !is_upper(branch) {
        let i = lower_index_of(branch);
        assert(t.lower_at(i) == t.subtrie_at(branch));
        assert(r.lower_at(i) == r.subtrie_at(branch));
    }
}

/// What was dropped stays dropped: no removal forgets a branch that an earlier one merged. Neither does
/// one forget, or say, that the trie was emptied, nor does it start or stop recording.
pub proof fn law_dropped_stays_dropped(
    t: TrieModel,
    full: Seq<u8>,
    reply: Result<Option<RevealedModel>, ErrorModel>,
    q: Seq<u8>,
    part: int,
)
    requires
        t.placed(),
        t.removable(full),
        is_path(full),
        0 <= part < t.lower.len() + 2,
        part >= 2 ==> t.lower[part - 2] is Some,
    ensures
        ({
            let r = t.leaf_removed(full, reply).trie;
            &&& drops(t.part_updates(part), q) ==> drops(r.part_updates(part), q)
            &&& r.part_updates(part) is Some == t.part_updates(part) is Some
            &&& t.part_updates(part) is Some ==> r.part_updates(part)->0.wiped == t.part_updates(
                part,
            )->0.wiped
        }),
{
    let r = t.leaf_removed(full, reply).trie;
    lemma_removed_notes(t, full, reply);
    lemma_right_above(t, full);
    if part >= 2 {
        assert(t.lower_at(part - 2).updates == t.part_updates(part));
        assert(r.lower[part - 2] is Some);
        assert(r.lower_at(part - 2).updates == r.part_updates(part));
    }
}

/// A removal leaves all masks as they are, if it reveals nothing.
pub proof fn law_removal_keeps_masks(
    t: TrieModel,
    full: Seq<u8>,
    reply: Result<Option<RevealedModel>, ErrorModel>,
    i: int,
)
    requires
        t.placed(),
        t.removable(full),
        is_path(full),
        t.asks(full) is None,
        0 <= i < t.lower.len(),
    ensures
        t.leaf_removed(full, reply).trie.upper.src.tree_masks == t.upper.src.tree_masks,
        t.leaf_removed(full, reply).trie.upper.src.hash_masks == t.upper.src.hash_masks,
        t.leaf_removed(full, reply).trie.lower_at(i).src.tree_masks == t.lower_at(i).src.tree_masks,
        t.leaf_removed(full, reply).trie.lower_at(i).src.hash_masks == t.lower_at(i).src.hash_masks,
{
    lemma_removed_notes(t, full, reply);
    assert(same_masks(t.lower_at(i), t.leaf_removed(full, reply).trie.lower_at(i)));
}

/// A leaf that is found counts as changed once its removal was tried, whether that succeeds or fails. No
/// other key does that did not.
pub proof fn law_removal_counts_as_change(
    t: TrieModel,
    full: Seq<u8>,
    reply: Result<Option<RevealedModel>, ErrorModel>,
    key: Seq<u8>,
)
    requires
        t.placed(),
        t.removable(full),
        is_path(full),
    ensures
        ({
            let r = t.leaf_removed(full, reply).trie;
            &&& r.prefix.all == t.prefix.all
            &&& r.prefix.keys.contains(key) == (t.prefix.keys.contains(key) || (key == full
                && t.lookup(full) is At))
        }),
{
    lemma_removed_notes(t, full, reply);
    lemma_right_above(t, full);
}

// What a removal needs, and how it ends.

/// A leaf is found where it is: in a sound trie, at the path of the one node that has its full path.
pub proof fn law_leaf_is_found(t: TrieModel, p: Seq<u8>)
    requires
        t.sound(),
        t.has_node(p),
        t.node(p) is Leaf,
    ensures
        t.lookup(p + t.node(p)->Leaf_key) == Lookup::At(p),
{
    lemma_leaf_found(t, p);
}

/// What is found is a leaf with the full path that was looked for.
pub proof fn law_found_is_the_leaf(t: TrieModel, full: Seq<u8>, p: Seq<u8>)
    requires
        t.lookup(full) == Lookup::At(p),
    ensures
        t.has_node(p),
        t.node(p) is Leaf,
        p + t.node(p)->Leaf_key == full,
{
    lemma_found(t, full, Seq::empty());
}

/// What a lookup finds from some node on.
proof fn lemma_found(t: TrieModel, full: Seq<u8>, at: Seq<u8>)
    requires
        t.find(full, at) is At,
    ensures
        ({
            let p = t.find(full, at)->At_0;
            t.has_node(p) && t.node(p) is Leaf && p + t.node(p)->Leaf_key == full
        }),
    decreases full.len() - at.len(),
{
    if let Ok(NextModel::ContinueFrom(next)) = next_to_leaf(at, t.node(at), full) {
        lemma_found(t, full, next);
    }
}

/// The provider is asked just for the other child of a branch of which the leaf is one of two, if that
/// child is blinded.
pub proof fn law_what_is_asked(t: TrieModel, full: Seq<u8>, branch: Seq<u8>, other: u8)
    requires
        t.placed(),
        t.removable(full),
        is_path(full),
        t.one_of_two(full, branch),
        other < 16,
        t.node(branch)->Branch_mask.contains(other),
        other != full[branch.len() as int],
    ensures
        t.asks(full) == if t.node(branch.push(other)) is Hash {
            Some(branch.push(other))
        } else {
            None
        },
{
    let walk = t.walk(full, Seq::empty(), None, None);
    lemma_right_above(t, full);
    lemma_other_child(t.node(branch)->Branch_mask, full[branch.len() as int], other);
    lemma_prefix_pointwise(Seq::empty(), full);
    lemma_walk_alike(t, full, Seq::empty(), None, None);
    lemma_alike_node(t, walk.trie, branch.push(other));
}

/// The nibble that is left of two.
proof fn lemma_other_child(mask: Set<u8>, n: u8, other: u8)
    requires
        child_nibbles(mask.remove(n)).len() == 1,
        other < 16,
        other != n,
        mask.contains(other),
    ensures
        child_nibbles(mask.remove(n))[0] == other,
{
    lemma_nibbles_below(mask.remove(n), 16);
    assert(mask.remove(n).contains(other));
    assert(child_nibbles(mask.remove(n)).contains(other));
    let i = child_nibbles(mask.remove(n)).index_of(other);
}

/// The provider is not asked otherwise.
pub proof fn law_nothing_else_is_asked(t: TrieModel, full: Seq<u8>)
    requires
        t.placed(),
        t.removable(full),
        is_path(full),
        forall|branch: Seq<u8>| !#[trigger] t.one_of_two(full, branch),
    ensures
        t.asks(full) is None,
{
    let walk = t.walk(full, Seq::empty(), None, None);
    lemma_right_above(t, full);
    if let WalkEnd::Leaf { path, branch: Some(b), .. } = walk.end {
        if path.len() > 0 {
            assert(!t.one_of_two(full, b));
        }
    }
}

/// How a removal ends. It fails where a blinded node hides whether there is the leaf, with that node; and
/// where the provider is asked, if it fails, with its failure, or if it does not know the node, or if what
/// it answers is no node. Where it is not asked, the removal succeeds unless the leaf is hidden.
pub proof fn law_removal_ends(
    t: TrieModel,
    full: Seq<u8>,
    reply: Result<Option<RevealedModel>, ErrorModel>,
)
    requires
        t.placed(),
        t.removable(full),
        is_path(full),
    ensures
        ({
            let result = t.leaf_removed(full, reply).result;
            &&& t.lookup(full) is Unknown ==> exists|p: Seq<u8>|
                {
                    &&& #[trigger] t.passes(full, Seq::empty(), p)
                    &&& t.node(p) is Hash
                    &&& result == Err::<(), ErrorModel>(
                        ErrorModel::BlindedNode { path: p, hash: t.node(p)->Hash_0 },
                    )
                }
            &&& t.lookup(full) !is Unknown && t.asks(full) is None ==> result is Ok
            &&& t.asks(full) matches Some(child) ==> match reply {
                Err(error) => result == Err::<(), ErrorModel>(error),
                Ok(None) => result == Err::<(), ErrorModel>(
                    ErrorModel::NodeNotFoundInProvider { path: child },
                ),
                Ok(Some(revealed)) => decoded_node(revealed.node) matches Err(error) ==> result
                    == Err::<(), ErrorModel>(ErrorModel::Rlp(error)),
            }
        }),
{
    let root = Seq::<u8>::empty();
    let walk = t.walk(full, root, None, None);
    let w = walk.trie;
    lemma_prefix_pointwise(root, full);
    lemma_walk(t, full, root, None, None);
    lemma_right_above(t, full);
    lemma_leaf_place(t, full);
    match walk.end {
        WalkEnd::Blocked(_) => {
            lemma_blocked(t, full, root, None, None);
        },
        WalkEnd::Leaf { path, branch, ext } => {
            if path.len() > 0 {
                let b = branch->0;
                let mask = w.mask_without(b, path);
                if child_nibbles(mask).len() == 1 {
                    let child = TrieModel::only_child(b, mask);
                    lemma_unlinked_child(w, full, path, b, ext, child);
                }
            }
        },
        _ => {},
    }
}

/// The blinded node that a walk ends at.
proof fn lemma_blocked(
    t: TrieModel,
    full: Seq<u8>,
    at: Seq<u8>,
    branch: Option<Seq<u8>>,
    ext: Option<Seq<u8>>,
)
    requires
        t.walk_ok(full, at),
        at.is_prefix_of(full),
        t.walk(full, at, branch, ext).end is Blocked,
    ensures
        exists|p: Seq<u8>|
            {
                &&& #[trigger] t.passes(full, at, p)
                &&& t.node(p) is Hash
                &&& t.walk(full, at, branch, ext).end == WalkEnd::Blocked(
                    ErrorModel::BlindedNode { path: p, hash: t.node(p)->Hash_0 },
                )
            },
    decreases full.len() - at.len(),
{
    let node = t.node(at);
    match next_to_leaf(at, node, full) {
        Ok(NextModel::ContinueFrom(next)) => {
            let cleared = t.put_node(at, node.with_hash(None));
            lemma_cleared_shape(t, at);
            lemma_walk_ok_shape(t, cleared, full, next);
            lemma_prefix_pointwise(at, full);
            lemma_prefix_pointwise(next, full);
            let (b, e) = if node is Branch {
                (
                    Some(at),
                    if branch is Some && ext is Some && branch->0.len() > ext->0.len() {
                        None
                    } else {
                        ext
                    },
                )
            } else {
                (branch, Some(at))
            };
            lemma_blocked(cleared, full, next, b, e);
            let p = choose|p: Seq<u8>|
                {
                    &&& #[trigger] cleared.passes(full, next, p)
                    &&& cleared.node(p) is Hash
                    &&& cleared.walk(full, next, b, e).end == WalkEnd::Blocked(
                        ErrorModel::BlindedNode { path: p, hash: cleared.node(p)->Hash_0 },
                    )
                };
            lemma_passes_same_shape(t, cleared, full, next, p);
            lemma_passes_below(cleared, full, next, p);
            assert(t.has_node(p) == cleared.has_node(p));
            assert(t.passes(full, at, p));
            assert(t.node(p) == cleared.node(p));
        },
        Err(_) => {
            assert(t.passes(full, at, at));
            assert(node is Hash);
        },
        _ => {},
    }
}

// What takes the place of a branch.

/// In a trie that is sound and in normal form, removing one of two children of a branch puts the other
/// child in its place, with the nibble of that child before its key; a branch stays where it is, and an
/// extension of one nibble leads to it. Where an extension leads to the branch that is merged, it gets the
/// key of that in addition to its own, and stands for both. No hash is kept.
#[verifier::rlimit(40)]
pub proof fn law_other_child_takes_the_place(
    t: TrieModel,
    full: Seq<u8>,
    reply: Result<Option<RevealedModel>, ErrorModel>,
    branch: Seq<u8>,
    other: u8,
)
    requires
        t.whole(),
        is_path(full),
        t.one_of_two(full, branch),
        other < 16,
        t.node(branch)->Branch_mask.contains(other),
        other != full[branch.len() as int],
        t.node(branch.push(other)) !is Hash,
    ensures
        ({
            let r = t.leaf_removed(full, reply).trie;
            let child = branch.push(other);
            let rest = match t.node(child) {
                NodeModel::Leaf { key, .. } => seq![other] + key,
                NodeModel::Extension { key, .. } => seq![other] + key,
                _ => seq![other],
            };
            &&& forall|above: Seq<u8>|
                #[trigger] t.has_node(above) && (t.node(above) matches NodeModel::Extension {
                    key,
                    ..
                } && above + key == branch) ==> {
                    let key = t.node(above)->Extension_key + rest;
                    &&& r.has_node(above)
                    &&& r.node(above) == if t.node(child) is Leaf {
                        NodeModel::Leaf { key, hash: None }
                    } else {
                        NodeModel::Extension { key, hash: None, store: None }
                    }
                }
            &&& (forall|above: Seq<u8>|
                #[trigger] t.has_node(above) ==> !(t.node(above) matches NodeModel::Extension {
                    key,
                    ..
                } && above + key == branch)) ==> {
                &&& r.has_node(branch)
                &&& r.node(branch) == if t.node(child) is Leaf {
                    NodeModel::Leaf { key: rest, hash: None }
                } else {
                    NodeModel::Extension { key: rest, hash: None, store: None }
                }
            }
            &&& t.node(child) is Branch ==> r.has_node(child) && r.node(child) == t.node(child)
        }),
{
    let root = Seq::<u8>::empty();
    let walk = t.walk(full, root, None, None);
    let w = walk.trie;
    let r = t.leaf_removed(full, reply).trie;
    let child = branch.push(other);
    lemma_whole_removable(t, full);
    lemma_right_above(t, full);
    lemma_normal_led(t, full);
    lemma_leaf_place(t, full);
    lemma_prefix_pointwise(root, full);
    lemma_walk(t, full, root, None, None);
    lemma_other_child(t.node(branch)->Branch_mask, full[branch.len() as int], other);
    assert(t.extensions_lead_down()) by {
        assert forall|p: Seq<u8>| #[trigger] t.has_node(p) implies (t.node(
            p,
        ) matches NodeModel::Extension { key, .. } ==> key.len() > 0) by {
            assert(t.tidy(p));
        }
    }
    lemma_lead_down_shape(t, w);
    if let WalkEnd::Leaf { path, branch: Some(b), ext } = walk.end {
        assert(b == branch);
        let mask = w.mask_without(b, path);
        assert(TrieModel::only_child(b, mask) == child);
        lemma_unlinked_child(w, full, path, b, ext, child);
        assert(t.has_node(child) == w.has_node(child));
        lemma_prefix_pointwise(child, full);
        assert(!t.passes(full, root, child)) by {
            if t.passes(full, root, child) {
                lemma_passes_below(t, full, root, child);
                assert(child[b.len() as int] == other);
            }
        }
        lemma_walk_nodes(t, full, root, None, None, child);
        assert(w.node(child) == t.node(child));
        lemma_collapse_done(w, full, path, b, ext, reply);
        if let Some(above) = ext {
            assert(t.has_node(above) == w.has_node(above));
            assert(t.node(above) is Extension && above + t.node(above)->Extension_key == b);
            let key = t.node(above)->Extension_key;
            assert(w.node(above)->Extension_key == key);
        }
        assert forall|above: Seq<u8>|
            #[trigger] t.has_node(above) && (t.node(above) matches NodeModel::Extension { key, .. }
                && above + key == branch) implies ext == Some(above) by {
            assert(t.tidy(above));
            lemma_no_other_ext(t, branch, ext, above);
        }
    }
}

// The steps of a removal.

/// Where the way to a leaf goes on: nowhere from a leaf, which is found just if it is the one; and from an
/// extension or a branch at the child that is on the way, if there is one. From a blinded node it cannot
/// be told.
pub proof fn law_next_to_leaf(from: Seq<u8>, node: NodeModel, full: Seq<u8>, child: Seq<u8>)
    ensures
        ({
            let next = next_to_leaf(from, node, full);
            &&& node matches NodeModel::Hash(hash) ==> next == Err::<NextModel, ErrorModel>(
                ErrorModel::BlindedNode { path: from, hash },
            )
            &&& node !is Hash ==> next is Ok
            &&& next == Ok::<NextModel, ErrorModel>(NextModel::Found) <==> (
            node matches NodeModel::Leaf { key, .. } && from + key == full)
            &&& next == Ok::<NextModel, ErrorModel>(NextModel::ContinueFrom(child)) <==> (full.len()
                > from.len() && match node {
                NodeModel::Extension { key, .. } => child == from + key && child.is_prefix_of(full),
                NodeModel::Branch { mask, .. } => child == from.push(full[from.len() as int])
                    && mask.contains(full[from.len() as int]),
                _ => false,
            })
        }),
{
}

/// What takes the place of a branch with one child left: the child with the nibble before its key, which
/// then goes away, or an extension of that nibble to a branch, which stays. With the child goes its full
/// path: it is the same before and after.
pub proof fn law_branch_changes(nibble: u8, child: NodeModel, branch: Seq<u8>)
    requires
        child is Leaf || child is Extension || child is Branch,
    ensures
        match child {
            NodeModel::Leaf { key, .. } => {
                &&& merged_branch(nibble, child) == (NodeModel::Leaf {
                    key: seq![nibble] + key,
                    hash: None,
                })
                &&& takes_child(child)
                &&& branch + (seq![nibble] + key) == branch.push(nibble) + key
            },
            NodeModel::Extension { key, .. } => {
                &&& merged_branch(nibble, child) == (NodeModel::Extension {
                    key: seq![nibble] + key,
                    hash: None,
                    store: None,
                })
                &&& takes_child(child)
                &&& branch + (seq![nibble] + key) == branch.push(nibble) + key
            },
            _ => {
                &&& merged_branch(nibble, child) == (NodeModel::Extension {
                    key: seq![nibble],
                    hash: None,
                    store: None,
                })
                &&& !takes_child(child)
                &&& branch + seq![nibble] == branch.push(nibble)
            },
        },
{
    match child {
        NodeModel::Leaf { key, .. } => {
            assert(branch + (seq![nibble] + key) =~= branch.push(nibble) + key);
        },
        NodeModel::Extension { key, .. } => {
            assert(branch + (seq![nibble] + key) =~= branch.push(nibble) + key);
        },
        _ => {
            assert(branch + seq![nibble] =~= branch.push(nibble));
        },
    }
}

/// What takes the place of an extension and its child: the child with the key of the extension before its
/// own. An extension to a branch stays.
pub proof fn law_extension_changes(key: Seq<u8>, child: NodeModel)
    requires
        child is Leaf || child is Extension || child is Branch,
    ensures
        match child {
            NodeModel::Leaf { key: rest, .. } => merged_ext(key, child) == Some(
                NodeModel::Leaf { key: key + rest, hash: None },
            ),
            NodeModel::Extension { key: rest, .. } => merged_ext(key, child) == Some(
                NodeModel::Extension { key: key + rest, hash: None, store: None },
            ),
            _ => merged_ext(key, child) is None,
        },
{
}

/// The value of a leaf moves with it, if it moves from a lower subtrie to the upper one: it is kept there
/// then, and no longer where it was. Otherwise no value moves. No other value changes, and no node, mask,
/// key or record.
pub proof fn law_value_moves(
    t: TrieModel,
    parent: Seq<u8>,
    key: Seq<u8>,
    hash: Option<Seq<u8>>,
    child: Seq<u8>,
    x: Seq<u8>,
    i: int,
)
    requires
        t.placed(),
        is_path(child),
        !is_upper(child) ==> t.lower[lower_index_of(child)] is Some,
        0 <= i < t.lower.len(),
    ensures
        ({
            let node = NodeModel::Leaf { key, hash };
            let r = t.moved(parent, node, child);
            let full = parent + key;
            let moves = is_upper(parent) && !is_upper(child);
            &&& !moves ==> r == t
            &&& moves ==> {
                let from = lower_index_of(child);
                &&& !r.lower[from]->0.src.values.contains_key(full)
                &&& r.upper.src.values.contains_key(full)
                &&& r.upper.src.values[full] == t.lower[from]->0.src.values[full]
                &&& x != full ==> r.upper.src.values.contains_key(x)
                    == t.upper.src.values.contains_key(x) && r.upper.src.values[x]
                    == t.upper.src.values[x]
                &&& x != full ==> r.lower[from]->0.src.values.contains_key(x)
                    == t.lower[from]->0.src.values.contains_key(x) && r.lower[from]->0.src.values[x]
                    == t.lower[from]->0.src.values[x]
                &&& i != from ==> r.lower[i] == t.lower[i]
                &&& r.lower[from] is Some
                &&& r.lower[from]->0.nodes == t.lower[from]->0.nodes
                &&& r.lower[from]->0.path == t.lower[from]->0.path
                &&& r.lower[from]->0.updates == t.lower[from]->0.updates
                &&& same_masks(t.lower[from]->0, r.lower[from]->0)
                &&& r.upper.nodes == t.upper.nodes
                &&& r.upper.path == t.upper.path
                &&& r.upper.updates == t.upper.updates
                &&& same_masks(t.upper, r.upper)
                &&& r.prefix == t.prefix
                &&& r.updates == t.updates
            }
        }),
        forall|other: NodeModel| !(other is Leaf) ==> #[trigger] t.moved(parent, other, child) == t,
{
    if !is_upper(child) {
        assert(child[0] < 16 && child[1] < 16);
    }
}

// What a walk and a failed removal leave.

/// The nodes that a lookup goes beyond lose their hashes, and nothing else; all others stay as they are.
proof fn lemma_walk_exact(
    t: TrieModel,
    full: Seq<u8>,
    at: Seq<u8>,
    branch: Option<Seq<u8>>,
    ext: Option<Seq<u8>>,
    q: Seq<u8>,
)
    requires
        t.walk_ok(full, at),
        at.is_prefix_of(full),
    ensures
        ({
            let w = t.walk(full, at, branch, ext).trie;
            &&& w.has_node(q) == t.has_node(q)
            &&& t.has_node(q) ==> w.source_at(q) == t.source_at(q)
            &&& t.has_node(q) ==> w.node(q) == if t.passes(full, at, q) && next_to_leaf(
                q,
                t.node(q),
                full,
            ) matches Ok(NextModel::ContinueFrom(_)) {
                t.node(q).with_hash(None)
            } else {
                t.node(q)
            }
        }),
    decreases full.len() - at.len(),
{
    let node = t.node(at);
    lemma_prefix_pointwise(at, full);
    match next_to_leaf(at, node, full) {
        Ok(NextModel::ContinueFrom(next)) => {
            let cleared = t.put_node(at, node.with_hash(None));
            lemma_cleared_shape(t, at);
            lemma_walk_ok_shape(t, cleared, full, next);
            lemma_prefix_pointwise(next, full);
            let (b, e) = if node is Branch {
                (
                    Some(at),
                    if branch is Some && ext is Some && branch->0.len() > ext->0.len() {
                        None
                    } else {
                        ext
                    },
                )
            } else {
                (branch, Some(at))
            };
            lemma_walk_exact(cleared, full, next, b, e, q);
            lemma_passes_same_shape(t, cleared, full, next, q);
            lemma_put_node(t, at, node.with_hash(None), q);
            if t.passes(full, next, q) {
                lemma_passes_below(t, full, next, q);
                lemma_prefix_pointwise(next, q);
            }
        },
        _ => {},
    }
}

/// Where there is no leaf to remove, or a blinded node hides it, the nodes that looking for it goes beyond
/// lose their hashes. All else stays as it is.
pub proof fn law_vain_removal(
    t: TrieModel,
    full: Seq<u8>,
    reply: Result<Option<RevealedModel>, ErrorModel>,
    q: Seq<u8>,
)
    requires
        t.placed(),
        t.removable(full),
        is_path(full),
        t.lookup(full) !is At,
    ensures
        ({
            let r = t.leaf_removed(full, reply).trie;
            &&& r.has_node(q) == t.has_node(q)
            &&& t.has_node(q) ==> r.source_at(q) == t.source_at(q)
            &&& t.has_node(q) ==> r.node(q) == if t.passes(full, Seq::empty(), q) && next_to_leaf(
                q,
                t.node(q),
                full,
            ) matches Ok(NextModel::ContinueFrom(_)) {
                t.node(q).with_hash(None)
            } else {
                t.node(q)
            }
        }),
{
    lemma_prefix_pointwise(Seq::empty(), full);
    lemma_right_above(t, full);
    lemma_walk_exact(t, full, Seq::empty(), None, None, q);
}

/// Where the provider fails, or does not know the node that is asked for, or answers with no node, the
/// leaf and its value are gone, and the nodes on the way to it have lost their hashes. All else stays as
/// it is, the branch above the leaf too.
pub proof fn law_failed_removal(
    t: TrieModel,
    full: Seq<u8>,
    reply: Result<Option<RevealedModel>, ErrorModel>,
    q: Seq<u8>,
    x: Seq<u8>,
)
    requires
        t.placed(),
        t.removable(full),
        is_path(full),
        t.asks(full) is Some,
        reply matches Ok(Some(revealed)) ==> decoded_node(revealed.node) is Err,
    ensures
        ({
            let r = t.leaf_removed(full, reply).trie;
            let p = t.lookup(full)->At_0;
            &&& !r.has_node(p)
            &&& !r.subtrie_at(p).src.values.contains_key(full)
            &&& q != p ==> r.has_node(q) == t.has_node(q)
            &&& q != p && t.has_node(q) ==> r.node(q) == if t.passes(full, Seq::empty(), q)
                && next_to_leaf(q, t.node(q), full) matches Ok(NextModel::ContinueFrom(_)) {
                t.node(q).with_hash(None)
            } else {
                t.node(q)
            }
            &&& q != p && t.has_node(q) && x != full ==> r.source_at(q).values.contains_key(x)
                == t.source_at(q).values.contains_key(x) && r.source_at(q).values[x] == t.source_at(
                q,
            ).values[x]
        }),
{
    let root = Seq::<u8>::empty();
    let walk = t.walk(full, root, None, None);
    let w = walk.trie;
    lemma_prefix_pointwise(root, full);
    lemma_right_above(t, full);
    lemma_leaf_place(t, full);
    lemma_walk_exact(t, full, root, None, None, q);
    if let WalkEnd::Leaf { path, branch: Some(b), ext } = walk.end {
        let child = TrieModel::only_child(b, w.mask_without(b, path));
        lemma_unlinked_child(w, full, path, b, ext, child);
        assert(t.has_node(path) == w.has_node(path));
        lemma_unlinked(w, full, path, q);
        lemma_unlinked(w, full, path, path);
    }
}

// A blinded child.

/// A node that a removal asks for is noted with the masks that the provider answered with, if the removal
/// succeeds. All other masks stay.
pub proof fn law_asked_masks_are_noted(
    t: TrieModel,
    full: Seq<u8>,
    revealed: RevealedModel,
    q: Seq<u8>,
)
    requires
        t.placed(),
        t.removable(full),
        is_path(full),
        is_path(q),
        t.asks(full) is Some,
        t.leaf_removed(full, Ok(Some(revealed))).result is Ok,
    ensures
        ({
            let r = t.leaf_removed(full, Ok(Some(revealed))).trie;
            let child = t.asks(full)->0;
            let before = t.subtrie_at(q).src;
            let after = r.subtrie_at(q).src;
            &&& q == child ==> after.tree_masks == match revealed.masks.tree {
                Some(mask) => before.tree_masks.insert(child, mask),
                None => before.tree_masks,
            }
            &&& q == child ==> after.hash_masks == match revealed.masks.hash {
                Some(mask) => before.hash_masks.insert(child, mask),
                None => before.hash_masks,
            }
            &&& q != child ==> after.tree_masks.contains_key(q) == before.tree_masks.contains_key(q)
                && (before.tree_masks.contains_key(q) ==> after.tree_masks[q]
                == before.tree_masks[q])
            &&& q != child ==> after.hash_masks.contains_key(q) == before.hash_masks.contains_key(q)
                && (before.hash_masks.contains_key(q) ==> after.hash_masks[q]
                == before.hash_masks[q])
        }),
{
    let reply = Ok::<Option<RevealedModel>, ErrorModel>(Some(revealed));
    let root = Seq::<u8>::empty();
    let walk = t.walk(full, root, None, None);
    let w = walk.trie;
    let r = t.leaf_removed(full, reply).trie;
    lemma_prefix_pointwise(root, full);
    lemma_right_above(t, full);
    lemma_leaf_place(t, full);
    lemma_removed_masks(t, full, reply);
    if let WalkEnd::Leaf { path, branch: Some(b), ext } = walk.end {
        let mask = w.mask_without(b, path);
        let child = TrieModel::only_child(b, mask);
        let u = w.unlinked(full, path);
        lemma_unlinked_child(w, full, path, b, ext, child);
        lemma_unlinked(w, full, path, child);
        assert(is_path(child)) by {
            lemma_nibbles_below(mask, 16);
            lemma_prefix_pointwise(b, full);
        }
        let node = decoded_node(revealed.node)->Ok_0;
        let v = u.with_revealed(child, node, revealed.masks).trie;
        assert(u.lower.len() == t.lower.len());
        lemma_masks_noted(u, child, node, revealed.masks, q);
        lemma_masks_at(t, u, q);
        lemma_masks_at(v, r, q);
    }
}

/// Where the other child of a branch is blinded, the node that the provider answers with takes the place of
/// the branch, as another child would: with the nibble of the child before its key; a branch is revealed
/// where it is, with the hash that it was blinded by, and an extension of one nibble leads to it. Where an
/// extension leads to the branch that is merged, it stands for both.
#[verifier::rlimit(80)]
pub proof fn law_asked_child_takes_the_place(
    t: TrieModel,
    full: Seq<u8>,
    revealed: RevealedModel,
    branch: Seq<u8>,
    other: u8,
)
    requires
        t.whole(),
        is_path(full),
        t.one_of_two(full, branch),
        other < 16,
        t.node(branch)->Branch_mask.contains(other),
        other != full[branch.len() as int],
        t.node(branch.push(other)) is Hash,
        t.leaf_removed(full, Ok(Some(revealed))).result is Ok,
    ensures
        ({
            let r = t.leaf_removed(full, Ok(Some(revealed))).trie;
            let child = branch.push(other);
            let node = shown_node(
                decoded_node(revealed.node)->Ok_0,
                Some(t.node(child)->Hash_0),
                revealed.masks,
            );
            let rest = match node {
                NodeModel::Leaf { key, .. } => seq![other] + key,
                NodeModel::Extension { key, .. } => seq![other] + key,
                _ => seq![other],
            };
            &&& decoded_node(revealed.node) is Ok
            &&& forall|above: Seq<u8>|
                #[trigger] t.has_node(above) && (t.node(above) matches NodeModel::Extension {
                    key,
                    ..
                } && above + key == branch) ==> {
                    let key = t.node(above)->Extension_key + rest;
                    &&& r.has_node(above)
                    &&& r.node(above) == if node is Leaf {
                        NodeModel::Leaf { key, hash: None }
                    } else {
                        NodeModel::Extension { key, hash: None, store: None }
                    }
                }
            &&& (forall|above: Seq<u8>|
                #[trigger] t.has_node(above) ==> !(t.node(above) matches NodeModel::Extension {
                    key,
                    ..
                } && above + key == branch)) ==> {
                &&& r.has_node(branch)
                &&& r.node(branch) == if node is Leaf {
                    NodeModel::Leaf { key: rest, hash: None }
                } else {
                    NodeModel::Extension { key: rest, hash: None, store: None }
                }
            }
            &&& node is Branch ==> r.has_node(child) && r.node(child) == node
        }),
{
    let reply = Ok::<Option<RevealedModel>, ErrorModel>(Some(revealed));
    let root = Seq::<u8>::empty();
    let walk = t.walk(full, root, None, None);
    let w = walk.trie;
    let r = t.leaf_removed(full, reply).trie;
    let child = branch.push(other);
    lemma_whole_removable(t, full);
    lemma_right_above(t, full);
    lemma_normal_led(t, full);
    lemma_leaf_place(t, full);
    lemma_prefix_pointwise(root, full);
    lemma_walk(t, full, root, None, None);
    lemma_other_child(t.node(branch)->Branch_mask, full[branch.len() as int], other);
    assert(t.extensions_lead_down()) by {
        assert forall|p: Seq<u8>| #[trigger] t.has_node(p) implies (t.node(
            p,
        ) matches NodeModel::Extension { key, .. } ==> key.len() > 0) by {
            assert(t.tidy(p));
        }
    }
    lemma_lead_down_shape(t, w);
    if let WalkEnd::Leaf { path, branch: Some(b), ext } = walk.end {
        assert(b == branch);
        let mask = w.mask_without(b, path);
        assert(TrieModel::only_child(b, mask) == child);
        lemma_unlinked_child(w, full, path, b, ext, child);
        assert(t.has_node(child) == w.has_node(child));
        assert(w.node(child) == t.node(child));
        let u = w.unlinked(full, path);
        lemma_unlinked(w, full, path, child);
        lemma_unlinked(w, full, path, b);
        assert(is_path(child)) by {
            lemma_prefix_pointwise(b, full);
        }
        let given = decoded_node(revealed.node)->Ok_0;
        let v = u.with_revealed(child, given, revealed.masks).trie;
        assert(child_known(u, child, reply).trie == v);
        lemma_node_shown(u, child, given, revealed.masks);
        lemma_collapse_done(w, full, path, b, ext, reply);
        if let Some(above) = ext {
            assert(t.has_node(above) == w.has_node(above));
            assert(t.node(above) is Extension && above + t.node(above)->Extension_key == b);
            let key = t.node(above)->Extension_key;
            assert(w.node(above)->Extension_key == key);
        }
        assert forall|above: Seq<u8>|
            #[trigger] t.has_node(above) && (t.node(above) matches NodeModel::Extension { key, .. }
                && above + key == branch) implies ext == Some(above) by {
            assert(t.tidy(above));
            lemma_no_other_ext(t, branch, ext, above);
        }
        if v.node(child) is Branch {
            let new = merged_branch(child.last(), v.node(child));
            let gone = v.recorded_gone(b);
            let m = v.merged(b, child);
            lemma_reveal_only(u, child, given, revealed.masks);
            lemma_prefix_pointwise(child, b);
            assert(v.has_node(b));
            lemma_recorded_gone(v, b, child);
            lemma_put_node(gone, b, new, child);
            lemma_put_node(gone, b, new, b);
            assert(m == gone.put_node(b, new));
            if let Some(above) = ext {
                lemma_recorded_gone(v, b, above);
                lemma_put_node(gone, b, new, above);
                lemma_unlinked(w, full, path, above);
                lemma_prefix_pointwise(child, above);
                assert(v.has_node(above));
                let joined = merged_ext(m.node(above)->Extension_key, m.node(b))->0;
                lemma_put_node(m, above, joined, child);
                lemma_drop_node(m.put_node(above, joined), b, child);
            }
        }
    }
}

/// Removing a leaf takes it out of the branch above it, which stays with the others, unless just one other
/// child is left.
#[verifier::rlimit(40)]
pub proof fn law_branch_loses_the_leaf(
    t: TrieModel,
    full: Seq<u8>,
    reply: Result<Option<RevealedModel>, ErrorModel>,
    branch: Seq<u8>,
)
    requires
        t.placed(),
        t.removable(full),
        is_path(full),
        t.right_above(full, branch),
        !t.one_of_two(full, branch),
    ensures
        ({
            let removed = t.leaf_removed(full, reply);
            let mask = t.node(branch)->Branch_mask.remove(full[branch.len() as int]);
            &&& removed.result is Ok
            &&& !removed.trie.has_node(branch.push(full[branch.len() as int]))
            &&& removed.trie.has_node(branch)
            &&& removed.trie.node(branch) == (NodeModel::Branch { mask, hash: None, store: None })
        }),
{
    let root = Seq::<u8>::empty();
    let walk = t.walk(full, root, None, None);
    let w = walk.trie;
    lemma_prefix_pointwise(root, full);
    lemma_right_above(t, full);
    lemma_leaf_place(t, full);
    if let WalkEnd::Leaf { path, branch: Some(b), ext } = walk.end {
        let mask = w.mask_without(b, path);
        let new = NodeModel::new_branch(mask);
        let u = w.unlinked(full, path);
        assert(t.has_node(path) == w.has_node(path));
        lemma_unlinked(w, full, path, b);
        lemma_unlinked(w, full, path, path);
        lemma_put_node(u, b, new, b);
        lemma_put_node(u, b, new, path);
        if let Some(above) = ext {
            lemma_unlinked(w, full, path, above);
            lemma_put_node(u, b, new, above);
        }
        assert(t.leaf_removed(full, reply).trie == u.put_node(b, new));
    }
}

}
