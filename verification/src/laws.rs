//! What holds of the library as a whole, stated over the models that the contracts speak of.

use crate::blinded::{lemma_part_merkle, lemma_part_removed, part_of, shows};
use crate::canon::{lemma_find_known, lemma_removed_revealed, lemma_same_merkle, same_leaves};
use crate::changed::lemma_lower_roots;
use crate::error::ErrorModel;
use crate::form::{in_form, lemma_reveal_normal, lemma_root_normal, reply_in_form};
use crate::hash_run::lemma_nibbles_below;
use crate::hashing::kid_paths;
use crate::kept_hashes::{lemma_merkle_same, lemma_removed_true, lemma_reveal_true, same_below};
use crate::lookup::{
    lemma_left_child_off, lemma_passes_below, lemma_removed_lookup, lemma_removed_nodes,
    lemma_walk, lemma_walk_nodes, Lookup,
};
use crate::merkle::alike;
use crate::model::{child_nibbles, MasksModel, NodeModel, TrieNodeModel};
use crate::normal::{
    lemma_asked_revealed, lemma_branch_kids, lemma_alike_normal, lemma_removed_normal,
    lemma_removed_whole, lemma_whole_ready, lemma_whole_removable, lemma_wide_branch,
};
use crate::order::lemma_prefix_pointwise;
use crate::outside::MAX_PATH_LEN;
use crate::path::{
    is_path, is_upper, lower_index_of, lower_path, NUM_LOWER_SUBTRIES, UPPER_TRIE_MAX_DEPTH,
};
use crate::prefix_set::PrefixModel;
use crate::provider::RevealedModel;
use crate::recorded::{
    lemma_not_recorded, lemma_recorded, lemma_touched_run, lemma_touched_visit, noted,
    same_record,
};
use crate::remove_sound::{lemma_leaf_unique, lemma_removed_sound, lemma_walk_alike};
use crate::revealed::{lemma_not_revealed, lemma_reveal_roots, lemma_then_revealed, same_masks};
use crate::root::lemma_upper_hashable;
use crate::soundness::{
    alike_tries, lemma_alike_node, lemma_alike_sound, lemma_empty_sound, lemma_root_entry,
    lemma_rooted_alike, lemma_taken_alike, lemma_trie_reveal, lemma_updates_alike, trie_grown,
};
use crate::trie::TrieModel;
use crate::twice::lemma_root_again;
use crate::updates::UpdatesModel;
use crate::values::{lemma_removed_prefix, lemma_removed_values, lemma_values_once};
use vstd::prelude::*;

verus! {

// Where paths belong.

/// A path that belongs to a lower subtrie starts with the path of that subtrie.
pub proof fn law_lower_path(path: Seq<u8>)
    requires
        is_path(path),
        !is_upper(path),
    ensures
        0 <= lower_index_of(path) < NUM_LOWER_SUBTRIES,
        lower_path(lower_index_of(path)) == path.take(UPPER_TRIE_MAX_DEPTH as int),
{
    assert(path[0] < 16 && path[1] < 16);
    assert(lower_path(lower_index_of(path)) =~= path.take(UPPER_TRIE_MAX_DEPTH as int));
}

/// Each index is that of the lower subtrie at its path.
pub proof fn law_lower_index(index: int)
    requires
        0 <= index < NUM_LOWER_SUBTRIES,
    ensures
        is_path(lower_path(index)),
        !is_upper(lower_path(index)),
        lower_index_of(lower_path(index)) == index,
{
}

// Revealing.

/// Revealing a node, whether it succeeds or fails, takes nothing away and changes no node that has
/// been revealed, nor the changed keys, nor what the trie has recorded.
pub proof fn law_revealed_nodes_stay(
    t: TrieModel,
    path: Seq<u8>,
    node: TrieNodeModel,
    masks: MasksModel,
)
    requires
        t.placed(),
        t.homed(),
        is_path(path),
    ensures
        trie_grown(t, t.with_revealed(path, node, masks).trie),
        t.with_revealed(path, node, masks).trie.prefix == t.prefix,
        t.with_revealed(path, node, masks).trie.updates == t.updates,
{
    lemma_trie_reveal(t, path, node, masks);
}

/// Revealing a node where one has been revealed changes nothing.
pub proof fn law_revealed_node_stays(
    t: TrieModel,
    path: Seq<u8>,
    node: TrieNodeModel,
    masks: MasksModel,
)
    requires
        t.has_node(path),
        t.node(path) !is Hash,
    ensures
        t.with_revealed(path, node, masks) == t.ok(),
{
}

/// If revealing a node fails, it is not revealed: what is at its path is what was there, and its masks
/// are not noted, so that it can be tried again.
pub proof fn law_failed_reveal_leaves_the_node(
    t: TrieModel,
    path: Seq<u8>,
    node: TrieNodeModel,
    masks: MasksModel,
)
    requires
        t.placed(),
        is_path(path),
        t.with_revealed(path, node, masks).result is Err,
    ensures
        ({
            let r = t.with_revealed(path, node, masks).trie;
            &&& r.has_node(path) == t.has_node(path)
            &&& t.has_node(path) ==> r.node(path) == t.node(path)
            &&& !r.is_revealed(path)
            &&& same_masks(t.subtrie_at(path), r.subtrie_at(path))
        }),
{
    lemma_not_revealed(t, path, node, masks);
}

/// Revealing a node twice is the same as revealing it once, with whatever node and masks the second
/// time.
pub proof fn law_reveal_twice(
    t: TrieModel,
    path: Seq<u8>,
    node: TrieNodeModel,
    masks: MasksModel,
    other: TrieNodeModel,
    other_masks: MasksModel,
)
    requires
        t.placed(),
        is_path(path),
        t.with_revealed(path, node, masks).result is Ok,
    ensures
        ({
            let once = t.with_revealed(path, node, masks).trie;
            once.with_revealed(path, other, other_masks) == once.ok()
        }),
{
    lemma_then_revealed(t, path, node, masks);
}

// What every operation keeps.

/// A trie of which nothing is revealed is sound, whether it records updates or not.
pub proof fn law_empty_sound(retain: bool)
    ensures
        TrieModel::empty().sound(),
        TrieModel::empty().with_updates(retain).sound(),
{
    lemma_empty_sound();
    lemma_updates_alike(TrieModel::empty(), retain);
    lemma_alike_sound(TrieModel::empty(), TrieModel::empty().with_updates(retain));
}

/// A trie that was created from its root node is sound.
pub proof fn law_from_root_sound(root_node: TrieNodeModel, masks: MasksModel, retain: bool)
    requires
        TrieModel::empty().with_updates(retain).with_revealed(
            Seq::empty(),
            root_node,
            masks,
        ).result is Ok,
    ensures
        TrieModel::empty().with_updates(retain).with_revealed(
            Seq::empty(),
            root_node,
            masks,
        ).trie.sound(),
{
    law_empty_sound(retain);
    let t = TrieModel::empty().with_updates(retain);
    assert(!t.has_node(Seq::empty()));
    lemma_trie_reveal(t, Seq::empty(), root_node, masks);
}

/// A trie that was created from a root node in normal form, or from the empty root, is sound and in
/// normal form, so that its root hash can be computed and every leaf can be removed.
pub proof fn law_from_root_whole(root_node: TrieNodeModel, masks: MasksModel, retain: bool)
    requires
        root_node is EmptyRoot || in_form(root_node),
        TrieModel::empty().with_updates(retain).with_revealed(
            Seq::empty(),
            root_node,
            masks,
        ).result is Ok,
    ensures
        ({
            let r = TrieModel::empty().with_updates(retain).with_revealed(
                Seq::empty(),
                root_node,
                masks,
            ).trie;
            &&& r.whole()
            &&& r.root_ready()
            &&& forall|full: Seq<u8>| is_path(full) ==> #[trigger] r.removable(full)
        }),
{
    let t = TrieModel::empty().with_updates(retain);
    let r = t.with_revealed(Seq::empty(), root_node, masks).trie;
    law_from_root_sound(root_node, masks, retain);
    law_empty_sound(retain);
    lemma_root_normal(t, root_node, masks);
    lemma_whole_ready(r);
    assert forall|full: Seq<u8>| is_path(full) implies #[trigger] r.removable(full) by {
        lemma_whole_removable(r, full);
    }
}

/// Where each node is in the subtrie that its path belongs to, and each leaf has a value there, that
/// is so after a node was revealed, whether that succeeds or fails. The path of each lower subtrie,
/// and of each node in it, starts with the nibbles by which it is indexed. Neither the changed keys nor
/// what the trie has recorded change.
pub proof fn law_reveal_keeps_leaves_valued(
    t: TrieModel,
    path: Seq<u8>,
    node: TrieNodeModel,
    masks: MasksModel,
)
    requires
        t.placed(),
        t.homed(),
        t.leaves_valued(),
        is_path(path),
    ensures
        t.with_revealed(path, node, masks).trie.placed(),
        t.with_revealed(path, node, masks).trie.homed(),
        t.with_revealed(path, node, masks).trie.leaves_valued(),
        t.with_revealed(path, node, masks).trie.prefix == t.prefix,
        t.with_revealed(path, node, masks).trie.updates == t.updates,
{
    lemma_trie_reveal(t, path, node, masks);
}

/// Where each lower subtrie has a node at its own path, that is so after a node was revealed.
pub proof fn law_reveal_keeps_roots(
    t: TrieModel,
    path: Seq<u8>,
    node: TrieNodeModel,
    masks: MasksModel,
)
    requires
        t.placed(),
        is_path(path),
        t.has_roots(),
        t.with_revealed(path, node, masks).result is Ok,
    ensures
        t.with_revealed(path, node, masks).trie.has_roots(),
{
    lemma_reveal_roots(t, path, node, masks);
}

/// In a sound trie each lower subtrie that has nodes has one at its own path, all its nodes are below
/// that, and it is a child of a node of the upper subtrie.
pub proof fn law_lower_roots(t: TrieModel, i: int, q: Seq<u8>)
    requires
        t.sound(),
        0 <= i < NUM_LOWER_SUBTRIES,
        t.lower[i] is Some,
        t.lower[i]->0.nodes.contains_key(q),
    ensures
        t.lower[i]->0.nodes.contains_key(t.lower_root(i)),
        lower_path(i).is_prefix_of(t.lower_root(i)),
        t.lower_root(i).is_prefix_of(q),
        exists|a: Seq<u8>|
            is_upper(a) && #[trigger] t.has_node(a) && kid_paths(a, t.node(a)).contains(
                t.lower_root(i),
            ),
{
    assert(t.lower[i]->0.anchored());
    let a = lemma_root_entry(t, i);
    assert(t.has_node(a));
}

/// Revealing a node keeps each node in the subtrie that its path belongs to, each leaf with its
/// value, and each value with its leaf, whether it succeeds or fails. If it succeeds, at the root or
/// at a child of a node, the trie stays sound.
pub proof fn law_reveal_keeps_sound(
    t: TrieModel,
    path: Seq<u8>,
    node: TrieNodeModel,
    masks: MasksModel,
)
    requires
        t.placed(),
        t.homed(),
        t.valued(),
        is_path(path),
    ensures
        ({
            let after = t.with_revealed(path, node, masks);
            &&& after.trie.placed() && after.trie.homed() && after.trie.valued()
            &&& t.sound() && after.result is Ok && (path.len() == 0 || t.parented(path))
                ==> after.trie.sound()
        }),
{
    lemma_trie_reveal(t, path, node, masks);
}

/// Computing the root hash keeps a trie sound, and in normal form if it is. All nodes and values
/// stay, but for what nodes keep of hashing.
pub proof fn law_root_keeps(t: TrieModel)
    ensures
        alike_tries(t, t.rooted()),
        t.sound() ==> t.rooted().sound(),
        t.whole() ==> t.rooted().whole(),
{
    lemma_rooted_alike(t);
    if t.sound() {
        lemma_alike_sound(t, t.rooted());
    }
    if t.normal() {
        lemma_alike_normal(t, t.rooted());
    }
    lemma_alike_node(t, t.rooted(), Seq::empty());
}

/// Starting to record updates, or ceasing to, keeps a trie sound, and in normal form if it is.
pub proof fn law_updates_keep(t: TrieModel, retain: bool)
    ensures
        alike_tries(t, t.with_updates(retain)),
        t.sound() ==> t.with_updates(retain).sound(),
        t.whole() ==> t.with_updates(retain).whole(),
{
    lemma_updates_alike(t, retain);
    if t.sound() {
        lemma_alike_sound(t, t.with_updates(retain));
    }
    if t.normal() {
        lemma_alike_normal(t, t.with_updates(retain));
    }
    lemma_alike_node(t, t.with_updates(retain), Seq::empty());
}

/// Removing a leaf keeps each node in the subtrie that its path belongs to, each leaf with its
/// value, and each value with its leaf, whether it succeeds or fails. If it succeeds the trie stays
/// sound.
pub proof fn law_removal_keeps_sound(
    t: TrieModel,
    full: Seq<u8>,
    reply: Result<Option<RevealedModel>, ErrorModel>,
)
    requires
        t.sound(),
        t.removable(full),
        is_path(full),
    ensures
        ({
            let removed = t.leaf_removed(full, reply);
            &&& removed.trie.placed() && removed.trie.homed() && removed.trie.valued()
            &&& removed.result is Ok ==> removed.trie.sound()
        }),
{
    lemma_removed_sound(t, full, reply);
}

/// In a sound trie no two leaves have the same full path.
pub proof fn law_leaves_differ(t: TrieModel, p: Seq<u8>, q: Seq<u8>)
    requires
        t.sound(),
        t.has_node(p),
        t.has_node(q),
        t.node(p) is Leaf,
        t.node(q) is Leaf,
        p + t.node(p)->Leaf_key == q + t.node(q)->Leaf_key,
    ensures
        p == q,
{
    lemma_leaf_unique(t, p, q);
}

// Removing a leaf.

/// In a trie that is sound and in normal form, every leaf can be removed, and the trie stays sound
/// and in normal form, so that its root hash can be computed and every other leaf can be removed.
/// Where the removal needs a blinded node, what the provider answers must be in normal form.
pub proof fn law_removal_keeps_normal_form(
    t: TrieModel,
    full: Seq<u8>,
    reply: Result<Option<RevealedModel>, ErrorModel>,
)
    requires
        t.whole(),
        is_path(full),
    ensures
        t.removable(full),
        t.leaf_removed(full, reply).result is Ok && (t.asks(full) is Some ==> reply_in_form(reply))
            ==> {
            let r = t.leaf_removed(full, reply).trie;
            &&& r.whole()
            &&& r.root_ready()
            &&& forall|other: Seq<u8>| is_path(other) ==> #[trigger] r.removable(other)
        },
{
    lemma_whole_removable(t, full);
    if t.leaf_removed(full, reply).result is Ok && (t.asks(full) is Some ==> reply_in_form(reply)) {
        let r = t.leaf_removed(full, reply).trie;
        lemma_removed_whole(t, full, reply);
        lemma_whole_ready(r);
        assert forall|other: Seq<u8>| is_path(other) implies #[trigger] r.removable(other) by {
            lemma_whole_removable(r, other);
        }
    }
}

/// Removing a leaf keeps all nodes in normal form, where each node but the root is a child of another
/// one and no blinded node has to be revealed: no branch is left with one child, and no extension
/// leads to an extension or a leaf. Each node but the root is still a child of another one. Values do
/// not matter.
pub proof fn law_removal_keeps_nodes_normal(
    t: TrieModel,
    full: Seq<u8>,
    reply: Result<Option<RevealedModel>, ErrorModel>,
)
    requires
        t.placed(),
        t.linked(),
        t.normal(),
        t.removable(full),
        is_path(full),
        t.asks(full) is None,
        t.leaf_removed(full, reply).result is Ok,
    ensures
        t.leaf_removed(full, reply).trie.normal(),
        t.leaf_removed(full, reply).trie.linked(),
{
    lemma_removed_normal(t, full, reply);
}

/// Where each node but the root is a child of another one, and all are in normal form, there is a node
/// right below a branch at just the nibbles of its mask.
pub proof fn law_branch_has_its_children(t: TrieModel, p: Seq<u8>, n: u8)
    requires
        t.linked(),
        t.normal(),
        t.has_node(p),
        t.node(p) is Branch,
    ensures
        t.has_node(p.push(n)) == t.node(p)->Branch_mask.contains(n),
        child_nibbles(t.node(p)->Branch_mask).len() >= 2,
{
    let mask = t.node(p)->Branch_mask;
    assert(t.tidy(p));
    if t.has_node(p.push(n)) {
        lemma_branch_kids(t, p, n);
    } else if mask.contains(n) {
        lemma_nibbles_below(mask, 16);
        assert(child_nibbles(mask).contains(n));
        let i = child_nibbles(mask).index_of(n);
        assert(kid_paths(p, t.node(p))[i] == p.push(n));
    }
}

/// Removing a leaf below a branch with more than two children takes the leaf out of the branch, which
/// stays a branch with the others, and records nothing.
pub proof fn law_wide_branch_stays(
    t: TrieModel,
    full: Seq<u8>,
    reply: Result<Option<RevealedModel>, ErrorModel>,
    branch: Seq<u8>,
)
    requires
        t.placed(),
        t.removable(full),
        is_path(full),
        t.has_node(branch),
        t.node(branch) is Branch,
        child_nibbles(t.node(branch)->Branch_mask).len() > 2,
        branch.len() < full.len(),
        t.lookup(full) == Lookup::At(branch.push(full[branch.len() as int])),
    ensures
        ({
            let removed = t.leaf_removed(full, reply);
            let mask = t.node(branch)->Branch_mask.remove(full[branch.len() as int]);
            &&& removed.result is Ok
            &&& removed.trie.has_node(branch)
            &&& removed.trie.node(branch) == NodeModel::new_branch(mask)
            &&& removed.trie.updates == t.updates
        }),
{
    lemma_wide_branch(t, full, reply, branch);
}

/// In a trie that is sound and in normal form, revealing a node in normal form where a blinded node
/// is keeps it so: all children that come with the node are there, down to blinded ones. Where an
/// extension leads there, the node must be a branch.
pub proof fn law_reveal_keeps_normal_form(
    t: TrieModel,
    path: Seq<u8>,
    node: TrieNodeModel,
    masks: MasksModel,
)
    requires
        t.whole(),
        t.takes_node(path, node),
        t.with_revealed(path, node, masks).result is Ok,
    ensures
        t.with_revealed(path, node, masks).trie.whole(),
        t.with_revealed(path, node, masks).trie.root_ready(),
{
    assert(t.tidy(path));
    lemma_reveal_normal(t, path, node, masks);
    lemma_trie_reveal(t, path, node, masks);
    assert(path.len() == 0 || t.parented(path));
    let r = t.with_revealed(path, node, masks).trie;
    assert(trie_grown(t, r));
    assert(r.has_node(Seq::empty()));
    lemma_whole_ready(r);
}

/// A leaf that was removed is looked up in vain.
pub proof fn law_removed_leaf_is_gone(
    t: TrieModel,
    full: Seq<u8>,
    reply: Result<Option<RevealedModel>, ErrorModel>,
)
    requires
        t.placed(),
        t.removable(full),
        t.extensions_lead_down(),
        is_path(full),
        t.leaf_removed(full, reply).result is Ok,
    ensures
        t.leaf_removed(full, reply).trie.lookup(full) == Lookup::Missing,
{
    lemma_removed_lookup(t, full, reply, full);
}

/// Removing a leaf leaves every other leaf that is found in the trie, with its value, and adds none.
pub proof fn law_other_leaves_stay(
    t: TrieModel,
    full: Seq<u8>,
    reply: Result<Option<RevealedModel>, ErrorModel>,
    other: Seq<u8>,
)
    requires
        t.placed(),
        t.removable(full),
        t.extensions_lead_down(),
        is_path(full),
        is_path(other),
        other != full,
        t.leaf_removed(full, reply).result is Ok,
    ensures
        ({
            let r = t.leaf_removed(full, reply).trie;
            &&& t.lookup(other) matches Lookup::At(p) ==> (r.lookup(other) matches Lookup::At(q)
                && r.value_at(q, other) == t.value_at(p, other))
            &&& t.lookup(other) == Lookup::Missing ==> r.lookup(other) == Lookup::Missing
        }),
{
    lemma_removed_lookup(t, full, reply, other);
}

/// In a sound trie no two subtries keep a value for the same full path.
pub proof fn law_values_are_kept_once(t: TrieModel)
    requires
        t.sound(),
    ensures
        t.values_once(),
{
    lemma_values_once(t);
}

/// Removing a leaf for which no blinded node has to be revealed takes the value of that leaf away,
/// and no other: the values of all subtries taken together are the others. Each is kept once. If the
/// leaf is in the trie, it counts as changed.
pub proof fn law_removal_takes_one_value(
    t: TrieModel,
    full: Seq<u8>,
    reply: Result<Option<RevealedModel>, ErrorModel>,
)
    requires
        t.sound(),
        t.removable(full),
        is_path(full),
        t.asks(full) is None,
        t.lookup(full) !is Unknown,
    ensures
        ({
            let removed = t.leaf_removed(full, reply);
            &&& removed.result is Ok
            &&& removed.trie.all_values() == t.all_values().remove(full)
            &&& removed.trie.values_once()
            &&& removed.trie.sound()
            &&& removed.trie.prefix.all == t.prefix.all
            &&& removed.trie.prefix.keys == if t.lookup(full) is At {
                t.prefix.keys.insert(full)
            } else {
                t.prefix.keys
            }
        }),
{
    lemma_removed_prefix(t, full, reply);
    lemma_removed_values(t, full, reply);
    lemma_removed_sound(t, full, reply);
}

/// Removing a leaf that is not in the trie succeeds, and one that a blinded node hides fails. Either
/// way all nodes and values stay, but for hashes that nodes keep.
pub proof fn law_nothing_to_remove(
    t: TrieModel,
    full: Seq<u8>,
    reply: Result<Option<RevealedModel>, ErrorModel>,
)
    requires
        t.removable(full),
        t.lookup(full) !is At,
    ensures
        t.leaf_removed(full, reply).result is Ok == (t.lookup(full) == Lookup::Missing),
        alike_tries(t, t.leaf_removed(full, reply).trie),
{
    let root = Seq::<u8>::empty();
    lemma_prefix_pointwise(root, full);
    lemma_walk(t, full, root, None, None);
    lemma_walk_alike(t, full, root, None, None);
}

/// Once a leaf was removed, none of the branches and extensions on the way to it keeps a hash.
pub proof fn law_removal_unsets_hashes(
    t: TrieModel,
    full: Seq<u8>,
    reply: Result<Option<RevealedModel>, ErrorModel>,
    q: Seq<u8>,
)
    requires
        t.placed(),
        t.removable(full),
        t.extensions_lead_down(),
        is_path(full),
        t.lookup(full) is At,
        t.passes(full, Seq::empty(), q),
        t.node(q) is Branch || t.node(q) is Extension,
        t.leaf_removed(full, reply).trie.has_node(q),
    ensures
        t.leaf_removed(full, reply).trie.node(q).known_hash() is None,
{
    let root = Seq::<u8>::empty();
    lemma_prefix_pointwise(root, full);
    lemma_passes_below(t, full, root, q);
    lemma_left_child_off(t, full);
    if t.left_child(full) is Some {
        let child = t.left_child(full)->0;
        lemma_prefix_pointwise(child, q);
        lemma_prefix_pointwise(q, full);
        lemma_prefix_pointwise(child, full);
    }
    lemma_walk(t, full, root, None, None);
    lemma_walk_nodes(t, full, root, None, None, q);
    lemma_removed_nodes(t, full, reply, q);
}

/// Removing a leaf leaves every node as it is that is neither on the way to the leaf, nor at or
/// below the only child that is left of the branch above it, if there is just one.
pub proof fn law_removal_leaves_other_nodes(
    t: TrieModel,
    full: Seq<u8>,
    reply: Result<Option<RevealedModel>, ErrorModel>,
    q: Seq<u8>,
)
    requires
        t.placed(),
        t.removable(full),
        t.extensions_lead_down(),
        is_path(full),
        !t.passes(full, Seq::empty(), q),
        t.left_child(full) matches Some(child) ==> !child.is_prefix_of(q),
    ensures
        t.leaf_removed(full, reply).trie.has_node(q) == t.has_node(q),
        t.has_node(q) ==> t.leaf_removed(full, reply).trie.node(q) == t.node(q),
{
    let root = Seq::<u8>::empty();
    lemma_prefix_pointwise(root, full);
    lemma_walk_nodes(t, full, root, None, None, q);
    lemma_removed_nodes(t, full, reply, q);
}

// Hashes.

/// If every hash that nodes keep is right, revealing a blinded node leaves that so, and leaves the
/// Merkle root that the trie stands for as it is, if what is revealed is what the hash of the
/// blinded node stands for.
pub proof fn law_reveal_keeps_hashes_right(
    t: TrieModel,
    path: Seq<u8>,
    node: TrieNodeModel,
    masks: MasksModel,
)
    requires
        t.sound(),
        t.true_hashes(),
        is_path(path),
        t.has_node(path),
        t.node(path) is Hash,
        t.with_revealed(path, node, masks).result is Ok,
        t.with_revealed(path, node, masks).trie.merkle(path) == t.merkle(path),
    ensures
        t.with_revealed(path, node, masks).trie.true_hashes(),
        t.with_revealed(path, node, masks).trie.merkle_root() == t.merkle_root(),
{
    lemma_reveal_true(t, path, node, masks);
}

/// If every hash that nodes keep is right, that is so after a leaf was removed. Where that needs a
/// blinded node, what is revealed there must be what its hash stands for.
pub proof fn law_removal_keeps_hashes_right(
    t: TrieModel,
    full: Seq<u8>,
    reply: Result<Option<RevealedModel>, ErrorModel>,
)
    requires
        t.sound(),
        t.true_hashes(),
        t.removable(full),
        is_path(full),
        t.leaf_removed(full, reply).result is Ok,
        t.asks(full) matches Some(child) ==> t.reveal_reply(child, reply).trie.merkle(child)
            == t.merkle(child),
    ensures
        t.leaf_removed(full, reply).trie.true_hashes(),
{
    lemma_removed_true(t, full, reply);
}

/// Where every hash that nodes keep is right, every hash that computing the root relies on is.
pub proof fn law_true_hashes_suffice(t: TrieModel)
    requires
        t.true_hashes(),
    ensures
        t.hashes_right(),
{
}

/// The root hash of a trie that is sound and in normal form can be computed.
pub proof fn law_root_can_be_computed(t: TrieModel)
    requires
        t.whole(),
    ensures
        t.root_ready(),
{
    lemma_whole_ready(t);
}

/// Computing the root hash leaves the Merkle root that the trie stands for as it is.
pub proof fn law_root_keeps_merkle_root(t: TrieModel)
    ensures
        t.rooted().merkle_root() == t.merkle_root(),
{
    let r = t.rooted();
    let root = Seq::<u8>::empty();
    lemma_rooted_alike(t);
    assert(same_below(t, r, root)) by {
        assert forall|p: Seq<u8>| root.is_prefix_of(p) implies #[trigger] t.has_node(p) == r.has_node(
            p,
        ) && (t.has_node(p) ==> alike(t.node(p), r.node(p)) && (t.node(
            p,
        ) matches NodeModel::Leaf { key, .. } ==> t.source_at(p).values[p + key] == r.source_at(
            p,
        ).values[p + key])) by {
            lemma_alike_node(t, r, p);
        }
    }
    lemma_merkle_same(t, r, root);
}

/// In a sound trie that records updates, computing the root hash records what became of every branch
/// below the root that counts as changed.
pub proof fn law_root_records(t: TrieModel, p: Seq<u8>)
    requires
        t.sound(),
        0 < p.len() <= MAX_PATH_LEN,
        t.has_node(p),
        t.node(p) is Branch,
        t.prefix.frozen().touches(p),
        t.subtrie_at(p).updates is Some,
    ensures
        t.updates_at(t.rooted(), p) is Some,
        noted(t.run_at(p), t.updates_at(t, p)->0, t.updates_at(t.rooted(), p)->0, p),
{
    if is_upper(p) {
        lemma_touched_visit(t, p);
    } else {
        lemma_touched_run(t, p);
    }
    lemma_recorded(t, p);
}

/// Computing the root hash records nothing of paths that do not count as changed.
pub proof fn law_root_records_changes_only(t: TrieModel, p: Seq<u8>)
    requires
        t.placed(),
        !t.prefix.frozen().touches(p),
    ensures
        same_record(t.upper.updates, t.rooted().upper.updates, p),
        forall|i: int|
            0 <= i < t.lower.len() && (#[trigger] t.lower[i]) is Some ==> t.rooted().lower[i] is Some
                && same_record(t.lower[i]->0.updates, t.rooted().lower[i]->0.updates, p),
{
    lemma_not_recorded(t, p);
}

/// Once the root hash was computed it can be computed again, and is the same. No encoding of 33 bytes
/// that this goes through is anything but that of a hash.
pub proof fn law_root_again(t: TrieModel)
    requires
        t.placed(),
        t.root_ready(),
        t.lower_hashed().hashing(t.upper_keys()).headed_from(Seq::empty()),
    ensures
        t.rooted().root_ready(),
        t.rooted().root_hash() == t.root_hash(),
        t.rooted().prefix == PrefixModel::none(),
{
    lemma_upper_hashable(t);
    lemma_root_again(t);
}

// The Merkle root.

/// Two tries that are sound and in normal form, of which no node is blinded, have the same Merkle
/// root if they have the same leaves with the same values.
pub proof fn law_same_leaves_same_root(a: TrieModel, b: TrieModel)
    requires
        a.whole(),
        b.whole(),
        a.all_revealed(),
        b.all_revealed(),
        same_leaves(a, b, Seq::empty()),
    ensures
        a.merkle_root() == b.merkle_root(),
{
    lemma_same_merkle(a, b, Seq::empty());
}

/// Removing a leaf from a trie of which no node is blinded gives the Merkle root of every trie that
/// has just the other leaves, with the same values. The root hash can then be computed, and it is that
/// Merkle root if all hashes that nodes kept were right.
pub proof fn law_root_after_removal(
    t: TrieModel,
    full: Seq<u8>,
    reply: Result<Option<RevealedModel>, ErrorModel>,
    other: TrieModel,
)
    requires
        t.whole(),
        t.all_revealed(),
        is_path(full),
        other.whole(),
        other.all_revealed(),
        !other.has_leaf(full),
        forall|x: Seq<u8>|
            is_path(x) && x != full ==> #[trigger] t.has_leaf(x) == other.has_leaf(x) && (
            t.has_leaf(x) ==> t.leaf_value(x) == other.leaf_value(x)),
    ensures
        t.leaf_removed(full, reply).result is Ok,
        t.leaf_removed(full, reply).trie.merkle_root() == other.merkle_root(),
        t.leaf_removed(full, reply).trie.root_ready(),
        t.true_hashes() ==> t.leaf_removed(full, reply).trie.hashes_right(),
{
    let r = t.leaf_removed(full, reply).trie;
    let root = Seq::<u8>::empty();
    lemma_removed_revealed(t, full, reply);
    lemma_removed_whole(t, full, reply);
    lemma_whole_removable(t, full);
    assert(t.extensions_lead_down()) by {
        assert forall|p: Seq<u8>| #[trigger] t.has_node(p) implies (t.node(
            p,
        ) matches NodeModel::Extension { key, .. } ==> key.len() > 0) by {
            assert(t.tidy(p));
        }
    }
    assert(same_leaves(r, other, root)) by {
        assert forall|x: Seq<u8>| is_path(x) && root.is_prefix_of(x) implies #[trigger] r.has_leaf(x)
            == other.has_leaf(x) && (r.has_leaf(x) ==> r.leaf_value(x) == other.leaf_value(x)) by {
            lemma_removed_lookup(t, full, reply, x);
            assert(t.has_leaf(x) == t.lookup(x) is At);
            lemma_prefix_pointwise(root, x);
            lemma_whole_removable(t, x);
            lemma_find_known(t, x, root);
        }
    }
    law_same_leaves_same_root(r, other);
    lemma_whole_ready(r);
    if t.true_hashes() {
        lemma_removed_true(t, full, reply);
        law_true_hashes_suffice(r);
    }
}

/// A trie that is part of another one, where blinded nodes stand for what the other one has there, has
/// the Merkle root of that.
pub proof fn law_part_has_the_root(t: TrieModel, f: TrieModel)
    requires
        t.normal(),
        t.has_node(Seq::empty()),
        part_of(t, f),
    ensures
        t.merkle_root() == f.merkle_root(),
{
    lemma_part_merkle(t, f, Seq::empty());
}

/// Removing a leaf from a part of a trie leaves a part of that trie without the leaf. Where the removal
/// needs a blinded node, what is revealed must be part of the trie.
pub proof fn law_removal_keeps_part(
    t: TrieModel,
    f: TrieModel,
    full: Seq<u8>,
    reply: Result<Option<RevealedModel>, ErrorModel>,
    other_reply: Result<Option<RevealedModel>, ErrorModel>,
)
    requires
        t.whole(),
        f.whole(),
        f.all_revealed(),
        part_of(t, f),
        is_path(full),
        t.leaf_removed(full, reply).result is Ok,
        t.asks(full) matches Some(child) ==> part_of(t.reveal_reply(child, reply).trie, f),
    ensures
        f.leaf_removed(full, other_reply).result is Ok,
        part_of(t.leaf_removed(full, reply).trie, f.leaf_removed(full, other_reply).trie),
{
    lemma_part_removed(t, f, full, reply, other_reply);
}

/// If the removal of a leaf from a part of a trie succeeds, the Merkle root is that of a trie with the
/// other leaves of the whole trie, the root hash can be computed, and it is that Merkle root if all
/// hashes that nodes kept were right. Where the removal needs a blinded node, the provider must answer
/// with one in normal form, and what is revealed must be part of the trie.
pub proof fn law_root_after_removal_from_part(
    t: TrieModel,
    f: TrieModel,
    full: Seq<u8>,
    reply: Result<Option<RevealedModel>, ErrorModel>,
    other: TrieModel,
)
    requires
        t.whole(),
        f.whole(),
        f.all_revealed(),
        part_of(t, f),
        is_path(full),
        t.leaf_removed(full, reply).result is Ok,
        t.asks(full) matches Some(child) ==> reply_in_form(reply) && part_of(
            t.reveal_reply(child, reply).trie,
            f,
        ),
        other.whole(),
        other.all_revealed(),
        !other.has_leaf(full),
        forall|x: Seq<u8>|
            is_path(x) && x != full ==> #[trigger] f.has_leaf(x) == other.has_leaf(x) && (
            f.has_leaf(x) ==> f.leaf_value(x) == other.leaf_value(x)),
    ensures
        t.leaf_removed(full, reply).trie.merkle_root() == other.merkle_root(),
        t.leaf_removed(full, reply).trie.root_ready(),
        t.true_hashes() ==> t.leaf_removed(full, reply).trie.hashes_right(),
{
    let r = t.leaf_removed(full, reply).trie;
    lemma_part_removed(t, f, full, reply, reply);
    lemma_removed_whole(t, full, reply);
    lemma_whole_removable(t, full);
    law_part_has_the_root(r, f.leaf_removed(full, reply).trie);
    law_root_after_removal(f, full, reply, other);
    lemma_whole_ready(r);
    if t.true_hashes() {
        if t.asks(full) is Some {
            let child = t.asks(full)->0;
            lemma_asked_revealed(t, full, reply);
            lemma_part_merkle(t.reveal_reply(child, reply).trie, f, child);
            assert(shows(t, f, child));
        }
        lemma_removed_true(t, full, reply);
        law_true_hashes_suffice(r);
    }
}

// Which lower subtries have changed.

/// Unless all keys have changed, each changed key goes to exactly one place: it is either among the
/// keys of the one changed lower subtrie that it belongs to, or among those that remain.
pub proof fn law_changed_keys_split(t: TrieModel, prefix: PrefixModel, key: Seq<u8>)
    requires
        t.placed(),
        !prefix.all,
        prefix.keys.contains(key),
    ensures
        t.remaining(prefix).keys.contains(key) == !(exists|i: int| #[trigger]
            t.changed(prefix, i) && prefix.under(t.lower_root(i)).keys.contains(key)),
        forall|i: int, j: int| #[trigger]
            prefix.under(t.lower_root(i)).keys.contains(key) && #[trigger] prefix.under(
                t.lower_root(j),
            ).keys.contains(key) && t.changed(prefix, i) && t.changed(prefix, j) ==> i == j,
{
    let n = NUM_LOWER_SUBTRIES as int;
    if t.in_changed(prefix, n, key) {
        let i = choose|i: int|
            i < n && #[trigger] t.changed(prefix, i) && t.lower_root(i).is_prefix_of(key);
        assert(prefix.under(t.lower_root(i)).keys.contains(key));
    }
    assert forall|i: int, j: int| #[trigger]
        prefix.under(t.lower_root(i)).keys.contains(key) && #[trigger] prefix.under(
            t.lower_root(j),
        ).keys.contains(key) && t.changed(prefix, i) && t.changed(prefix, j) implies i == j by {
        if i < j {
            lemma_lower_roots(t, i, j);
        } else if j < i {
            lemma_lower_roots(t, j, i);
        }
    }
}

/// Hashing a lower subtrie depends on nothing but the subtrie and the changed keys that belong to
/// it: the changed lower subtries can be hashed independently of each other.
pub proof fn law_lower_subtries_hash_independently(a: TrieModel, b: TrieModel, i: int)
    requires
        0 <= i < NUM_LOWER_SUBTRIES,
        a.lower.len() == NUM_LOWER_SUBTRIES,
        b.lower.len() == NUM_LOWER_SUBTRIES,
        a.lower[i] == b.lower[i],
        a.prefix.frozen().under(a.lower_root(i)) == b.prefix.frozen().under(b.lower_root(i)),
    ensures
        a.lower_hashed().lower[i] == b.lower_hashed().lower[i],
{
    lemma_under_touches(a.prefix.frozen(), a.lower_root(i));
    lemma_under_touches(b.prefix.frozen(), b.lower_root(i));
}

/// Whether a path is touched is decided by the keys that start with it.
proof fn lemma_under_touches(prefix: PrefixModel, path: Seq<u8>)
    ensures
        prefix.touches(path) == prefix.under(path).touches(path),
{
    if !prefix.all {
        if prefix.touches(path) {
            let key = choose|key: Seq<u8>| #[trigger]
                prefix.keys.contains(key) && path.is_prefix_of(key);
            assert(prefix.under(path).keys.contains(key));
        }
        if prefix.under(path).touches(path) {
            let key = choose|key: Seq<u8>| #[trigger]
                prefix.under(path).keys.contains(key) && path.is_prefix_of(key);
            assert(prefix.keys.contains(key));
        }
    }
}

// Updates.

/// Once the updates were taken there are none to take, and what recorded updates goes on to record.
pub proof fn law_taken_updates_are_gone(t: TrieModel, count: int)
    requires
        0 <= count <= t.lower.len(),
    ensures
        t.updates_taken().recorded(count) == UpdatesModel::none(),
        t.updates_taken().updates is Some == t.updates is Some,
        t.updates_taken().upper.updates is Some == t.upper.updates is Some,
        forall|i: int|
            0 <= i < t.lower.len() && (#[trigger] t.lower[i]) is Some
                ==> t.updates_taken().lower[i] is Some && t.updates_taken().lower[i]->0.updates is Some
                == t.lower[i]->0.updates is Some,
        alike_tries(t, t.updates_taken()),
    decreases count,
{
    let after = t.updates_taken();
    lemma_taken_alike(t);
    if count > 0 {
        law_taken_updates_are_gone(t, count - 1);
    }
    assert(after.recorded(count) =~= UpdatesModel::none());
}

/// While updates are recorded, a branch that is merged with its only child is recorded as dropped,
/// and not as written.
pub proof fn law_merged_branch_is_recorded(t: TrieModel, branch: Seq<u8>, child: Seq<u8>)
    requires
        t.updates is Some,
        t.has_node(branch),
    ensures
        t.merged(branch, child).updates is Some,
        t.merged(branch, child).updates->0.removed.contains(branch),
        !t.merged(branch, child).updates->0.updated.contains_key(branch),
{
}

}
