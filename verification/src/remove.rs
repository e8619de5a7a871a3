//! Removing leaves.

use crate::error::{outcome, ErrorModel, SparseTrieErrorKind, SparseTrieResult};
use crate::hash_run::lemma_nibbles_below;
use crate::kept_hashes::lemma_removed_true;
use crate::laws_of_recording::{drops, writes};
use crate::laws_of_removal::{law_dropped_stays_dropped, law_merged_branch_is_gone};
use crate::lookup::{lemma_removed_lookup, Lookup};
use crate::model::{MasksModel, Model, NodeModel, TrieNodeModel};
use crate::node::{SparseNode, TrieMasks, TrieNode};
use crate::normal::{lemma_removed_whole, lemma_whole_ready};
use crate::order::{lemma_prefix_pointwise, lemma_prefix_transitive};
use crate::outside::{decode_node, same_path, MAX_PATH_LEN};
use crate::path::{
    is_path, is_upper, know_path, lower_index_of, lower_path, SparseSubtrieType,
    NUM_LOWER_SUBTRIES,
};
use crate::provider::{reply_model, BlindedProvider, ProviderReply, RevealedModel, RevealedNode};
use crate::removal::{
    merged_branch, merged_ext, next_to_leaf, takes_child, NextModel, Removed, WalkEnd,
};
use crate::remove_sound::lemma_removed_sound;
use crate::revealed::lemma_reveal_only;
use crate::revealing::lemma_revealed_node;
use crate::root::lemma_placed;
use crate::trie::{lower_models, ParallelSparseTrie, TrieModel};
use alloy_trie::{Nibbles, TrieMask};
use vstd::prelude::*;

verus! {

/// Where the way to a leaf goes on.
#[derive(Clone, Copy, PartialEq, Eq, Debug)]
pub enum FindNextToLeafOutcome {
    /// The node is the leaf.
    Found,
    /// The way goes on at a path.
    ContinueFrom(Nibbles),
    /// The leaf is not in the trie.
    NotFound,
}

impl Model for FindNextToLeafOutcome {
    type M = NextModel;

    open spec fn model(&self) -> NextModel {
        match *self {
            FindNextToLeafOutcome::Found => NextModel::Found,
            FindNextToLeafOutcome::ContinueFrom(path) => NextModel::ContinueFrom(path.model()),
            FindNextToLeafOutcome::NotFound => NextModel::NotFound,
        }
    }
}

impl ParallelSparseTrie {
    /// Returns where the way to the leaf with the given full path goes on from a node, or an error
    /// if the node is blinded.
    pub fn find_next_to_leaf(
        from_path: &Nibbles,
        from_node: &SparseNode,
        leaf_full_path: &Nibbles,
    ) -> (next: SparseTrieResult<FindNextToLeafOutcome>)
        requires
            from_path.model().is_prefix_of(leaf_full_path.model()),
        ensures
            (match next {
                Ok(outcome) => Ok(outcome.model()),
                Err(error) => Err(error.model()),
            }) == next_to_leaf(from_path.model(), from_node.model(), leaf_full_path.model()),
    {
        let ghost from = from_path.model();
        let ghost full = leaf_full_path.model();
        proof {
            lemma_prefix_pointwise(from, full);
        }
        match from_node {
            SparseNode::Empty => Ok(FindNextToLeafOutcome::NotFound),
            SparseNode::Hash(hash) => Err(
                SparseTrieErrorKind::BlindedNode { path: *from_path, hash: *hash },
            ),
            SparseNode::Leaf { key, .. } => {
                if from_path.len() + key.len() != leaf_full_path.len() {
                    return Ok(FindNextToLeafOutcome::NotFound);
                }
                let mut found_full_path = *from_path;
                found_full_path.extend(key);
                if same_path(&found_full_path, leaf_full_path) {
                    Ok(FindNextToLeafOutcome::Found)
                } else {
                    Ok(FindNextToLeafOutcome::NotFound)
                }
            },
            SparseNode::Extension { key, .. } => {
                if leaf_full_path.len() == from_path.len() || from_path.len() + key.len()
                    > leaf_full_path.len() {
                    return Ok(FindNextToLeafOutcome::NotFound);
                }
                let mut child_path = *from_path;
                child_path.extend(key);
                if leaf_full_path.starts_with(&child_path) {
                    Ok(FindNextToLeafOutcome::ContinueFrom(child_path))
                } else {
                    Ok(FindNextToLeafOutcome::NotFound)
                }
            },
            SparseNode::Branch { state_mask, .. } => {
                if leaf_full_path.len() == from_path.len() {
                    return Ok(FindNextToLeafOutcome::NotFound);
                }
                let nibble = leaf_full_path.get_unchecked(from_path.len());
                if !state_mask.is_bit_set(nibble) {
                    return Ok(FindNextToLeafOutcome::NotFound);
                }
                let mut child_path = *from_path;
                child_path.push_unchecked(nibble);
                Ok(FindNextToLeafOutcome::ContinueFrom(child_path))
            },
        }
    }

    /// Returns what takes the place of a branch of which one child is left, and whether the child
    /// goes away with it. A leaf or an extension gets a longer key; above a branch there is an
    /// extension of one nibble.
    pub fn branch_changes_on_leaf_removal(
        parent_path: &Nibbles,
        remaining_child_path: &Nibbles,
        remaining_child_node: &SparseNode,
    ) -> (changes: (SparseNode, bool))
        requires
            parent_path.model().len() < remaining_child_path.model().len(),
            parent_path.model().is_prefix_of(remaining_child_path.model()),
            match remaining_child_node.model() {
                NodeModel::Leaf { key, .. } => key.len() < MAX_PATH_LEN,
                NodeModel::Extension { key, .. } => key.len() < MAX_PATH_LEN,
                NodeModel::Branch { .. } => true,
                _ => false,
            },
        ensures
            changes.0.model() == merged_branch(
                remaining_child_path.model()[parent_path.model().len() as int],
                remaining_child_node.model(),
            ),
            changes.1 == takes_child(remaining_child_node.model()),
    {
        let nibble = remaining_child_path.get_unchecked(parent_path.len());
        let mut new_key = Nibbles::new();
        new_key.push_unchecked(nibble);
        assert(new_key.model() =~= seq![nibble]);
        match remaining_child_node {
            SparseNode::Leaf { key, .. } => {
                new_key.extend(key);
                (SparseNode::new_leaf(new_key), true)
            },
            SparseNode::Extension { key, .. } => {
                new_key.extend(key);
                (SparseNode::new_ext(new_key), true)
            },
            _ => (SparseNode::new_ext(new_key), false),
        }
    }

    /// Returns what takes the place of an extension and its child, or nothing if the child is a
    /// branch and both stay.
    pub fn extension_changes_on_leaf_removal(
        parent_path: &Nibbles,
        parent_key: &Nibbles,
        child_path: &Nibbles,
        child: &SparseNode,
    ) -> (changed: Option<SparseNode>)
        requires
            parent_path.model().len() < child_path.model().len(),
            parent_path.model().is_prefix_of(child_path.model()),
            match child.model() {
                NodeModel::Leaf { key, .. } => parent_key.model().len() + key.len() <= MAX_PATH_LEN,
                NodeModel::Extension { key, .. } => parent_key.model().len() + key.len()
                    <= MAX_PATH_LEN,
                NodeModel::Branch { .. } => true,
                _ => false,
            },
        ensures
            (match changed {
                Some(node) => Some(node.model()),
                None => None,
            }) == merged_ext(parent_key.model(), child.model()),
    {
        match child {
            SparseNode::Leaf { key, .. } => {
                let mut new_key = *parent_key;
                new_key.extend(key);
                Some(SparseNode::new_leaf(new_key))
            },
            SparseNode::Extension { key, .. } => {
                let mut new_key = *parent_key;
                new_key.extend(key);
                Some(SparseNode::new_ext(new_key))
            },
            _ => None,
        }
    }

    /// Moves the value of a leaf that took the place of its parent from a lower subtrie to the
    /// upper one, if the leaf moved so.
    pub fn move_value_on_leaf_removal(
        &mut self,
        parent_path: &Nibbles,
        new_parent_node: &SparseNode,
        prev_child_path: &Nibbles,
    )
        requires
            old(self).well_formed(),
            match new_parent_node.model() {
                NodeModel::Leaf { key, .. } => is_upper(parent_path.model()) && !is_upper(
                    prev_child_path.model(),
                ) ==> {
                    &&& parent_path.model().len() + key.len() <= MAX_PATH_LEN
                    &&& old(self)@.subtrie_at(prev_child_path.model()).src.values.contains_key(
                        parent_path.model() + key,
                    )
                },
                _ => true,
            },
        ensures
            final(self).well_formed(),
            final(self)@ == old(self)@.moved(
                parent_path.model(),
                new_parent_node.model(),
                prev_child_path.model(),
            ),
    {
        if !SparseSubtrieType::path_len_is_upper(parent_path.len()) {
            return;
        }
        if let SparseNode::Leaf { key, .. } = new_parent_node {
            match self.lower_subtrie_for_path(prev_child_path) {
                None => {},
                Some(subtrie) => {
                    let mut leaf_full_path = *parent_path;
                    leaf_full_path.extend(key);
                    let value = subtrie.inner.values.remove(&leaf_full_path).unwrap();
                    let ghost index = lower_index_of(prev_child_path.model());
                    let ghost lower = self.lower_subtries@[index]->0;
                    proof {
                        assert(lower_models(self.lower_subtries@) =~= lower_models(
                            old(self).lower_subtries@,
                        ).update(index, Some(lower@)));
                    }
                    self.upper_subtrie.inner.values.insert(leaf_full_path, value);
                    proof {
                        let spec = old(self)@.moved(
                            parent_path.model(),
                            new_parent_node.model(),
                            prev_child_path.model(),
                        );
                        assert(self@.lower =~= spec.lower);
                        assert(self@.upper =~= spec.upper);
                    }
                },
            }
        }
    }

    /// Returns the node at a path.
    fn node_at(&self, path: &Nibbles) -> (node: SparseNode)
        requires
            self.well_formed(),
            self@.has_node(path.model()),
        ensures
            node.model() == self@.node(path.model()),
    {
        match SparseSubtrieType::from_path(path) {
            SparseSubtrieType::Upper => *self.upper_subtrie.nodes.get(path).unwrap(),
            SparseSubtrieType::Lower(index) => {
                assert(self@.lower[index as int] is Some);
                *self.lower_subtries[index].as_ref().unwrap().nodes.get(path).unwrap()
            },
        }
    }

    /// Puts a node at a path.
    fn put_node(&mut self, path: &Nibbles, node: SparseNode)
        requires
            old(self).well_formed(),
        ensures
            final(self).well_formed(),
            final(self)@ == old(self)@.put_node(path.model(), node.model()),
    {
        let subtrie = self.subtrie_for_path(path);
        subtrie.nodes.insert(*path, node);
        proof {
            lemma_replaced(*old(self), *self, path.model());
        }
    }

    /// Drops the node at a path. Where that is an extension at the root of a lower subtrie, what it
    /// leads to is the root now.
    fn drop_node(&mut self, path: &Nibbles)
        requires
            old(self).well_formed(),
            old(self)@.has_node(path.model()),
            old(self)@.node(path.model()) matches NodeModel::Extension { key, .. }
                ==> path.model().len() + key.len() <= MAX_PATH_LEN,
        ensures
            final(self).well_formed(),
            final(self)@ == old(self)@.drop_node(path.model()),
    {
        let subtrie = self.subtrie_for_path(path);
        let node = subtrie.nodes.remove(path);
        if !SparseSubtrieType::path_len_is_upper(path.len()) && same_path(&subtrie.path, path) {
            if let Some(SparseNode::Extension { key, .. }) = node {
                subtrie.path.extend(&key);
            }
        }
        proof {
            let p = path.model();
            if !is_upper(p) {
                let low = lower_path(lower_index_of(p));
                if old(self)@.node(p) is Extension {
                    let longer = p + old(self)@.node(p)->Extension_key;
                    lemma_prefix_pointwise(p, longer);
                    lemma_prefix_transitive(low, p, longer);
                }
            }
            lemma_replaced(*old(self), *self, p);
        }
    }
}

/// Replacing the subtrie that a path belongs to replaces its model.
proof fn lemma_replaced(before: ParallelSparseTrie, after: ParallelSparseTrie, path: Seq<u8>)
    requires
        before.well_formed(),
        after.prefix_set == before.prefix_set,
        after.updates == before.updates,
        if is_upper(path) {
            &&& after.lower_subtries == before.lower_subtries
        } else {
            let index = lower_index_of(path);
            &&& 0 <= index < NUM_LOWER_SUBTRIES
            &&& after.upper_subtrie == before.upper_subtrie
            &&& after.lower_subtries@[index] is Some
            &&& after.lower_subtries@ == before.lower_subtries@.update(
                index,
                after.lower_subtries@[index],
            )
        },
    ensures
        after@ == before@.with_subtrie_at(
            path,
            if is_upper(path) {
                after@.upper
            } else {
                after@.lower[lower_index_of(path)]->0
            },
        ),
{
    let spec = before@.with_subtrie_at(
        path,
        if is_upper(path) {
            after@.upper
        } else {
            after@.lower[lower_index_of(path)]->0
        },
    );
    assert(after@.lower =~= spec.lower);
}

// What setting and dropping a node leaves as it is.

/// Setting a node sets that node and no other.
pub proof fn lemma_put_node(t: TrieModel, path: Seq<u8>, node: NodeModel, other: Seq<u8>)
    requires
        is_upper(path) || 0 <= lower_index_of(path) < t.lower.len(),
    ensures
        t.put_node(path, node).has_node(path),
        t.put_node(path, node).node(path) == node,
        other != path ==> t.put_node(path, node).has_node(other) == t.has_node(other),
        other != path && t.has_node(other) ==> t.put_node(path, node).node(other) == t.node(other),
{
}

/// Dropping a node drops that node and no other.
pub proof fn lemma_drop_node(t: TrieModel, path: Seq<u8>, other: Seq<u8>)
    requires
        is_upper(path) || 0 <= lower_index_of(path) < t.lower.len(),
    ensures
        !t.drop_node(path).has_node(path),
        other != path ==> t.drop_node(path).has_node(other) == t.has_node(other),
        other != path && t.has_node(other) ==> t.drop_node(path).node(other) == t.node(other),
{
}

/// A walk depends only on the nodes that are at least as deep as its start.
proof fn lemma_walk_ok_frame(a: TrieModel, b: TrieModel, full: Seq<u8>, at: Seq<u8>)
    requires
        a.walk_ok(full, at),
        forall|p: Seq<u8>|
            p.len() >= at.len() && #[trigger] a.has_node(p) ==> b.has_node(p) && b.node(p) == a.node(
                p,
            ),
    ensures
        b.walk_ok(full, at),
    decreases full.len() - at.len(),
{
    match next_to_leaf(at, a.node(at), full) {
        Ok(NextModel::ContinueFrom(next)) => {
            lemma_walk_ok_frame(a, b, full, next);
        },
        _ => {},
    }
}

/// The place of a leaf, with the last branch above it and the extension that leads to the branch.
struct LeafPlace {
    path: Nibbles,
    branch: Option<Nibbles>,
    ext: Option<Nibbles>,
}

/// Whether a branch and an extension stand above a path.
spec fn above_ok(
    t: TrieModel,
    at: Seq<u8>,
    branch: Option<Nibbles>,
    ext: Option<Nibbles>,
) -> bool {
    &&& branch matches Some(b) ==> {
        &&& b.model().len() < at.len()
        &&& b.model().is_prefix_of(at)
        &&& t.has_node(b.model())
        &&& t.node(b.model()) is Branch
    }
    &&& ext matches Some(e) ==> {
        &&& e.model().len() < at.len()
        &&& e.model().is_prefix_of(at)
        &&& t.has_node(e.model())
        &&& t.node(e.model()) is Extension
    }
}

/// The model of an optional path.
spec fn path_opt(path: Option<Nibbles>) -> Option<Seq<u8>> {
    match path {
        Some(p) => Some(p.model()),
        None => None,
    }
}

impl ParallelSparseTrie {
    /// Walks to the leaf with a full path. The branches and extensions on the way lose their
    /// hashes: they will not hold once the leaf is gone.
    fn walk_to_leaf(&mut self, full_path: &Nibbles) -> (place: SparseTrieResult<Option<LeafPlace>>)
        requires
            old(self).well_formed(),
            old(self)@.walk_ok(full_path.model(), Seq::empty()),
        ensures
            final(self).well_formed(),
            ({
                let walk = old(self)@.walk(full_path.model(), Seq::empty(), None, None);
                &&& final(self)@ == walk.trie
                &&& walk.end == match place {
                    Err(error) => WalkEnd::Blocked(error.model()),
                    Ok(None) => WalkEnd::Missing,
                    Ok(Some(place)) => WalkEnd::Leaf {
                        path: place.path.model(),
                        branch: path_opt(place.branch),
                        ext: path_opt(place.ext),
                    },
                }
            }),
            place matches Ok(Some(place)) ==> {
                &&& final(self)@.has_node(place.path.model())
                &&& final(self)@.node(place.path.model()) is Leaf
                &&& place.path.model().is_prefix_of(full_path.model())
                &&& above_ok(final(self)@, place.path.model(), place.branch, place.ext)
            },
    {
        let ghost full = full_path.model();
        let ghost walk = self@.walk(full, Seq::empty(), None, None);
        let mut branch: Option<Nibbles> = None;
        let mut ext: Option<Nibbles> = None;
        let mut curr_path = Nibbles::new();
        loop
            invariant
                full == full_path.model(),
                walk == old(self)@.walk(full, Seq::empty(), None, None),
                self.well_formed(),
                curr_path.model().is_prefix_of(full),
                self@.walk_ok(full, curr_path.model()),
                walk == self@.walk(full, curr_path.model(), path_opt(branch), path_opt(ext)),
                above_ok(self@, curr_path.model(), branch, ext),
            decreases full.len() - curr_path.model().len(),
        {
            let ghost at = curr_path.model();
            let ghost t = self@;
            let node = self.node_at(&curr_path);
            match Self::find_next_to_leaf(&curr_path, &node, full_path) {
                Err(error) => {
                    return Err(error);
                },
                Ok(FindNextToLeafOutcome::NotFound) => {
                    return Ok(None);
                },
                Ok(FindNextToLeafOutcome::Found) => {
                    return Ok(Some(LeafPlace { path: curr_path, branch, ext }));
                },
                Ok(FindNextToLeafOutcome::ContinueFrom(next_path)) => {
                    let ghost next = next_path.model();
                    let mut cleared = node;
                    cleared.set_hash(None);
                    self.put_node(&curr_path, cleared);
                    proof {
                        assert forall|p: Seq<u8>|
                            p.len() >= next.len() && #[trigger] t.has_node(
                                p,
                            ) implies self@.has_node(p) && self@.node(p) == t.node(p) by {
                            lemma_put_node(t, at, cleared.model(), p);
                        }
                        lemma_walk_ok_frame(t, self@, full, next);
                        lemma_prefix_pointwise(at, full);
                        lemma_prefix_pointwise(at, next);
                        lemma_prefix_pointwise(next, full);
                        lemma_put_node(t, at, cleared.model(), at);
                        if branch is Some {
                            lemma_put_node(t, at, cleared.model(), branch->0.model());
                            lemma_prefix_transitive(branch->0.model(), at, next);
                        }
                        if ext is Some {
                            lemma_put_node(t, at, cleared.model(), ext->0.model());
                            lemma_prefix_transitive(ext->0.model(), at, next);
                        }
                    }
                    if let SparseNode::Branch { .. } = node {
                        // An extension that leads to an earlier branch does not lead to this one.
                        let leads = match (branch, ext) {
                            (Some(b), Some(e)) => b.len() <= e.len(),
                            _ => true,
                        };
                        if !leads {
                            ext = None;
                        }
                        branch = Some(curr_path);
                    } else {
                        ext = Some(curr_path);
                    }
                    curr_path = next_path;
                },
            }
        }
    }

    /// Takes the leaf at a path out of the trie. Its full path counts as changed.
    fn unlink_leaf(&mut self, full_path: &Nibbles, path: &Nibbles)
        requires
            old(self).well_formed(),
        ensures
            final(self).well_formed(),
            final(self)@ == old(self)@.unlinked(full_path.model(), path.model()),
    {
        self.prefix_set.insert(*full_path);
        let ghost marked = *self;
        let subtrie = self.subtrie_for_path(path);
        let _ = subtrie.inner.values.remove(full_path);
        let _ = subtrie.nodes.remove(path);
        proof {
            lemma_replaced(marked, *self, path.model());
            let spec = old(self)@.unlinked(full_path.model(), path.model());
            assert(self@.upper =~= spec.upper);
            assert(self@.lower =~= spec.lower);
        }
    }

    /// Records that the branch at a path is gone, if updates are recorded.
    fn record_gone(&mut self, path: &Nibbles)
        requires
            old(self).well_formed(),
        ensures
            final(self).well_formed(),
            final(self)@ == old(self)@.recorded_gone(path.model()),
    {
        if self.updates.is_none() {
            return;
        }
        let subtrie = self.subtrie_for_path(path);
        if let Some(own) = &mut subtrie.inner.updates {
            let _ = own.updated_nodes.remove(path);
        }
        proof {
            lemma_replaced(*old(self), *self, path.model());
        }
        if let Some(updates) = &mut self.updates {
            let _ = updates.updated_nodes.remove(path);
            updates.removed_nodes.insert(*path);
        }
    }
}

// Merging.

/// Moving a value leaves the nodes as they are.
pub proof fn lemma_moved(
    t: TrieModel,
    parent: Seq<u8>,
    node: NodeModel,
    child: Seq<u8>,
    other: Seq<u8>,
)
    requires
        is_upper(child) || (0 <= lower_index_of(child) < t.lower.len() && t.lower[lower_index_of(
            child,
        )] is Some),
    ensures
        t.moved(parent, node, child).has_node(other) == t.has_node(other),
        t.has_node(other) ==> t.moved(parent, node, child).node(other) == t.node(other),
        t.moved(parent, node, child).lower.len() == t.lower.len(),
{
}

/// Recording that a branch is gone leaves the nodes as they are.
pub proof fn lemma_recorded_gone(t: TrieModel, path: Seq<u8>, other: Seq<u8>)
    requires
        is_upper(path) || (0 <= lower_index_of(path) < t.lower.len() && t.lower[lower_index_of(
            path,
        )] is Some),
    ensures
        t.recorded_gone(path).has_node(other) == t.has_node(other),
        t.has_node(other) ==> t.recorded_gone(path).node(other) == t.node(other),
        t.recorded_gone(path).lower.len() == t.lower.len(),
{
}

/// Whether the branch at a path can be merged with its only child, and the extension above it with
/// what becomes of the branch.
pub open spec fn collapsible(
    t: TrieModel,
    branch: Seq<u8>,
    child: Seq<u8>,
    ext: Option<Seq<u8>>,
) -> bool {
    &&& child.len() == branch.len() + 1
    &&& branch.is_prefix_of(child)
    &&& child.len() <= MAX_PATH_LEN
    &&& t.has_node(branch)
    &&& t.has_node(child)
    &&& t.node(child) is Leaf || t.node(child) is Extension || t.node(child) is Branch
    &&& t.child_fits(branch, ext, child)
    &&& ext matches Some(above) ==> {
        &&& above.len() < branch.len()
        &&& t.has_node(above)
        &&& t.node(above) is Extension
        &&& above + t.node(above)->Extension_key == branch
    }
}

/// After a branch was merged with its only child, the extension above is as before, and the value
/// of a leaf is where it is looked for.
proof fn lemma_merged(t: TrieModel, branch: Seq<u8>, child: Seq<u8>, ext: Option<Seq<u8>>)
    requires
        collapsible(t, branch, child, ext),
    ensures
        ({
            let m = t.merged(branch, child);
            let new = merged_branch(child.last(), t.node(child));
            &&& m.has_node(branch)
            &&& m.node(branch) == new
            &&& ext matches Some(above) ==> m.has_node(above) && m.node(above) == t.node(above)
            &&& (new matches NodeModel::Leaf { key, .. } ==> {
                &&& branch + key == child + t.node(child)->Leaf_key
                &&& ext is Some && is_upper(ext->0) && !is_upper(branch) ==> m.subtrie_at(
                    branch,
                ).src.values.contains_key(branch + key)
            })
        }),
{
    lemma_prefix_pointwise(branch, child);
    let node = t.node(child);
    let new = merged_branch(child.last(), node);
    assert(branch.push(child.last()) =~= child);
    if !is_upper(branch) {
        assert(branch[0] == child[0] && branch[1] == child[1]);
        assert(lower_index_of(branch) == lower_index_of(child));
    }
    let taken = if takes_child(node) {
        t.drop_node(child).moved(branch, new, child)
    } else {
        t
    };
    let gone = taken.recorded_gone(branch);
    if takes_child(node) {
        lemma_drop_node(t, child, branch);
        lemma_moved(t.drop_node(child), branch, new, child, branch);
        if ext is Some {
            lemma_drop_node(t, child, ext->0);
            lemma_moved(t.drop_node(child), branch, new, child, ext->0);
        }
    }
    lemma_recorded_gone(taken, branch, branch);
    lemma_put_node(gone, branch, new, branch);
    if ext is Some {
        lemma_recorded_gone(taken, branch, ext->0);
        lemma_put_node(gone, branch, new, ext->0);
    }
    match new {
        NodeModel::Leaf { key, .. } => {
            assert(branch + key =~= child + node->Leaf_key);
        },
        _ => {},
    }
}

impl ParallelSparseTrie {
    /// Merges the branch at a path with its only child.
    fn merge_branch(&mut self, branch: &Nibbles, child: &Nibbles, ext: Ghost<Option<Seq<u8>>>)
        requires
            old(self).well_formed(),
            collapsible(old(self)@, branch.model(), child.model(), ext@),
        ensures
            final(self).well_formed(),
            final(self)@ == old(self)@.merged(branch.model(), child.model()),
    {
        let ghost t = self@;
        let ghost b = branch.model();
        let ghost c = child.model();
        let node = self.node_at(child);
        let (new_branch_node, remove_child) = Self::branch_changes_on_leaf_removal(
            branch,
            child,
            &node,
        );
        proof {
            lemma_prefix_pointwise(b, c);
            assert(b.push(c.last()) =~= c);
        }
        if remove_child {
            self.drop_node(child);
            proof {
                assert(self@.subtrie_at(c).src == t.subtrie_at(c).src);
                if let NodeModel::Leaf { key, .. } = node.model() {
                    assert(b + (seq![c.last()] + key) =~= c + key);
                }
            }
            self.move_value_on_leaf_removal(branch, &new_branch_node, child);
        }
        self.record_gone(branch);
        self.put_node(branch, new_branch_node);
    }

    /// Merges the extension at a path with its child.
    fn merge_ext(&mut self, above: &Nibbles, branch: &Nibbles)
        requires
            old(self).well_formed(),
            old(self)@.has_node(above.model()),
            old(self)@.node(above.model()) is Extension,
            above.model() + old(self)@.node(above.model())->Extension_key == branch.model(),
            above.model().len() < branch.model().len(),
            old(self)@.has_node(branch.model()),
            match old(self)@.node(branch.model()) {
                NodeModel::Leaf { key, .. } => {
                    &&& branch.model().len() + key.len() <= MAX_PATH_LEN
                    &&& is_upper(above.model()) && !is_upper(branch.model()) ==> old(
                        self,
                    )@.subtrie_at(branch.model()).src.values.contains_key(branch.model() + key)
                },
                NodeModel::Extension { key, .. } => branch.model().len() + key.len()
                    <= MAX_PATH_LEN,
                NodeModel::Branch { .. } => true,
                _ => false,
            },
        ensures
            final(self).well_formed(),
            final(self)@ == old(self)@.ext_merged(Some(above.model()), branch.model()),
    {
        let ghost t = self@;
        let ghost b = branch.model();
        let ghost e = above.model();
        if let SparseNode::Extension { key, .. } = self.node_at(above) {
            let node = self.node_at(branch);
            if let Some(new_ext_node) = Self::extension_changes_on_leaf_removal(
                above,
                &key,
                branch,
                &node,
            ) {
                self.put_node(above, new_ext_node);
                self.drop_node(branch);
                proof {
                    assert(self@.subtrie_at(b).src == t.subtrie_at(b).src);
                    if let NodeModel::Leaf { key: rest, .. } = node.model() {
                        assert(e + (key.model() + rest) =~= b + rest);
                    }
                }
                self.move_value_on_leaf_removal(above, &new_ext_node, branch);
            }
        }
    }

    /// Merges the branch at a path with its only child, and the extension above it with what
    /// becomes of the branch.
    fn collapse(&mut self, branch: &Nibbles, child: &Nibbles, ext: &Option<Nibbles>)
        requires
            old(self).well_formed(),
            collapsible(old(self)@, branch.model(), child.model(), path_opt(*ext)),
        ensures
            final(self).well_formed(),
            final(self)@ == old(self)@.merged(branch.model(), child.model()).ext_merged(
                path_opt(*ext),
                branch.model(),
            ),
    {
        proof {
            lemma_merged(self@, branch.model(), child.model(), path_opt(*ext));
        }
        self.merge_branch(branch, child, Ghost(path_opt(*ext)));
        if let Some(above) = ext {
            self.merge_ext(above, branch);
        }
    }
}

// The removal of a leaf.

/// A removal that waits for a blinded node: the only child that is left of a branch.
#[derive(Clone, Copy, PartialEq, Eq, Debug)]
pub struct LeafRemoval {
    /// The path of the branch.
    pub branch_path: Nibbles,
    /// The path of the blinded node.
    pub child_path: Nibbles,
    /// The path of the extension that leads to the branch, if there is one.
    pub ext_path: Option<Nibbles>,
}

impl LeafRemoval {
    /// The path of the branch.
    pub open spec fn branch(self) -> Seq<u8> {
        self.branch_path.model()
    }

    /// The path of the blinded node.
    pub open spec fn child(self) -> Seq<u8> {
        self.child_path.model()
    }

    /// The path of the extension.
    pub open spec fn ext(self) -> Option<Seq<u8>> {
        match self.ext_path {
            Some(path) => Some(path.model()),
            None => None,
        }
    }
}

/// Whether the branch at a path waits for its only child: the nodes are there, and the child is
/// blinded.
pub open spec fn waits_for(
    t: TrieModel,
    branch: Seq<u8>,
    child: Seq<u8>,
    ext: Option<Seq<u8>>,
) -> bool {
    &&& child.len() == branch.len() + 1
    &&& child.len() <= MAX_PATH_LEN
    &&& branch.is_prefix_of(child)
    &&& t.has_node(branch)
    &&& t.node(branch) is Branch
    &&& t.has_node(child)
    &&& t.node(child) is Hash
    &&& ext matches Some(above) ==> {
        &&& above.len() < branch.len()
        &&& t.has_node(above)
        &&& t.node(above) is Extension
        &&& above + t.node(above)->Extension_key == branch
    }
}

/// Whether a removal waits in a trie.
pub open spec fn waits(t: TrieModel, removal: LeafRemoval) -> bool {
    waits_for(t, removal.branch(), removal.child(), removal.ext())
}

/// After the blinded child was revealed, the branch can be merged with it.
pub proof fn lemma_revealed_collapsible(
    t: TrieModel,
    branch: Seq<u8>,
    child: Seq<u8>,
    ext: Option<Seq<u8>>,
    node: TrieNodeModel,
    masks: MasksModel,
)
    requires
        t.lower.len() == NUM_LOWER_SUBTRIES,
        waits_for(t, branch, child, ext),
        is_path(child),
        t.with_revealed(child, node, masks).result is Ok,
    ensures
        collapsible(t.with_revealed(child, node, masks).trie, branch, child, ext),
{
    let s = t.subtrie_at(child);
    let own = t.after(child, s.with_revealed(child, node, masks)).trie;
    let after = t.with_revealed(child, node, masks).trie;
    lemma_reveal_only(t, child, node, masks);
    assert(s.nodes.contains_key(child));
    lemma_revealed_node(s, child, node, masks);
    assert(own.has_node(child));
    assert(after.has_node(child) && after.node(child) == own.node(child));
    assert(after.has_node(branch));
    if ext is Some {
        assert(after.has_node(ext->0));
    }
}

impl ParallelSparseTrie {
    /// Begins to remove the leaf with a full path. Where that needs no blinded node it also ends
    /// it, and nothing is returned; otherwise what the removal waits for is returned.
    pub fn start_leaf_removal(&mut self, leaf_full_path: &Nibbles) -> (started: SparseTrieResult<
        Option<LeafRemoval>,
    >)
        requires
            old(self).well_formed(),
            old(self)@.removable(leaf_full_path.model()),
        ensures
            final(self).well_formed(),
            old(self)@.asks(leaf_full_path.model()) == match started {
                Ok(Some(removal)) => Some(removal.child()),
                _ => None,
            },
            match started {
                Err(error) => forall|reply: Result<Option<RevealedModel>, ErrorModel>|
                    #[trigger] old(self)@.leaf_removed(leaf_full_path.model(), reply) == (Removed {
                        trie: final(self)@,
                        result: Err(error.model()),
                    }),
                Ok(None) => forall|reply: Result<Option<RevealedModel>, ErrorModel>|
                    #[trigger] old(self)@.leaf_removed(leaf_full_path.model(), reply) == (Removed {
                        trie: final(self)@,
                        result: Ok(()),
                    }),
                Ok(Some(removal)) => {
                    &&& waits(final(self)@, removal)
                    &&& forall|reply: Result<Option<RevealedModel>, ErrorModel>|
                        #[trigger] old(self)@.leaf_removed(leaf_full_path.model(), reply)
                            == final(self)@.child_left(
                            removal.branch(),
                            removal.child(),
                            removal.ext(),
                            reply,
                        )
                },
            },
    {
        let ghost full = leaf_full_path.model();
        let ghost walk = self@.walk(full, Seq::empty(), None, None);
        let place = match self.walk_to_leaf(leaf_full_path) {
            Err(error) => {
                return Err(error);
            },
            Ok(None) => {
                return Ok(None);
            },
            Ok(Some(place)) => place,
        };
        let ghost t = self@;
        let ghost p = place.path.model();
        self.unlink_leaf(leaf_full_path, &place.path);
        let ghost without = self@;
        if place.path.len() == 0 {
            self.put_node(&place.path, SparseNode::Empty);
            return Ok(None);
        }
        let branch_path = place.branch.unwrap();
        let ghost b = branch_path.model();
        proof {
            lemma_prefix_pointwise(b, p);
            lemma_unlinked(t, full, p, b);
            if place.ext is Some {
                let e = place.ext->0.model();
                lemma_prefix_pointwise(e, p);
                lemma_unlinked(t, full, p, e);
            }
        }
        let mut state_mask: TrieMask = match self.node_at(&branch_path) {
            SparseNode::Branch { state_mask, .. } => state_mask,
            _ => TrieMask::default(),
        };
        let child_nibble = place.path.get_unchecked(branch_path.len());
        state_mask.unset_bit(child_nibble);
        let ghost mask = t.mask_without(b, p);
        assert(state_mask.model() == mask);
        if state_mask.count_bits() != 1 {
            let ghost new = NodeModel::new_branch(mask);
            self.put_node(&branch_path, SparseNode::new_branch(state_mask));
            proof {
                lemma_put_node(without, b, new, b);
                if place.ext is Some {
                    lemma_put_node(without, b, new, place.ext->0.model());
                }
            }
            if let Some(above) = place.ext {
                self.merge_ext(&above, &branch_path);
            }
            return Ok(None);
        }
        let nibble = state_mask.first_set_bit_index().unwrap();
        let ghost c = TrieModel::only_child(b, mask);
        proof {
            lemma_nibbles_below(mask, 16);
        }
        let mut child_path = branch_path;
        child_path.push_unchecked(nibble);
        proof {
            assert(child_path.model() == c);
            lemma_prefix_pointwise(b, c);
            assert(c != p) by {
                assert(mask.contains(nibble));
                assert(c[b.len() as int] == nibble);
                assert(p[b.len() as int] == child_nibble);
            }
            lemma_unlinked(t, full, p, c);
            if place.ext is Some {
                let e = place.ext->0.model();
                assert(e.len() < b.len());
            }
        }
        let child = self.node_at(&child_path);
        if child.is_hash() {
            let removal = LeafRemoval { branch_path, child_path, ext_path: place.ext };
            return Ok(Some(removal));
        }
        proof {
            lemma_unlinked_fits(t, full, p, b, path_opt(place.ext), c);
        }
        self.collapse(&branch_path, &child_path, &place.ext);
        Ok(None)
    }

    /// Ends a removal that waited for a blinded node, with what a provider answered for it.
    pub fn finish_leaf_removal(&mut self, removal: LeafRemoval, reply: ProviderReply) -> (result:
        SparseTrieResult<()>)
        requires
            old(self).well_formed(),
            waits(old(self)@, removal),
        ensures
            final(self).well_formed(),
            (Removed { trie: final(self)@, result: outcome(result) }) == old(self)@.child_left(
                removal.branch(),
                removal.child(),
                removal.ext(),
                reply_model(reply),
            ),
    {
        let LeafRemoval { branch_path, child_path, ext_path } = removal;
        match reply {
            Err(error) => Err(error),
            Ok(None) => Err(SparseTrieErrorKind::NodeNotFoundInProvider { path: child_path }),
            Ok(Some(revealed)) => {
                let masks = TrieMasks {
                    hash_mask: revealed.hash_mask,
                    tree_mask: revealed.tree_mask,
                };
                match decode_node(revealed.node.as_slice()) {
                    Err(error) => Err(SparseTrieErrorKind::Rlp(error)),
                    Ok(node) => {
                        let ghost t = self@;
                        let ghost known = node.model();
                        know_path(&child_path);
                        if let TrieNode::Extension(ext) = &node {
                            know_path(&ext.key);
                        }
                        match self.reveal_node(child_path, node, masks) {
                            Err(error) => Err(error),
                            Ok(()) => {
                                proof {
                                    lemma_revealed_collapsible(
                                        t,
                                        removal.branch(),
                                        removal.child(),
                                        removal.ext(),
                                        known,
                                        masks.model(),
                                    );
                                }
                                self.collapse(&branch_path, &child_path, &ext_path);
                                Ok(())
                            },
                        }
                    },
                }
            },
        }
    }

    /// Removes the leaf with a full path, if it is in the trie.
    ///
    /// The branches and extensions on the way to it lose their hashes. A branch of which one child
    /// is left is merged with that child, and an extension above it with what the branch becomes.
    /// Where the child is blinded, the provider is asked for it.
    ///
    /// Leaves stay with their values, and values with their leaves, whether this succeeds or fails.
    /// If it succeeds, the trie stays sound, the leaf is looked up in vain, and all others that
    /// were found are found with their values. While updates are recorded, a branch of which the leaf
    /// was one of two children is dropped then, and what was dropped stays so. If no blinded node was
    /// needed, a trie in normal form stays so, the root hash can be computed, and hashes that were
    /// right are right.
    pub fn remove_leaf<P: BlindedProvider>(&mut self, leaf_full_path: &Nibbles, provider: P) -> (result:
        SparseTrieResult<()>)
        requires
            old(self).well_formed(),
            old(self)@.removable(leaf_full_path.model()),
        ensures
            final(self).well_formed(),
            exists|reply: ProviderReply|
                {
                    &&& (Removed { trie: final(self)@, result: outcome(result) })
                        == #[trigger] old(self)@.leaf_removed(
                        leaf_full_path.model(),
                        reply_model(reply),
                    )
                    &&& old(self)@.asks(leaf_full_path.model()) matches Some(child) ==> exists|
                        path: Nibbles,
                    |
                        #[trigger] path.model() == child && call_ensures(
                            P::blinded_node,
                            (&provider, &path),
                            reply,
                        )
                },
            old(self)@.sound() ==> final(self)@.homed() && final(self)@.valued() && (result is Ok
                ==> final(self)@.sound()),
            old(self)@.extensions_lead_down() && result is Ok ==> others_stay(
                old(self)@,
                final(self)@,
                leaf_full_path.model(),
            ),
            forall|q: Seq<u8>| #[trigger]
                drops(old(self)@.updates, q) ==> drops(final(self)@.updates, q),
            forall|q: Seq<u8>| #[trigger]
                old(self)@.one_of_two(leaf_full_path.model(), q) && old(self)@.updates is Some
                    && result is Ok ==> drops(final(self)@.updates, q) && !writes(
                    final(self)@.updates,
                    q,
                ),
            old(self)@.whole() && old(self)@.asks(leaf_full_path.model()) is None && result is Ok
                ==> final(self)@.whole() && final(self)@.root_ready(),
            old(self)@.sound() && old(self)@.true_hashes() && old(self)@.asks(
                leaf_full_path.model(),
            ) is None && result is Ok ==> final(self)@.true_hashes(),
    {
        know_path(leaf_full_path);
        proof {
            lemma_placed(*self);
        }
        match self.start_leaf_removal(leaf_full_path) {
            Err(error) => {
                proof {
                    lemma_removal_keeps(old(self)@, leaf_full_path.model(), Ok(None));
                }
                assert(old(self)@.leaf_removed(
                    leaf_full_path.model(),
                    reply_model(Ok::<Option<RevealedNode>, SparseTrieErrorKind>(None)),
                ) == (Removed { trie: self@, result: Err(error.model()) }));
                Err(error)
            },
            Ok(None) => {
                proof {
                    lemma_removal_keeps(old(self)@, leaf_full_path.model(), Ok(None));
                }
                assert(old(self)@.leaf_removed(
                    leaf_full_path.model(),
                    reply_model(Ok::<Option<RevealedNode>, SparseTrieErrorKind>(None)),
                ) == (Removed { trie: self@, result: Ok(()) }));
                Ok(())
            },
            Ok(Some(removal)) => {
                let reply = provider.blinded_node(&removal.child_path);
                let ghost given = reply;
                assert(removal.child_path.model() == removal.child());
                let result = self.finish_leaf_removal(removal, reply);
                proof {
                    lemma_removal_keeps(old(self)@, leaf_full_path.model(), reply_model(given));
                }
                assert(old(self)@.leaf_removed(leaf_full_path.model(), reply_model(given)) == (
                Removed { trie: self@, result: outcome(result) }));
                result
            },
        }
    }
}

/// Taking a leaf out leaves all other nodes as they are.
pub proof fn lemma_unlinked(t: TrieModel, full: Seq<u8>, path: Seq<u8>, other: Seq<u8>)
    requires
        t.has_node(path),
    ensures
        t.unlinked(full, path).lower.len() == t.lower.len(),
        !t.unlinked(full, path).has_node(path),
        other != path ==> t.unlinked(full, path).has_node(other) == t.has_node(other),
        other != path && t.has_node(other) ==> t.unlinked(full, path).node(other) == t.node(other),
{
}

/// Taking a leaf out leaves the value of another leaf where it is.
pub proof fn lemma_unlinked_fits(
    t: TrieModel,
    full: Seq<u8>,
    path: Seq<u8>,
    branch: Seq<u8>,
    ext: Option<Seq<u8>>,
    child: Seq<u8>,
)
    requires
        t.has_node(path),
        t.has_node(child),
        path != child,
        t.child_fits(branch, ext, child),
        path.is_prefix_of(full),
        child.len() == branch.len() + 1,
        branch.len() < path.len(),
        branch.is_prefix_of(child),
        branch.is_prefix_of(path),
        child[branch.len() as int] != path[branch.len() as int],
    ensures
        t.unlinked(full, path).child_fits(branch, ext, child),
{
    lemma_unlinked(t, full, path, child);
    match t.node(child) {
        NodeModel::Leaf { key, .. } => {
            let other = child + key;
            lemma_prefix_pointwise(path, full);
            assert(other != full) by {
                assert(other[branch.len() as int] == child[branch.len() as int]);
                assert(full[branch.len() as int] == path[branch.len() as int]);
            }
        },
        _ => {},
    }
}

/// Whether a trie is another one without the leaf with a full path: it is looked up in vain, others
/// that were found are found with their values, and others that were missing still are.
pub open spec fn others_stay(before: TrieModel, after: TrieModel, full: Seq<u8>) -> bool {
    &&& after.lookup(full) == Lookup::Missing
    &&& forall|other: Seq<u8>|
        is_path(other) && other != full ==> match #[trigger] before.lookup(other) {
            Lookup::Missing => after.lookup(other) == Lookup::Missing,
            Lookup::Unknown => true,
            Lookup::At(p) => after.lookup(other) matches Lookup::At(q) && after.value_at(q, other)
                == before.value_at(p, other),
        }
}

/// What removing a leaf keeps.
proof fn lemma_removal_keeps(
    t: TrieModel,
    full: Seq<u8>,
    reply: Result<Option<RevealedModel>, ErrorModel>,
)
    requires
        t.placed(),
        t.removable(full),
        is_path(full),
    ensures
        ({
            let removed = t.leaf_removed(full, reply);
            &&& t.sound() ==> removed.trie.homed() && removed.trie.valued() && (removed.result is Ok
                ==> removed.trie.sound())
            &&& t.extensions_lead_down() && removed.result is Ok ==> others_stay(
                t,
                removed.trie,
                full,
            )
            &&& forall|q: Seq<u8>| #[trigger]
                drops(t.updates, q) ==> drops(removed.trie.updates, q)
            &&& forall|q: Seq<u8>| #[trigger]
                t.one_of_two(full, q) && t.updates is Some && removed.result is Ok ==> drops(
                    removed.trie.updates,
                    q,
                ) && !writes(removed.trie.updates, q)
            &&& t.whole() && t.asks(full) is None && removed.result is Ok ==> removed.trie.whole()
                && removed.trie.root_ready()
            &&& t.sound() && t.true_hashes() && t.asks(full) is None && removed.result is Ok
                ==> removed.trie.true_hashes()
        }),
{
    let removed = t.leaf_removed(full, reply);
    assert forall|q: Seq<u8>| #[trigger] drops(t.updates, q) implies drops(
        removed.trie.updates,
        q,
    ) by {
        law_dropped_stays_dropped(t, full, reply, q, 0);
    }
    assert forall|q: Seq<u8>| #[trigger]
        t.one_of_two(full, q) && t.updates is Some && removed.result is Ok implies drops(
        removed.trie.updates,
        q,
    ) && !writes(removed.trie.updates, q) by {
        law_merged_branch_is_gone(t, full, reply, q);
    }
    if t.whole() && t.asks(full) is None && removed.result is Ok {
        lemma_removed_whole(t, full, reply);
        lemma_whole_ready(removed.trie);
    }
    if t.sound() && t.true_hashes() && t.asks(full) is None && removed.result is Ok {
        lemma_removed_true(t, full, reply);
    }
    if t.sound() {
        lemma_removed_sound(t, full, reply);
    }
    if t.extensions_lead_down() && removed.result is Ok {
        lemma_removed_lookup(t, full, reply, full);
        assert forall|other: Seq<u8>| is_path(other) && other != full implies match #[trigger] t.lookup(
            other,
        ) {
            Lookup::Missing => removed.trie.lookup(other) == Lookup::Missing,
            Lookup::Unknown => true,
            Lookup::At(p) => removed.trie.lookup(other) matches Lookup::At(q)
                && removed.trie.value_at(q, other) == t.value_at(p, other),
        } by {
            lemma_removed_lookup(t, full, reply, other);
        }
    }
}

}
