//! What revealing and removing leave of the masks and of what was recorded.

use crate::error::ErrorModel;
use crate::hash_run::lemma_nibbles_below;
use crate::lookup::{
    child_known, lemma_cleared_shape, lemma_leaf_place, lemma_unlinked_child,
    lemma_walk_ok_shape,
};
use crate::lower::{all_low, lemma_all_lower, lemma_kids_low, low_below, LowerChild};
use crate::model::{child_nibbles, MasksModel, NodeModel, TrieNodeModel};
use crate::order::lemma_prefix_pointwise;
use crate::outside::decoded_node;
use crate::path::{is_path, is_upper, lower_index_of, NUM_LOWER_SUBTRIES};
use crate::provider::RevealedModel;
use crate::removal::{merged_branch, merged_ext, next_to_leaf, takes_child, NextModel, WalkEnd};
use crate::remove::lemma_unlinked;
use crate::revealed::{lemma_child_masks, lemma_kids_masks, lemma_reveal_only, same_masks};
use crate::revealing::{lemma_child_grows, lemma_reveal_grows};
use crate::subtrie::SubtrieModel;
use crate::trie::{settled, TrieModel};
use vstd::prelude::*;

verus! {

/// Whether two tries have recorded the same, in all their parts. What a lower subtrie would have that is
/// not there counts.
pub open spec fn same_recorded(a: TrieModel, b: TrieModel) -> bool {
    &&& a.updates == b.updates
    &&& a.upper.updates == b.upper.updates
    &&& a.lower.len() == b.lower.len()
    &&& forall|i: int|
        0 <= i < a.lower.len() ==> #[trigger] a.lower_at(i).updates == b.lower_at(i).updates
    &&& forall|i: int| 0 <= i < a.lower.len() && (#[trigger] a.lower[i]) is Some ==> b.lower[i] is Some
}

/// Whether two tries have the same masks, in all their subtries.
pub open spec fn same_mask_maps(a: TrieModel, b: TrieModel) -> bool {
    &&& same_masks(a.upper, b.upper)
    &&& a.lower.len() == b.lower.len()
    &&& forall|i: int|
        0 <= i < a.lower.len() ==> same_masks(#[trigger] a.lower_at(i), b.lower_at(i))
}

/// Both.
pub open spec fn same_notes(a: TrieModel, b: TrieModel) -> bool {
    same_recorded(a, b) && same_mask_maps(a, b)
}

/// Having the same notes is transitive.
pub proof fn lemma_same_recorded(a: TrieModel, b: TrieModel, c: TrieModel)
    requires
        same_recorded(a, b),
        same_recorded(b, c),
    ensures
        same_recorded(a, c),
{
    assert forall|i: int| 0 <= i < a.lower.len() implies #[trigger] a.lower_at(i).updates
        == c.lower_at(i).updates by {
        assert(a.lower_at(i).updates == b.lower_at(i).updates);
    }
    assert forall|i: int| 0 <= i < a.lower.len() && (#[trigger] a.lower[i]) is Some implies c.lower[i] is Some by {
        assert(b.lower[i] is Some);
    }
}

/// Having the same masks is transitive.
pub proof fn lemma_same_mask_maps(a: TrieModel, b: TrieModel, c: TrieModel)
    requires
        same_mask_maps(a, b),
        same_mask_maps(b, c),
    ensures
        same_mask_maps(a, c),
{
    assert forall|i: int| 0 <= i < a.lower.len() implies same_masks(
        #[trigger] a.lower_at(i),
        c.lower_at(i),
    ) by {
        assert(same_masks(a.lower_at(i), b.lower_at(i)));
        assert(same_masks(b.lower_at(i), c.lower_at(i)));
    }
}

/// Having the same notes is transitive.
pub proof fn lemma_same_notes(a: TrieModel, b: TrieModel, c: TrieModel)
    requires
        same_notes(a, b),
        same_notes(b, c),
    ensures
        same_notes(a, c),
{
    lemma_same_recorded(a, b, c);
    lemma_same_mask_maps(a, b, c);
}

/// Whether there is a place for the subtrie of a path.
spec fn placeable(t: TrieModel, path: Seq<u8>) -> bool {
    is_upper(path) || 0 <= lower_index_of(path) < t.lower.len()
}

/// Replacing a subtrie by one with the same notes.
proof fn lemma_subtrie_notes(t: TrieModel, path: Seq<u8>, s: SubtrieModel)
    requires
        placeable(t, path),
    ensures
        s.updates == t.subtrie_at(path).updates ==> same_recorded(t, t.with_subtrie_at(path, s)),
        same_masks(t.subtrie_at(path), s) ==> same_mask_maps(t, t.with_subtrie_at(path, s)),
{
}

/// A node that is put somewhere leaves the notes.
pub proof fn lemma_put_notes(t: TrieModel, path: Seq<u8>, node: NodeModel)
    requires
        is_upper(path) || 0 <= lower_index_of(path) < t.lower.len(),
    ensures
        same_notes(t, t.put_node(path, node)),
{
    lemma_subtrie_notes(t, path, t.subtrie_at(path).put(path, node));
}

/// A node that is dropped leaves the notes.
proof fn lemma_drop_notes(t: TrieModel, path: Seq<u8>)
    requires
        placeable(t, path),
    ensures
        same_notes(t, t.drop_node(path)),
{
}

/// A value that moves leaves the notes.
proof fn lemma_moved_notes(t: TrieModel, parent: Seq<u8>, node: NodeModel, child: Seq<u8>)
    requires
        placeable(t, child),
    ensures
        same_notes(t, t.moved(parent, node, child)),
{
    if let NodeModel::Leaf { key, .. } = node {
        if is_upper(parent) && !is_upper(child) {
            let full = parent + key;
            let value = t.subtrie_at(child).src.values[full];
            let dropped = t.drop_value(child, full);
            assert(same_notes(t, dropped));
            assert(same_notes(dropped, dropped.put_value(parent, full, value)));
            lemma_same_notes(t, dropped, dropped.put_value(parent, full, value));
        }
    }
}

/// A leaf that is taken out leaves the notes.
proof fn lemma_unlinked_notes(t: TrieModel, full: Seq<u8>, path: Seq<u8>)
    requires
        placeable(t, path),
    ensures
        same_notes(t, t.unlinked(full, path)),
        t.unlinked(full, path).prefix.all == t.prefix.all,
        t.unlinked(full, path).prefix.keys == t.prefix.keys.insert(full),
{
}

/// A walk leaves the notes.
pub proof fn lemma_walk_notes(
    t: TrieModel,
    full: Seq<u8>,
    at: Seq<u8>,
    branch: Option<Seq<u8>>,
    ext: Option<Seq<u8>>,
)
    requires
        t.walk_ok(full, at),
    ensures
        same_notes(t, t.walk(full, at, branch, ext).trie),
        t.walk(full, at, branch, ext).trie.prefix == t.prefix,
    decreases full.len() - at.len(),
{
    let node = t.node(at);
    match next_to_leaf(at, node, full) {
        Ok(NextModel::ContinueFrom(next)) => {
            let cleared = t.put_node(at, node.with_hash(None));
            lemma_cleared_shape(t, at);
            lemma_walk_ok_shape(t, cleared, full, next);
            lemma_put_notes(t, at, node.with_hash(None));
            if node is Branch {
                let leads = if branch is Some && ext is Some && branch->0.len() > ext->0.len() {
                    None
                } else {
                    ext
                };
                lemma_walk_notes(cleared, full, next, Some(at), leads);
                lemma_same_notes(t, cleared, cleared.walk(full, next, Some(at), leads).trie);
            } else {
                lemma_walk_notes(cleared, full, next, branch, Some(at));
                lemma_same_notes(t, cleared, cleared.walk(full, next, branch, Some(at)).trie);
            }
        },
        _ => {},
    }
}

// Revealing.

/// Revealing children leaves the notes.
pub proof fn lemma_children_notes(t: TrieModel, path: Seq<u8>, kids: Seq<LowerChild>)
    requires
        t.lower.len() == NUM_LOWER_SUBTRIES,
        all_low(path, kids),
    ensures
        same_notes(t, t.with_children(kids).trie),
    decreases kids.len(),
{
    if kids.len() > 0 {
        let kid = kids[0].path;
        let child = kids[0].rlp;
        let s = t.subtrie_at(kid);
        let next = t.with_child(kids[0]);
        let rest = kids.skip(1);
        assert(low_below(path, kids[0]));
        assert(kid[0] < 16 && kid[1] < 16);
        lemma_child_grows(s, kid, child);
        lemma_child_masks(s, kid, child);
        lemma_subtrie_notes(t, kid, settled(kid, s.reveal_child(kid, child)));
        if next.result is Ok {
            assert forall|i: int| 0 <= i < rest.len() implies low_below(path, #[trigger] rest[i]) by {
                assert(rest[i] == kids[i + 1]);
                assert(low_below(path, kids[i + 1]));
            }
            lemma_children_notes(next.trie, path, rest);
            lemma_same_notes(t, next.trie, next.trie.with_children(rest).trie);
        }
    }
}

/// Revealing a node notes its masks.
pub proof fn lemma_own_masks(s: SubtrieModel, path: Seq<u8>, node: TrieNodeModel, masks: MasksModel)
    requires
        s.with_revealed(path, node, masks).result is Ok,
        !(s.nodes.contains_key(path) && s.nodes[path] !is Hash),
    ensures
        ({
            let after = s.with_revealed(path, node, masks).subtrie;
            &&& after.src.tree_masks == match masks.tree {
                Some(mask) => s.src.tree_masks.insert(path, mask),
                None => s.src.tree_masks,
            }
            &&& after.src.hash_masks == match masks.hash {
                Some(mask) => s.src.hash_masks.insert(path, mask),
                None => s.src.hash_masks,
            }
        }),
{
    match node {
        TrieNodeModel::Branch { stack, mask } => {
            lemma_kids_masks(s, path, stack, child_nibbles(mask), 0);
        },
        TrieNodeModel::Extension { key, child } => {
            lemma_child_masks(s, path + key, child);
        },
        _ => {},
    }
}

/// Revealing a node records nothing, and notes masks in the subtrie of the node alone.
pub proof fn lemma_reveal_notes(t: TrieModel, path: Seq<u8>, node: TrieNodeModel, masks: MasksModel)
    requires
        t.lower.len() == NUM_LOWER_SUBTRIES,
        is_path(path),
    ensures
        ({
            let r = t.with_revealed(path, node, masks).trie;
            &&& same_recorded(t, r)
            &&& r.prefix == t.prefix
            &&& !is_upper(path) ==> same_masks(t.upper, r.upper)
            &&& forall|i: int|
                0 <= i < t.lower.len() && (is_upper(path) || i != lower_index_of(path))
                    ==> same_masks(#[trigger] t.lower_at(i), r.lower_at(i))
        }),
{
    let r = t.with_revealed(path, node, masks);
    if !t.is_revealed(path) {
        if !is_upper(path) {
            let s = t.subtrie_at(path);
            assert(path[0] < 16 && path[1] < 16);
            lemma_reveal_grows(s, path, node, masks);
        } else {
            let kids = t.lower_kids(path, node);
            let below = t.with_children(kids);
            lemma_kids_low(t, path, node);
            lemma_all_lower(t, path, kids);
            lemma_children_notes(t, path, kids);
            if below.result is Ok {
                let b = below.trie;
                lemma_reveal_grows(b.upper, path, node, masks);
                assert(r.trie.upper.updates == b.upper.updates);
                assert(r.trie.lower == b.lower);
                assert forall|i: int| 0 <= i < t.lower.len() implies same_masks(
                    #[trigger] t.lower_at(i),
                    r.trie.lower_at(i),
                ) && t.lower_at(i).updates == r.trie.lower_at(i).updates by {
                    assert(b.lower_at(i) == r.trie.lower_at(i));
                }
            }
        }
    }
}

// Removing.

/// Merging an extension with what became of the branch below it leaves the notes.
proof fn lemma_joined_notes(m: TrieModel, ext: Option<Seq<u8>>, branch: Seq<u8>)
    requires
        ext is Some ==> placeable(m, branch) && placeable(m, ext->0),
    ensures
        same_notes(m, m.ext_merged(ext, branch)),
        m.ext_merged(ext, branch).prefix == m.prefix,
{
    if let Some(above) = ext {
        if let Some(new) = merged_ext(m.node(above)->Extension_key, m.node(branch)) {
            let a = m.put_node(above, new);
            let b = a.drop_node(branch);
            let c = b.moved(above, new, branch);
            lemma_put_notes(m, above, new);
            lemma_drop_notes(a, branch);
            lemma_moved_notes(b, above, new, branch);
            lemma_same_notes(m, a, b);
            lemma_same_notes(m, b, c);
        }
    }
}

/// Whether a trie has recorded what another one has, and that the branch at a path is gone: it is dropped,
/// and not written, by the trie, and not written by the subtrie that it belonged to.
pub open spec fn recorded_but(a: TrieModel, b: TrieModel, gone: Seq<u8>) -> bool {
    &&& a.updates is Some == b.updates is Some
    &&& a.lower.len() == b.lower.len()
    &&& a.updates is None ==> same_recorded(a, b)
    &&& a.updates is Some ==> {
        &&& b.updates->0.removed == a.updates->0.removed.insert(gone)
        &&& b.updates->0.updated == a.updates->0.updated.remove(gone)
        &&& b.updates->0.wiped == a.updates->0.wiped
        &&& if is_upper(gone) {
            without_written(a.upper, b.upper, gone)
        } else {
            a.upper.updates == b.upper.updates
        }
        &&& forall|i: int|
            0 <= i < a.lower.len() ==> if !is_upper(gone) && i == lower_index_of(gone) {
                without_written(#[trigger] a.lower_at(i), b.lower_at(i), gone)
            } else {
                a.lower_at(i).updates == b.lower_at(i).updates
            }
    }
    &&& forall|i: int| 0 <= i < a.lower.len() && (#[trigger] a.lower[i]) is Some ==> b.lower[i] is Some
}

/// Whether a subtrie has recorded what another one has, but for what was written at a path.
pub open spec fn without_written(a: SubtrieModel, b: SubtrieModel, gone: Seq<u8>) -> bool {
    match a.updates {
        Some(before) => b.updates matches Some(after) && after.removed == before.removed
            && after.updated == before.updated.remove(gone) && after.wiped == before.wiped,
        None => b.updates is None,
    }
}

/// Merging a branch with its only child records that the branch is gone.
proof fn lemma_merged_notes(v: TrieModel, branch: Seq<u8>, child: Seq<u8>)
    requires
        v.has_node(branch),
        v.has_node(child),
    ensures
        recorded_but(v, v.merged(branch, child), branch),
        same_mask_maps(v, v.merged(branch, child)),
        v.merged(branch, child).prefix == v.prefix,
{
    let node = v.node(child);
    let new = merged_branch(child.last(), node);
    let taken = if takes_child(node) {
        v.drop_node(child).moved(branch, new, child)
    } else {
        v
    };
    if takes_child(node) {
        lemma_drop_notes(v, child);
        lemma_moved_notes(v.drop_node(child), branch, new, child);
        lemma_same_notes(v, v.drop_node(child), taken);
    }
    assert(same_notes(v, taken));
    let gone = taken.recorded_gone(branch);
    let m = gone.put_node(branch, new);
    assert(recorded_but(taken, gone, branch));
    assert(same_mask_maps(taken, gone));
    lemma_put_notes(gone, branch, new);
    lemma_same_mask_maps(v, taken, gone);
    lemma_same_mask_maps(v, gone, m);
    if v.updates is None {
        lemma_same_recorded(v, taken, gone);
        lemma_same_recorded(v, gone, m);
    } else {
        assert forall|i: int| 0 <= i < v.lower.len() implies if !is_upper(branch) && i
            == lower_index_of(branch) {
            without_written(#[trigger] v.lower_at(i), m.lower_at(i), branch)
        } else {
            v.lower_at(i).updates == m.lower_at(i).updates
        } by {
            assert(v.lower_at(i).updates == taken.lower_at(i).updates);
            assert(gone.lower_at(i).updates == m.lower_at(i).updates);
            assert(if !is_upper(branch) && i == lower_index_of(branch) {
                without_written(taken.lower_at(i), gone.lower_at(i), branch)
            } else {
                taken.lower_at(i).updates == gone.lower_at(i).updates
            });
        }
        assert forall|i: int| 0 <= i < v.lower.len() && (#[trigger] v.lower[i]) is Some implies m.lower[i] is Some by {
            assert(taken.lower[i] is Some);
            assert(gone.lower[i] is Some);
        }
    }
}

/// What a removal leaves of the notes, and of the changed keys.
pub proof fn lemma_removed_notes(
    t: TrieModel,
    full: Seq<u8>,
    reply: Result<Option<RevealedModel>, ErrorModel>,
)
    requires
        t.lower.len() == NUM_LOWER_SUBTRIES,
        t.removable(full),
        is_path(full),
    ensures
        ({
            let walk = t.walk(full, Seq::empty(), None, None);
            let removed = t.leaf_removed(full, reply);
            let r = removed.trie;
            &&& r.prefix.all == t.prefix.all
            &&& r.prefix.keys == if walk.end is Leaf {
                t.prefix.keys.insert(full)
            } else {
                t.prefix.keys
            }
            &&& t.asks(full) is None ==> same_mask_maps(t, r)
            &&& match walk.end {
                WalkEnd::Leaf { path, branch: Some(above), .. } => {
                    if path.len() > 0 && child_nibbles(walk.trie.mask_without(above, path)).len() == 1
                        && removed.result is Ok {
                        recorded_but(t, r, above)
                    } else {
                        same_recorded(t, r)
                    }
                },
                _ => same_recorded(t, r),
            }
        }),
{
    let root = Seq::<u8>::empty();
    let walk = t.walk(full, root, None, None);
    let w = walk.trie;
    let r = t.leaf_removed(full, reply).trie;
    lemma_prefix_pointwise(root, full);
    lemma_walk_notes(t, full, root, None, None);
    lemma_leaf_place(t, full);
    if let WalkEnd::Leaf { path, branch, ext } = walk.end {
        let u = w.unlinked(full, path);
        assert(t.has_node(path) == w.has_node(path));
        lemma_unlinked_notes(w, full, path);
        lemma_same_notes(t, w, u);
        if path.len() == 0 {
            lemma_put_notes(u, path, NodeModel::Empty);
            lemma_same_notes(t, u, r);
        } else {
            let b = branch->0;
            let mask = w.mask_without(b, path);
            lemma_unlinked(w, full, path, b);
            if child_nibbles(mask).len() == 1 {
                let child = TrieModel::only_child(b, mask);
                lemma_unlinked_child(w, full, path, b, ext, child);
                lemma_unlinked(w, full, path, child);
                let known = child_known(u, child, reply);
                assert(is_path(child)) by {
                    lemma_nibbles_below(mask, 16);
                    lemma_prefix_pointwise(b, full);
                }
                if u.node(child) is Hash {
                    if let Ok(Some(revealed)) = reply {
                        if let Ok(node) = decoded_node(revealed.node) {
                            lemma_reveal_notes(u, child, node, revealed.masks);
                            lemma_reveal_only(u, child, node, revealed.masks);
                        }
                    }
                }
                let v = known.trie;
                assert(same_recorded(u, v));
                lemma_same_recorded(t, u, v);
                if known.result is Ok {
                    let m = v.merged(b, child);
                    lemma_prefix_pointwise(child, b);
                    assert(v.has_node(b));
                    assert(v.has_node(child));
                    lemma_merged_notes(v, b, child);
                    lemma_joined_notes(m, ext, b);
                    if t.updates is None {
                        lemma_same_recorded(t, v, m);
                        lemma_same_recorded(t, m, r);
                    } else {
                        assert forall|i: int| 0 <= i < t.lower.len() implies if !is_upper(b) && i
                            == lower_index_of(b) {
                            without_written(#[trigger] t.lower_at(i), r.lower_at(i), b)
                        } else {
                            t.lower_at(i).updates == r.lower_at(i).updates
                        } by {
                            assert(t.lower_at(i).updates == v.lower_at(i).updates);
                            assert(m.lower_at(i).updates == r.lower_at(i).updates);
                            assert(if !is_upper(b) && i == lower_index_of(b) {
                                without_written(v.lower_at(i), m.lower_at(i), b)
                            } else {
                                v.lower_at(i).updates == m.lower_at(i).updates
                            });
                        }
                        assert forall|i: int| 0 <= i < t.lower.len() && (#[trigger] t.lower[i]) is Some implies r.lower[i] is Some by {
                            assert(v.lower[i] is Some);
                            assert(m.lower[i] is Some);
                        }
                    }
                    if t.asks(full) is None {
                        lemma_same_mask_maps(t, v, m);
                        lemma_same_mask_maps(t, m, r);
                    }
                }
            } else {
                let new = NodeModel::new_branch(mask);
                let put = u.put_node(b, new);
                lemma_put_notes(u, b, new);
                lemma_joined_notes(put, ext, b);
                lemma_same_notes(t, u, put);
                lemma_same_notes(t, put, r);
            }
        }
    }
}

/// The masks of a subtrie.
pub proof fn lemma_masks_at(a: TrieModel, b: TrieModel, q: Seq<u8>)
    requires
        same_mask_maps(a, b),
        a.lower.len() == NUM_LOWER_SUBTRIES,
        is_path(q),
    ensures
        same_masks(a.subtrie_at(q), b.subtrie_at(q)),
{
    if !is_upper(q) {
        assert(q[0] < 16 && q[1] < 16);
        assert(same_masks(a.lower_at(lower_index_of(q)), b.lower_at(lower_index_of(q))));
    }
}

/// A removal that reveals a blinded child leaves the masks before and after that.
pub proof fn lemma_removed_masks(
    t: TrieModel,
    full: Seq<u8>,
    reply: Result<Option<RevealedModel>, ErrorModel>,
)
    requires
        t.lower.len() == NUM_LOWER_SUBTRIES,
        t.removable(full),
        is_path(full),
        t.asks(full) is Some,
        t.leaf_removed(full, reply).result is Ok,
    ensures
        ({
            let walk = t.walk(full, Seq::empty(), None, None);
            let u = walk.trie.unlinked(full, walk.end->Leaf_path);
            let v = child_known(u, t.asks(full)->0, reply).trie;
            &&& same_mask_maps(t, u)
            &&& same_mask_maps(v, t.leaf_removed(full, reply).trie)
            &&& v.lower.len() == t.lower.len()
        }),
{
    let root = Seq::<u8>::empty();
    let walk = t.walk(full, root, None, None);
    let w = walk.trie;
    let r = t.leaf_removed(full, reply).trie;
    lemma_prefix_pointwise(root, full);
    lemma_walk_notes(t, full, root, None, None);
    lemma_leaf_place(t, full);
    if let WalkEnd::Leaf { path, branch: Some(b), ext } = walk.end {
        let u = w.unlinked(full, path);
        let mask = w.mask_without(b, path);
        let child = TrieModel::only_child(b, mask);
        assert(t.has_node(path) == w.has_node(path));
        lemma_unlinked_notes(w, full, path);
        lemma_same_notes(t, w, u);
        lemma_unlinked(w, full, path, b);
        lemma_unlinked_child(w, full, path, b, ext, child);
        lemma_unlinked(w, full, path, child);
        let v = child_known(u, child, reply).trie;
        assert(is_path(child)) by {
            lemma_nibbles_below(mask, 16);
            lemma_prefix_pointwise(b, full);
        }
        let node = decoded_node(reply->Ok_0->0.node)->Ok_0;
        lemma_reveal_notes(u, child, node, reply->Ok_0->0.masks);
        lemma_reveal_only(u, child, node, reply->Ok_0->0.masks);
        lemma_prefix_pointwise(child, b);
        assert(v.has_node(b));
        assert(v.has_node(child));
        let m = v.merged(b, child);
        lemma_merged_notes(v, b, child);
        lemma_joined_notes(m, ext, b);
        lemma_same_mask_maps(v, m, r);
    }
}

}
