//! What revealing a node changes in a trie.

use crate::lookup::same_value;
use crate::lower::{
    all_low, lemma_all_lower, lemma_children_after, lemma_kids_low, low_below, LowerChild,
};
use crate::model::{child_nibbles, MasksModel, TrieNodeModel};
use crate::order::{lemma_prefix_pointwise, lemma_prefix_transitive};
use crate::outside::{decoded_node, MAX_PATH_LEN};
use crate::path::{is_path, is_upper, lower_index_of, NUM_LOWER_SUBTRIES};
use crate::revealing::{
    child_bound, grown, lemma_child_below, lemma_child_bound, lemma_child_grows,
    lemma_child_off, lemma_reveal_below, lemma_reveal_grows, lemma_revealed_node, lemma_widest,
    same_elsewhere, same_level, widest, Revealed,
};
use crate::soundness::{lemma_child_there, lemma_kids_keep, trie_grown};
use crate::subtrie::SubtrieModel;
use crate::trie::{settled, TrieModel};
use vstd::prelude::*;

verus! {

/// Whether a trie has all that another one has, and is the same but for what lies below a path.
pub open spec fn only_below(t: TrieModel, r: TrieModel, path: Seq<u8>) -> bool {
    &&& r.lower.len() == t.lower.len()
    &&& forall|i: int| 0 <= i < t.lower.len() && (#[trigger] t.lower[i]) is Some ==> r.lower[i] is Some
    &&& trie_grown(t, r)
    &&& forall|p: Seq<u8>|
        !path.is_prefix_of(p) ==> #[trigger] r.has_node(p) == t.has_node(p) && (t.has_node(p)
            ==> r.node(p) == t.node(p))
    &&& forall|x: Seq<u8>| !path.is_prefix_of(x) ==> #[trigger] same_value(t, r, x)
}

/// What is the same but below a path twice over is the same but below it.
proof fn lemma_only_transitive(a: TrieModel, b: TrieModel, c: TrieModel, path: Seq<u8>)
    requires
        only_below(a, b, path),
        only_below(b, c, path),
    ensures
        only_below(a, c, path),
{
    assert forall|q: Seq<u8>| #[trigger] a.has_node(q) implies c.has_node(q) && (a.node(q) !is Hash
        ==> c.node(q) == a.node(q)) by {
        assert(b.has_node(q));
    }
    assert forall|i: int| 0 <= i < a.lower.len() && (#[trigger] a.lower[i]) is Some implies c.lower[i] is Some by {
        assert(b.lower[i] is Some);
    }
    assert forall|p: Seq<u8>| !path.is_prefix_of(p) implies #[trigger] c.has_node(p) == a.has_node(p)
        && (a.has_node(p) ==> c.node(p) == a.node(p)) by {
        assert(b.has_node(p) == a.has_node(p));
    }
    assert forall|x: Seq<u8>| !path.is_prefix_of(x) implies #[trigger] same_value(a, c, x) by {
        assert(same_value(a, b, x));
        assert(same_value(b, c, x));
        assert forall|p: Seq<u8>|
            is_upper(p) || (0 <= lower_index_of(p) < a.lower.len() && a.lower[lower_index_of(
                p,
            )] is Some) implies #[trigger] a.value_at(p, x) == c.value_at(p, x) by {
            assert(a.value_at(p, x) == b.value_at(p, x));
            assert(b.value_at(p, x) == c.value_at(p, x));
        }
    }
}

/// Revealing in the subtrie of one path changes nothing but what lies below it.
pub proof fn lemma_step_only(t: TrieModel, path: Seq<u8>, at: Seq<u8>, revealed: Revealed)
    requires
        path.is_prefix_of(at),
        t.has_place(at),
        grown(t.subtrie_at(at), revealed.subtrie),
        same_elsewhere(t.subtrie_at(at), revealed.subtrie, at),
    ensures
        only_below(t, t.after(at, revealed).trie, path),
{
    let before = t.subtrie_at(at);
    let s = settled(at, revealed);
    let r = t.after(at, revealed).trie;
    assert forall|p: Seq<u8>| !path.is_prefix_of(p) implies !at.is_prefix_of(p) by {
        if at.is_prefix_of(p) {
            lemma_prefix_transitive(path, at, p);
        }
    }
    assert forall|q: Seq<u8>| #[trigger] t.has_node(q) implies r.has_node(q) && (t.node(q) !is Hash
        ==> r.node(q) == t.node(q)) by {
        if before.nodes.contains_key(q) {
            assert(revealed.subtrie.nodes.contains_key(q));
        }
    }
    assert forall|p: Seq<u8>| !path.is_prefix_of(p) implies #[trigger] r.has_node(p) == t.has_node(p)
        && (t.has_node(p) ==> r.node(p) == t.node(p)) by {
        assert(before.nodes.contains_key(p) == s.nodes.contains_key(p));
    }
    assert forall|x: Seq<u8>| !path.is_prefix_of(x) implies #[trigger] same_value(t, r, x) by {
        assert(before.src.values.contains_key(x) == s.src.values.contains_key(x));
        assert forall|p: Seq<u8>|
            is_upper(p) || (0 <= lower_index_of(p) < t.lower.len() && t.lower[lower_index_of(
                p,
            )] is Some) implies #[trigger] t.value_at(p, x) == r.value_at(p, x) by {}
    }
}

/// Revealing children in lower subtries changes nothing but what lies below a path that they are all
/// below.
pub proof fn lemma_children_only(t: TrieModel, path: Seq<u8>, kids: Seq<LowerChild>)
    requires
        t.lower.len() == NUM_LOWER_SUBTRIES,
        all_low(path, kids),
    ensures
        only_below(t, t.with_children(kids).trie, path),
    decreases kids.len(),
{
    if kids.len() > 0 {
        let kid = kids[0].path;
        let child = kids[0].rlp;
        let s = t.subtrie_at(kid);
        let next = t.with_child(kids[0]);
        let rest = kids.skip(1);
        assert(low_below(path, kids[0]));
        assert(kid[0] < 16 && kid[1] < 16);
        lemma_child_grows(s, kid, child);
        lemma_child_below(s, kid, child);
        lemma_step_only(t, path, kid, s.reveal_child(kid, child));
        if next.result is Ok {
            assert forall|i: int| 0 <= i < rest.len() implies low_below(path, #[trigger] rest[i]) by {
                assert(rest[i] == kids[i + 1]);
                assert(low_below(path, kids[i + 1]));
            }
            lemma_children_only(next.trie, path, rest);
            lemma_only_transitive(t, next.trie, next.trie.with_children(rest).trie, path);
        }
    }
}

/// Revealing a node that has not been revealed changes nothing but what lies below it. If it succeeds,
/// that is so of revealing the node in its own subtrie, and then of revealing children in others.
pub proof fn lemma_reveal_only(
    t: TrieModel,
    path: Seq<u8>,
    node: TrieNodeModel,
    masks: MasksModel,
)
    requires
        t.lower.len() == NUM_LOWER_SUBTRIES,
        is_path(path),
        t.has_node(path) ==> t.node(path) is Hash,
    ensures
        ({
            let own = t.after(path, t.subtrie_at(path).with_revealed(path, node, masks));
            let after = t.with_revealed(path, node, masks);
            &&& only_below(t, own.trie, path)
            &&& only_below(t, after.trie, path)
            &&& after.result is Ok ==> own.result is Ok && only_below(own.trie, after.trie, path)
        }),
{
    let s = t.subtrie_at(path);
    let revealed = s.with_revealed(path, node, masks);
    let own = t.after(path, revealed);
    let after = t.with_revealed(path, node, masks);
    lemma_prefix_pointwise(path, path);
    lemma_reveal_grows(s, path, node, masks);
    lemma_reveal_below(s, path, node, masks);
    lemma_step_only(t, path, path, revealed);
    assert(only_below(own.trie, own.trie, path));
    if is_upper(path) {
        let kids = t.lower_kids(path, node);
        let below = t.with_children(kids);
        lemma_kids_low(t, path, node);
        lemma_all_lower(t, path, kids);
        lemma_children_after(t, path, node, masks);
        lemma_children_only(t, path, kids);
        lemma_children_only(own.trie, path, kids);
        if below.result is Ok {
            lemma_step_only(below.trie, path, path, revealed);
            lemma_only_transitive(t, below.trie, after.trie, path);
        }
    }
}

/// The path of the child of an extension is made of nibbles.
pub proof fn lemma_kid_path(path: Seq<u8>, key: Seq<u8>)
    requires
        is_path(path),
        forall|i: int| 0 <= i < key.len() ==> (#[trigger] key[i]) < 16,
        path.len() + key.len() <= MAX_PATH_LEN,
    ensures
        is_path(path + key),
        path.len() + key.len() >= 2 ==> (path + key)[0] < 16 && (path + key)[1] < 16,
{
    let kid = path + key;
    assert forall|i: int| 0 <= i < kid.len() implies (#[trigger] kid[i]) < 16 by {
        if i < path.len() {
            assert(kid[i] == path[i]);
        } else {
            assert(kid[i] == key[i - path.len()]);
        }
    }
}

impl TrieModel {
    /// Each lower subtrie has a node at its own path.
    pub open spec fn has_roots(self) -> bool {
        forall|i: int|
            0 <= i < self.lower.len() && (#[trigger] self.lower[i]) is Some
                ==> self.lower[i]->0.nodes.contains_key(self.lower[i]->0.path)
    }
}

/// Revealing in the subtrie of one path leaves each lower subtrie with a node at its own path.
proof fn lemma_step_roots(t: TrieModel, at: Seq<u8>, revealed: Revealed)
    requires
        t.has_roots(),
        t.has_place(at),
        grown(t.subtrie_at(at), revealed.subtrie),
        revealed.subtrie.path == t.subtrie_at(at).path,
        revealed.result is Ok,
        revealed.subtrie.nodes.contains_key(at),
    ensures
        t.after(at, revealed).trie.has_roots(),
{
    let r = t.after(at, revealed).trie;
    assert forall|i: int| 0 <= i < r.lower.len() && (#[trigger] r.lower[i]) is Some implies r.lower[i]->0.nodes.contains_key(
    r.lower[i]->0.path) by {
        if is_upper(at) || i != lower_index_of(at) {
            assert(r.lower[i] == t.lower[i]);
        }
    }
}

/// Revealing children in lower subtries leaves each lower subtrie with a node at its own path.
proof fn lemma_children_roots(t: TrieModel, path: Seq<u8>, kids: Seq<LowerChild>)
    requires
        t.has_roots(),
        t.lower.len() == NUM_LOWER_SUBTRIES,
        all_low(path, kids),
        t.with_children(kids).result is Ok,
    ensures
        t.with_children(kids).trie.has_roots(),
    decreases kids.len(),
{
    if kids.len() > 0 {
        let kid = kids[0].path;
        let child = kids[0].rlp;
        let s = t.subtrie_at(kid);
        let rest = kids.skip(1);
        assert(low_below(path, kids[0]));
        assert(kid[0] < 16 && kid[1] < 16);
        lemma_child_grows(s, kid, child);
        lemma_child_there(s, kid, child);
        lemma_step_roots(t, kid, s.reveal_child(kid, child));
        assert forall|i: int| 0 <= i < rest.len() implies low_below(path, #[trigger] rest[i]) by {
            assert(rest[i] == kids[i + 1]);
            assert(low_below(path, kids[i + 1]));
        }
        lemma_children_roots(t.with_child(kids[0]).trie, path, rest);
    }
}

/// If revealing a node succeeds, it leaves each lower subtrie with a node at its own path.
pub proof fn lemma_reveal_roots(
    t: TrieModel,
    path: Seq<u8>,
    node: TrieNodeModel,
    masks: MasksModel,
)
    requires
        t.lower.len() == NUM_LOWER_SUBTRIES,
        is_path(path),
        t.has_roots(),
        t.with_revealed(path, node, masks).result is Ok,
    ensures
        t.with_revealed(path, node, masks).trie.has_roots(),
{
    if !t.is_revealed(path) {
        let s = t.subtrie_at(path);
        let own = t.after(path, s.with_revealed(path, node, masks));
        lemma_reveal_only(t, path, node, masks);
        lemma_reveal_grows(s, path, node, masks);
        lemma_revealed_node(s, path, node, masks);
        lemma_step_roots(t, path, s.with_revealed(path, node, masks));
        if is_upper(path) {
            lemma_kids_low(t, path, node);
            lemma_children_after(t, path, node, masks);
            lemma_children_roots(own.trie, path, t.lower_kids(path, node));
        }
    }
}

/// Whether two subtries have the same masks.
pub open spec fn same_masks(a: SubtrieModel, b: SubtrieModel) -> bool {
    a.src.tree_masks == b.src.tree_masks && a.src.hash_masks == b.src.hash_masks
}

/// Revealing a node notes no masks if it fails, or if there are none to note.
pub proof fn lemma_node_masks(s: SubtrieModel, path: Seq<u8>, node: TrieNodeModel, masks: MasksModel)
    requires
        masks == MasksModel::none() || s.with_revealed(path, node, masks).result is Err,
    ensures
        same_masks(s, s.with_revealed(path, node, masks).subtrie),
    decreases child_bound(node), 2int, 0int,
{
    if !(s.nodes.contains_key(path) && !(s.nodes[path] is Hash)) {
        match node {
            TrieNodeModel::Branch { stack, mask } => {
                lemma_kids_masks(s, path, stack, child_nibbles(mask), 0);
            },
            TrieNodeModel::Extension { key, child } => {
                lemma_child_masks(s, path + key, child);
            },
            _ => {},
        }
    }
}

/// Revealing the children of a branch notes no masks.
pub proof fn lemma_kids_masks(
    s: SubtrieModel,
    path: Seq<u8>,
    stack: Seq<Seq<u8>>,
    nibbles: Seq<u8>,
    from: int,
)
    ensures
        same_masks(s, s.reveal_kids(path, stack, nibbles, from).subtrie),
    decreases widest(stack), 1int, nibbles.len() - from,
{
    let place = stack.len() - nibbles.len() + from;
    if !(from >= nibbles.len() || !(0 <= place < stack.len())) {
        let kid = path.push(nibbles[from]);
        let next = if same_level(path, kid) {
            lemma_widest(stack, place);
            lemma_child_masks(s, kid, stack[place]);
            s.reveal_child(kid, stack[place])
        } else {
            s.ok()
        };
        if next.result is Ok {
            lemma_kids_masks(next.subtrie, path, stack, nibbles, from + 1);
        }
    }
}

/// Revealing a child notes no masks.
pub proof fn lemma_child_masks(s: SubtrieModel, path: Seq<u8>, child: Seq<u8>)
    ensures
        same_masks(s, s.reveal_child(path, child).subtrie),
    decreases child.len(), 3int, 0int,
{
    if child.len() != 33 {
        if let Ok(node) = decoded_node(child) {
            if node.children_below(child.len()) {
                lemma_child_bound(node, child.len());
                lemma_node_masks(s, path, node, MasksModel::none());
            }
        }
    }
}

/// A node whose children cannot all be revealed is not revealed in its subtrie.
pub proof fn lemma_refused_node(
    s: SubtrieModel,
    path: Seq<u8>,
    node: TrieNodeModel,
    masks: MasksModel,
)
    requires
        s.with_revealed(path, node, masks).result is Err,
    ensures
        ({
            let after = s.with_revealed(path, node, masks).subtrie;
            &&& after.nodes.contains_key(path) == s.nodes.contains_key(path)
            &&& s.nodes.contains_key(path) ==> after.nodes[path] == s.nodes[path]
        }),
{
    match node {
        TrieNodeModel::Branch { stack, mask } => {
            lemma_kids_keep(s, path, stack, child_nibbles(mask), 0, path);
        },
        TrieNodeModel::Extension { key, child } => {
            if key.len() > 0 {
                lemma_child_off(s, path, key, child);
            }
        },
        _ => {},
    }
}

/// If revealing a node fails, it is not revealed: what is at its path is what was there, and no masks
/// are noted.
pub proof fn lemma_not_revealed(
    t: TrieModel,
    path: Seq<u8>,
    node: TrieNodeModel,
    masks: MasksModel,
)
    requires
        t.lower.len() == NUM_LOWER_SUBTRIES,
        is_path(path),
        t.with_revealed(path, node, masks).result is Err,
    ensures
        t.with_revealed(path, node, masks).trie.has_node(path) == t.has_node(path),
        t.has_node(path) ==> t.with_revealed(path, node, masks).trie.node(path) == t.node(path),
        same_masks(t.subtrie_at(path), t.with_revealed(path, node, masks).trie.subtrie_at(path)),
{
    let s = t.subtrie_at(path);
    if is_upper(path) {
        let kids = t.lower_kids(path, node);
        lemma_kids_low(t, path, node);
        lemma_all_lower(t, path, kids);
    } else {
        assert(path[0] < 16 && path[1] < 16);
    }
    if s.with_revealed(path, node, masks).result is Err {
        lemma_refused_node(s, path, node, masks);
        lemma_node_masks(s, path, node, masks);
    }
}

/// A node that was revealed is there, and not blinded.
pub proof fn lemma_then_revealed(
    t: TrieModel,
    path: Seq<u8>,
    node: TrieNodeModel,
    masks: MasksModel,
)
    requires
        t.lower.len() == NUM_LOWER_SUBTRIES,
        is_path(path),
        t.with_revealed(path, node, masks).result is Ok,
    ensures
        t.with_revealed(path, node, masks).trie.has_node(path),
        t.with_revealed(path, node, masks).trie.node(path) !is Hash,
{
    if !t.is_revealed(path) {
        lemma_reveal_only(t, path, node, masks);
        lemma_revealed_node(t.subtrie_at(path), path, node, masks);
        let own = t.after(path, t.subtrie_at(path).with_revealed(path, node, masks)).trie;
        assert(own.has_node(path));
    }
}

}
