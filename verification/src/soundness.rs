//! What every operation keeps: each leaf has its value and each value its leaf, and each node hangs
//! below another one.

use crate::hash_run::lemma_kid_paths;
use crate::hashing::kid_paths;
use crate::lower::{
    all_low, lemma_children_after, lemma_kids_low, lemma_lower_hang, low_below, shown_in,
    LowerChild,
};
use crate::merkle::alike;
use crate::model::{child_nibbles, MasksModel, NodeModel, TrieNodeModel};
use crate::order::{lemma_prefix_pointwise, lemma_prefix_transitive};
use crate::outside::{decoded_node, MAX_PATH_LEN};
use crate::path::{is_path, is_upper, lower_index_of, lower_path, NUM_LOWER_SUBTRIES};
use crate::revealing::{
    child_bound, grown, lemma_child_below, lemma_child_bound, lemma_child_grows,
    lemma_child_off, lemma_kids_grow, lemma_reveal_below, lemma_reveal_grows,
    lemma_revealed_node, lemma_widest, same_elsewhere, same_level, widest, Revealed,
};
use crate::root::lemma_owns_below;
use crate::subtrie::SubtrieModel;
use crate::trie::{settled, TrieModel};
use vstd::prelude::*;

verus! {

impl SubtrieModel {
    /// If there are nodes, one is at the path of the subtrie, and all others are below it.
    pub open spec fn anchored(self) -> bool {
        forall|q: Seq<u8>| #[trigger]
            self.nodes.contains_key(q) ==> self.nodes.contains_key(self.path)
                && self.path.is_prefix_of(q)
    }

    /// Whether there is a leaf with a full path.
    pub open spec fn has_leaf(self, full: Seq<u8>) -> bool {
        exists|p: Seq<u8>| #[trigger]
            self.nodes.contains_key(p) && (self.nodes[p] matches NodeModel::Leaf { key, .. } && p + key
                == full)
    }

    /// Each leaf has a value.
    pub open spec fn leaves_valued(self) -> bool {
        forall|p: Seq<u8>| #[trigger]
            self.nodes.contains_key(p) ==> (self.nodes[p] matches NodeModel::Leaf { key, .. }
                ==> self.src.values.contains_key(p + key))
    }

    /// Each leaf has a value, and all values are those of leaves.
    pub open spec fn valued(self) -> bool {
        &&& self.leaves_valued()
        &&& forall|full: Seq<u8>| #[trigger]
            self.src.values.contains_key(full) ==> self.has_leaf(full)
    }
}

/// Setting a node that is no leaf, where there was no leaf, keeps leaves and values together.
pub proof fn lemma_put_valued(s: SubtrieModel, path: Seq<u8>, node: NodeModel)
    requires
        s.valued(),
        s.nodes.contains_key(path) ==> s.nodes[path] !is Leaf,
        node !is Leaf,
    ensures
        s.put(path, node).valued(),
{
    let after = s.put(path, node);
    assert forall|full: Seq<u8>| #[trigger] after.src.values.contains_key(full) implies after.has_leaf(
        full,
    ) by {
        assert(s.src.values.contains_key(full));
        let p = choose|p: Seq<u8>| #[trigger]
            s.nodes.contains_key(p) && (s.nodes[p] matches NodeModel::Leaf { key, .. } && p + key
                == full);
        assert(after.nodes.contains_key(p));
    }
}

/// Setting a leaf with its value, where there was no leaf, keeps leaves and values together.
pub proof fn lemma_put_leaf_valued(
    s: SubtrieModel,
    path: Seq<u8>,
    key: Seq<u8>,
    hash: Option<Seq<u8>>,
    value: Seq<u8>,
)
    requires
        s.valued(),
        s.nodes.contains_key(path) ==> s.nodes[path] !is Leaf,
    ensures
        s.put(path, NodeModel::Leaf { key, hash }).put_value(path + key, value).valued(),
{
    let after = s.put(path, NodeModel::Leaf { key, hash }).put_value(path + key, value);
    assert forall|full: Seq<u8>| #[trigger] after.src.values.contains_key(full) implies after.has_leaf(
        full,
    ) by {
        if full == path + key {
            assert(after.nodes.contains_key(path));
        } else {
            assert(s.src.values.contains_key(full));
            let p = choose|p: Seq<u8>| #[trigger]
                s.nodes.contains_key(p) && (s.nodes[p] matches NodeModel::Leaf { key, .. } && p
                    + key == full);
            assert(after.nodes.contains_key(p));
        }
    }
}

/// Revealing a node, whether it succeeds or fails, keeps leaves and values together.
pub proof fn lemma_reveal_valued(
    s: SubtrieModel,
    path: Seq<u8>,
    node: TrieNodeModel,
    masks: MasksModel,
)
    requires
        s.valued(),
    ensures
        s.with_revealed(path, node, masks).subtrie.valued(),
    decreases child_bound(node), 2int, 0int,
{
    if !(s.nodes.contains_key(path) && !(s.nodes[path] is Hash)) {
        let hash = s.blinded(path);
        match node {
            TrieNodeModel::EmptyRoot => {
                lemma_put_valued(s, path, NodeModel::Empty);
            },
            TrieNodeModel::Branch { stack, mask } => {
                if !(path.len() >= MAX_PATH_LEN && child_nibbles(mask).len() > 0) {
                    let nibbles = child_nibbles(mask);
                    lemma_kids_valued(s, path, stack, nibbles, 0);
                    let kids = s.reveal_kids(path, stack, nibbles, 0);
                    lemma_kids_keep(s, path, stack, nibbles, 0, path);
                    if kids.result is Ok {
                        let store = if hash is Some {
                            Some(masks.nonempty())
                        } else {
                            None
                        };
                        lemma_put_valued(kids.subtrie, path, NodeModel::Branch { mask, hash, store });
                    }
                }
            },
            TrieNodeModel::Extension { key, child } => {
                if path.len() + key.len() <= MAX_PATH_LEN {
                    let new = NodeModel::Extension { key, hash, store: None };
                    if key.len() > 0 && same_level(path, path + key) {
                        lemma_child_valued(s, path + key, child);
                        lemma_child_off(s, path, key, child);
                        lemma_put_valued(
                            s.reveal_child(path + key, child).subtrie,
                            path,
                            new,
                        );
                    } else {
                        lemma_put_valued(s, path, new);
                    }
                }
            },
            TrieNodeModel::Leaf { key, value } => {
                lemma_put_leaf_valued(s, path, key, hash, value);
            },
        }
    }
}

/// Revealing the children of a branch keeps leaves and values together.
proof fn lemma_kids_valued(
    s: SubtrieModel,
    path: Seq<u8>,
    stack: Seq<Seq<u8>>,
    nibbles: Seq<u8>,
    from: int,
)
    requires
        s.valued(),
    ensures
        s.reveal_kids(path, stack, nibbles, from).subtrie.valued(),
    decreases widest(stack), 1int, nibbles.len() - from,
{
    let place = stack.len() - nibbles.len() + from;
    if !(from >= nibbles.len() || !(0 <= place < stack.len())) {
        let kid = path.push(nibbles[from]);
        let next = if same_level(path, kid) {
            lemma_widest(stack, place);
            lemma_child_valued(s, kid, stack[place]);
            s.reveal_child(kid, stack[place])
        } else {
            s.ok()
        };
        if next.result is Ok {
            lemma_kids_valued(next.subtrie, path, stack, nibbles, from + 1);
        }
    }
}

/// Revealing a child, whether it succeeds or fails, keeps leaves and values together.
pub proof fn lemma_child_valued(s: SubtrieModel, path: Seq<u8>, child: Seq<u8>)
    requires
        s.valued(),
    ensures
        s.reveal_child(path, child).subtrie.valued(),
    decreases child.len(), 3int, 0int,
{
    if child.len() == 33 {
        if !s.nodes.contains_key(path) {
            lemma_put_valued(s, path, NodeModel::Hash(child.skip(1)));
        }
    } else {
        match decoded_node(child) {
            Ok(node) => {
                if node.children_below(child.len()) {
                    lemma_child_bound(node, child.len());
                    lemma_reveal_valued(s, path, node, MasksModel::none());
                }
            },
            Err(_) => {},
        }
    }
}

/// Revealing the children of a branch leaves all nodes that are not below a child as they are.
pub proof fn lemma_kids_keep(
    s: SubtrieModel,
    path: Seq<u8>,
    stack: Seq<Seq<u8>>,
    nibbles: Seq<u8>,
    from: int,
    q: Seq<u8>,
)
    requires
        q.len() <= path.len(),
    ensures
        s.reveal_kids(path, stack, nibbles, from).subtrie.nodes.contains_key(q)
            == s.nodes.contains_key(q),
        s.nodes.contains_key(q) ==> s.reveal_kids(path, stack, nibbles, from).subtrie.nodes[q]
            == s.nodes[q],
    decreases nibbles.len() - from,
{
    let place = stack.len() - nibbles.len() + from;
    if !(from >= nibbles.len() || !(0 <= place < stack.len())) {
        let kid = path.push(nibbles[from]);
        lemma_prefix_pointwise(kid, q);
        let next = if same_level(path, kid) {
            lemma_child_below(s, kid, stack[place]);
            s.reveal_child(kid, stack[place])
        } else {
            s.ok()
        };
        assert(s.nodes.contains_key(q) == next.subtrie.nodes.contains_key(q));
        if next.result is Ok {
            lemma_kids_keep(next.subtrie, path, stack, nibbles, from + 1, q);
        }
    }
}

/// Whether each leaf of a subtrie was there before, or has a value.
spec fn new_leaves(before: SubtrieModel, after: SubtrieModel) -> bool {
    forall|q: Seq<u8>| #[trigger]
        after.nodes.contains_key(q) ==> (before.nodes.contains_key(q) && before.nodes[q]
            == after.nodes[q]) || (after.nodes[q] matches NodeModel::Leaf { key, .. }
            ==> after.src.values.contains_key(q + key))
}

/// That new leaves have their values is transitive.
proof fn lemma_new_leaves(a: SubtrieModel, b: SubtrieModel, c: SubtrieModel)
    requires
        new_leaves(a, b),
        new_leaves(b, c),
        grown(b, c),
    ensures
        new_leaves(a, c),
{
    assert forall|q: Seq<u8>| #[trigger] c.nodes.contains_key(q) implies (a.nodes.contains_key(q)
        && a.nodes[q] == c.nodes[q]) || (c.nodes[q] matches NodeModel::Leaf { key, .. }
        ==> c.src.values.contains_key(q + key)) by {
        if b.nodes.contains_key(q) && b.nodes[q] == c.nodes[q] {
            if let NodeModel::Leaf { key, .. } = c.nodes[q] {
                if b.src.values.contains_key(q + key) {
                    assert(c.src.values.contains_key(q + key));
                }
            }
        }
    }
}

/// If new leaves have their values, and no value is taken away, each leaf has its value if that was
/// so.
proof fn lemma_leaves_valued(before: SubtrieModel, after: SubtrieModel)
    requires
        new_leaves(before, after),
        grown(before, after),
    ensures
        before.leaves_valued() ==> after.leaves_valued(),
{
    if before.leaves_valued() {
        assert forall|p: Seq<u8>| #[trigger] after.nodes.contains_key(p) implies (
        after.nodes[p] matches NodeModel::Leaf { key, .. } ==> after.src.values.contains_key(
            p + key,
        )) by {
            if let NodeModel::Leaf { key, .. } = after.nodes[p] {
                if before.nodes.contains_key(p) && before.nodes[p] == after.nodes[p] {
                    assert(before.src.values.contains_key(p + key));
                }
            }
        }
    }
}

/// Revealing a node, whether it succeeds or fails, gives new leaves their values.
proof fn lemma_reveal_leaves(s: SubtrieModel, path: Seq<u8>, node: TrieNodeModel, masks: MasksModel)
    ensures
        new_leaves(s, s.with_revealed(path, node, masks).subtrie),
    decreases child_bound(node), 2int, 0int,
{
    if !(s.nodes.contains_key(path) && !(s.nodes[path] is Hash)) {
        match node {
            TrieNodeModel::Branch { stack, mask } => {
                if !(path.len() >= MAX_PATH_LEN && child_nibbles(mask).len() > 0) {
                    lemma_kids_leaves(s, path, stack, child_nibbles(mask), 0);
                    let kids = s.reveal_kids(path, stack, child_nibbles(mask), 0);
                    let after = s.with_revealed(path, node, masks).subtrie;
                    assert forall|q: Seq<u8>| #[trigger] after.nodes.contains_key(q) implies (
                    s.nodes.contains_key(q) && s.nodes[q] == after.nodes[q]) || (
                    after.nodes[q] matches NodeModel::Leaf { key, .. }
                        ==> after.src.values.contains_key(q + key)) by {
                        if kids.result is Err || q != path {
                            assert(kids.subtrie.nodes.contains_key(q));
                        }
                    }
                }
            },
            TrieNodeModel::Extension { key, child } => {
                if path.len() + key.len() <= MAX_PATH_LEN && key.len() > 0 && same_level(
                    path,
                    path + key,
                ) {
                    lemma_child_leaves(s, path + key, child);
                    let below = s.reveal_child(path + key, child);
                    let after = s.with_revealed(path, node, masks).subtrie;
                    assert forall|q: Seq<u8>| #[trigger] after.nodes.contains_key(q) implies (
                    s.nodes.contains_key(q) && s.nodes[q] == after.nodes[q]) || (
                    after.nodes[q] matches NodeModel::Leaf { key, .. }
                        ==> after.src.values.contains_key(q + key)) by {
                        if below.result is Err || q != path {
                            assert(below.subtrie.nodes.contains_key(q));
                        }
                    }
                }
            },
            _ => {},
        }
    }
}

/// Revealing the children of a branch gives new leaves their values.
proof fn lemma_kids_leaves(
    s: SubtrieModel,
    path: Seq<u8>,
    stack: Seq<Seq<u8>>,
    nibbles: Seq<u8>,
    from: int,
)
    ensures
        new_leaves(s, s.reveal_kids(path, stack, nibbles, from).subtrie),
    decreases widest(stack), 1int, nibbles.len() - from,
{
    let place = stack.len() - nibbles.len() + from;
    if !(from >= nibbles.len() || !(0 <= place < stack.len())) {
        let kid = path.push(nibbles[from]);
        let next = if same_level(path, kid) {
            lemma_widest(stack, place);
            lemma_child_leaves(s, kid, stack[place]);
            s.reveal_child(kid, stack[place])
        } else {
            s.ok()
        };
        if next.result is Ok {
            lemma_kids_leaves(next.subtrie, path, stack, nibbles, from + 1);
            lemma_kids_grow(next.subtrie, path, stack, nibbles, from + 1);
            lemma_new_leaves(
                s,
                next.subtrie,
                next.subtrie.reveal_kids(path, stack, nibbles, from + 1).subtrie,
            );
        }
    }
}

/// Revealing a child gives new leaves their values.
proof fn lemma_child_leaves(s: SubtrieModel, path: Seq<u8>, child: Seq<u8>)
    ensures
        new_leaves(s, s.reveal_child(path, child).subtrie),
    decreases child.len(), 3int, 0int,
{
    if child.len() != 33 {
        match decoded_node(child) {
            Ok(node) => {
                if node.children_below(child.len()) {
                    lemma_child_bound(node, child.len());
                    lemma_reveal_leaves(s, path, node, MasksModel::none());
                }
            },
            Err(_) => {},
        }
    }
}

// Where new nodes stand.

/// Whether what is new in a subtrie is at the level of a path.
pub open spec fn new_at_level(before: SubtrieModel, after: SubtrieModel, path: Seq<u8>) -> bool {
    forall|q: Seq<u8>| #[trigger]
        after.nodes.contains_key(q) ==> before.nodes.contains_key(q) || same_level(path, q)
}

/// Revealing a node adds nodes at the level of its path only.
pub proof fn lemma_reveal_level(
    s: SubtrieModel,
    path: Seq<u8>,
    node: TrieNodeModel,
    masks: MasksModel,
)
    ensures
        new_at_level(s, s.with_revealed(path, node, masks).subtrie, path),
    decreases child_bound(node), 2int, 0int,
{
    if !(s.nodes.contains_key(path) && !(s.nodes[path] is Hash)) {
        match node {
            TrieNodeModel::Branch { stack, mask } => {
                if !(path.len() >= MAX_PATH_LEN && child_nibbles(mask).len() > 0) {
                    lemma_kids_level(s, path, stack, child_nibbles(mask), 0);
                }
            },
            TrieNodeModel::Extension { key, child } => {
                if path.len() + key.len() <= MAX_PATH_LEN && same_level(path, path + key) {
                    lemma_child_level(s, path + key, child);
                }
            },
            _ => {},
        }
    }
}

/// Revealing the children of a branch adds nodes at the level of the branch only.
proof fn lemma_kids_level(
    s: SubtrieModel,
    path: Seq<u8>,
    stack: Seq<Seq<u8>>,
    nibbles: Seq<u8>,
    from: int,
)
    ensures
        new_at_level(s, s.reveal_kids(path, stack, nibbles, from).subtrie, path),
    decreases widest(stack), 1int, nibbles.len() - from,
{
    let place = stack.len() - nibbles.len() + from;
    if !(from >= nibbles.len() || !(0 <= place < stack.len())) {
        let kid = path.push(nibbles[from]);
        let next = if same_level(path, kid) {
            lemma_widest(stack, place);
            lemma_child_level(s, kid, stack[place]);
            s.reveal_child(kid, stack[place])
        } else {
            s.ok()
        };
        if next.result is Ok {
            lemma_kids_level(next.subtrie, path, stack, nibbles, from + 1);
        }
    }
}

/// Revealing a child adds nodes at the level of its path only.
pub proof fn lemma_child_level(s: SubtrieModel, path: Seq<u8>, child: Seq<u8>)
    ensures
        new_at_level(s, s.reveal_child(path, child).subtrie, path),
    decreases child.len(), 3int, 0int,
{
    if child.len() != 33 {
        match decoded_node(child) {
            Ok(node) => {
                if node.children_below(child.len()) {
                    lemma_child_bound(node, child.len());
                    lemma_reveal_level(s, path, node, MasksModel::none());
                }
            },
            Err(_) => {},
        }
    }
}

/// Whether there is a node of which a path is a child.
pub open spec fn hangs(nodes: Map<Seq<u8>, NodeModel>, q: Seq<u8>) -> bool {
    exists|a: Seq<u8>| #[trigger]
        nodes.contains_key(a) && a.len() < q.len() && kid_paths(a, nodes[a]).contains(q)
}

/// What hangs below a node still does after more was revealed.
pub proof fn lemma_hangs_grown(a: SubtrieModel, b: SubtrieModel, q: Seq<u8>)
    requires
        grown(a, b),
        hangs(a.nodes, q),
    ensures
        hangs(b.nodes, q),
{
    let p = choose|p: Seq<u8>| #[trigger]
        a.nodes.contains_key(p) && p.len() < q.len() && kid_paths(p, a.nodes[p]).contains(q);
    assert(a.nodes[p] !is Hash);
    assert(b.nodes.contains_key(p));
}

/// Whether what is new in a subtrie is a given node, or hangs below another one.
pub open spec fn new_hangs(before: SubtrieModel, after: SubtrieModel, path: Seq<u8>) -> bool {
    forall|q: Seq<u8>| #[trigger]
        after.nodes.contains_key(q) ==> before.nodes.contains_key(q) || q == path || hangs(
            after.nodes,
            q,
        )
}

/// If revealing a node succeeds, all that is new below it hangs below other nodes.
pub proof fn lemma_reveal_hangs(
    s: SubtrieModel,
    path: Seq<u8>,
    node: TrieNodeModel,
    masks: MasksModel,
)
    requires
        s.with_revealed(path, node, masks).result is Ok,
    ensures
        new_hangs(s, s.with_revealed(path, node, masks).subtrie, path),
    decreases child_bound(node), 2int, 0int,
{
    let after = s.with_revealed(path, node, masks).subtrie;
    if !(s.nodes.contains_key(path) && !(s.nodes[path] is Hash)) {
        match node {
            TrieNodeModel::Branch { stack, mask } => {
                let nibbles = child_nibbles(mask);
                let kids = s.reveal_kids(path, stack, nibbles, 0);
                lemma_kids_hang(s, path, stack, nibbles, 0);
                lemma_kids_keep(s, path, stack, nibbles, 0, path);
                assert forall|q: Seq<u8>| #[trigger]
                    after.nodes.contains_key(q) implies s.nodes.contains_key(q) || q == path
                    || hangs(after.nodes, q) by {
                    if q != path && !s.nodes.contains_key(q) {
                        assert(kids.subtrie.nodes.contains_key(q));
                        if is_kid(path, nibbles, q) {
                            let i = choose|i: int|
                                0 <= i < nibbles.len() && q == path.push(#[trigger] nibbles[i]);
                            assert(kid_paths(path, after.nodes[path])[i] == q);
                            assert(after.nodes.contains_key(path));
                        } else {
                            let p = choose|p: Seq<u8>| #[trigger]
                                kids.subtrie.nodes.contains_key(p) && p.len() < q.len() && kid_paths(
                                    p,
                                    kids.subtrie.nodes[p],
                                ).contains(q);
                            assert(p != path);
                            assert(after.nodes.contains_key(p));
                        }
                    }
                }
            },
            TrieNodeModel::Extension { key, child } => {
                if key.len() > 0 && same_level(path, path + key) {
                    let below = s.reveal_child(path + key, child).subtrie;
                    lemma_child_hangs(s, path + key, child);
                    lemma_child_off(s, path, key, child);
                    assert forall|q: Seq<u8>| #[trigger]
                        after.nodes.contains_key(q) implies s.nodes.contains_key(q) || q == path
                        || hangs(after.nodes, q) by {
                        if q != path && !s.nodes.contains_key(q) {
                            assert(below.nodes.contains_key(q));
                            if q == path + key {
                                assert(after.nodes.contains_key(path));
                                assert(kid_paths(path, after.nodes[path])[0] == q);
                            } else {
                                let p = choose|p: Seq<u8>| #[trigger]
                                    below.nodes.contains_key(p) && p.len() < q.len() && kid_paths(
                                        p,
                                        below.nodes[p],
                                    ).contains(q);
                                assert(p != path);
                                assert(after.nodes.contains_key(p));
                            }
                        }
                    }
                }
            },
            _ => {},
        }
    }
}

/// Whether a path is that of a child with one of the given nibbles.
pub open spec fn is_kid(path: Seq<u8>, nibbles: Seq<u8>, q: Seq<u8>) -> bool {
    exists|i: int| 0 <= i < nibbles.len() && q == path.push(#[trigger] nibbles[i])
}

/// If revealing the children of a branch succeeds, all that is new is one of them or hangs below other
/// nodes.
proof fn lemma_kids_hang(
    s: SubtrieModel,
    path: Seq<u8>,
    stack: Seq<Seq<u8>>,
    nibbles: Seq<u8>,
    from: int,
)
    requires
        0 <= from,
        s.reveal_kids(path, stack, nibbles, from).result is Ok,
    ensures
        forall|q: Seq<u8>| #[trigger]
            s.reveal_kids(path, stack, nibbles, from).subtrie.nodes.contains_key(q)
                ==> s.nodes.contains_key(q) || is_kid(path, nibbles, q) || hangs(
                s.reveal_kids(path, stack, nibbles, from).subtrie.nodes,
                q,
            ),
    decreases widest(stack), 1int, nibbles.len() - from,
{
    let place = stack.len() - nibbles.len() + from;
    let after = s.reveal_kids(path, stack, nibbles, from).subtrie;
    if !(from >= nibbles.len() || !(0 <= place < stack.len())) {
        let kid = path.push(nibbles[from]);
        let next = if same_level(path, kid) {
            lemma_widest(stack, place);
            lemma_child_hangs(s, kid, stack[place]);
            s.reveal_child(kid, stack[place])
        } else {
            s.ok()
        };
        lemma_kids_hang(next.subtrie, path, stack, nibbles, from + 1);
        lemma_kids_grow(next.subtrie, path, stack, nibbles, from + 1);
        assert forall|q: Seq<u8>| #[trigger] after.nodes.contains_key(q) implies s.nodes.contains_key(
            q,
        ) || is_kid(path, nibbles, q) || hangs(after.nodes, q) by {
            if next.subtrie.nodes.contains_key(q) && !s.nodes.contains_key(q) {
                if q == kid {
                    assert(is_kid(path, nibbles, q));
                } else {
                    assert(hangs(next.subtrie.nodes, q));
                    lemma_hangs_grown(next.subtrie, after, q);
                }
            }
        }
    }
}

/// If revealing a child succeeds, all that is new below it hangs below other nodes.
pub proof fn lemma_child_hangs(s: SubtrieModel, path: Seq<u8>, child: Seq<u8>)
    requires
        s.reveal_child(path, child).result is Ok,
    ensures
        new_hangs(s, s.reveal_child(path, child).subtrie, path),
    decreases child.len(), 3int, 0int,
{
    if child.len() != 33 {
        match decoded_node(child) {
            Ok(node) => {
                if node.children_below(child.len()) {
                    lemma_child_bound(node, child.len());
                    lemma_reveal_hangs(s, path, node, MasksModel::none());
                }
            },
            Err(_) => {},
        }
    }
}

// The trie.

impl TrieModel {
    /// Each node is in the subtrie that its path belongs to.
    pub open spec fn homed(self) -> bool {
        &&& forall|q: Seq<u8>| #[trigger] self.upper.nodes.contains_key(q) ==> is_upper(q)
        &&& forall|i: int, q: Seq<u8>|
            0 <= i < self.lower.len() && self.lower[i] is Some
                && #[trigger] self.lower[i]->0.nodes.contains_key(q) ==> TrieModel::owns(i, q)
                && lower_path(i).is_prefix_of(q)
    }

    /// In each subtrie, each leaf has a value, and all values are those of leaves.
    pub open spec fn valued(self) -> bool {
        &&& self.upper.valued()
        &&& forall|i: int|
            0 <= i < self.lower.len() && (#[trigger] self.lower[i]) is Some
                ==> self.lower[i]->0.valued()
    }

    /// In each subtrie, each leaf has a value.
    pub open spec fn leaves_valued(self) -> bool {
        &&& self.upper.leaves_valued()
        &&& forall|i: int|
            0 <= i < self.lower.len() && (#[trigger] self.lower[i]) is Some
                ==> self.lower[i]->0.leaves_valued()
    }

    /// Whether there is a node of which a path is a child.
    pub open spec fn parented(self, q: Seq<u8>) -> bool {
        exists|a: Seq<u8>| #[trigger]
            self.has_node(a) && a.len() < q.len() && kid_paths(a, self.node(a)).contains(q)
    }

    /// Each lower subtrie that has nodes has one at its own path, and all others are below it.
    pub open spec fn anchored(self) -> bool {
        forall|i: int|
            0 <= i < self.lower.len() && (#[trigger] self.lower[i]) is Some
                ==> self.lower[i]->0.anchored()
    }

    /// Each node but the root is a child of another one.
    pub open spec fn linked(self) -> bool {
        forall|q: Seq<u8>| #[trigger] self.has_node(q) && q.len() > 0 ==> self.parented(q)
    }

    /// What every operation keeps: the subtries are in place, each with a root; each node is in the
    /// subtrie that its path belongs to, and hangs below another one; each leaf has a value, and
    /// all values are those of leaves.
    pub open spec fn sound(self) -> bool {
        &&& self.placed()
        &&& self.homed()
        &&& self.valued()
        &&& self.linked()
        &&& self.anchored()
    }

    /// Whether there is a place for the subtrie that a path belongs to.
    pub open spec fn has_place(self, path: Seq<u8>) -> bool {
        is_upper(path) || (path[0] < 16 && path[1] < 16 && 0 <= lower_index_of(path)
            < self.lower.len())
    }
}

/// Whether a subtrie is another one after something was revealed at a path.
pub open spec fn revealed_at(before: SubtrieModel, after: SubtrieModel, path: Seq<u8>) -> bool {
    &&& grown(before, after)
    &&& same_elsewhere(before, after, path)
    &&& new_at_level(before, after, path)
    &&& before.valued() ==> after.valued()
    &&& before.leaves_valued() ==> after.leaves_valued()
    &&& after.path == before.path || (!is_upper(path) && after.path == path)
}

/// Revealing a node is revealing at its path.
pub proof fn lemma_revealed_at(
    s: SubtrieModel,
    path: Seq<u8>,
    node: TrieNodeModel,
    masks: MasksModel,
)
    ensures
        revealed_at(s, s.with_revealed(path, node, masks).subtrie, path),
        revealed_at(s, settled(path, s.with_revealed(path, node, masks)), path),
{
    lemma_reveal_grows(s, path, node, masks);
    lemma_reveal_below(s, path, node, masks);
    lemma_reveal_level(s, path, node, masks);
    lemma_reveal_leaves(s, path, node, masks);
    lemma_leaves_valued(s, s.with_revealed(path, node, masks).subtrie);
    if s.valued() {
        lemma_reveal_valued(s, path, node, masks);
        lemma_valued_same(
            s.with_revealed(path, node, masks).subtrie,
            settled(path, s.with_revealed(path, node, masks)),
        );
    }
}

/// Revealing a child is revealing at its path.
pub proof fn lemma_child_revealed_at(s: SubtrieModel, path: Seq<u8>, child: Seq<u8>)
    ensures
        revealed_at(s, s.reveal_child(path, child).subtrie, path),
        revealed_at(s, settled(path, s.reveal_child(path, child)), path),
{
    lemma_child_grows(s, path, child);
    lemma_child_below(s, path, child);
    lemma_child_level(s, path, child);
    lemma_child_leaves(s, path, child);
    lemma_leaves_valued(s, s.reveal_child(path, child).subtrie);
    if s.valued() {
        lemma_child_valued(s, path, child);
        lemma_valued_same(
            s.reveal_child(path, child).subtrie,
            settled(path, s.reveal_child(path, child)),
        );
    }
}

/// That leaves and values are together depends on the nodes and values alone.
proof fn lemma_valued_same(a: SubtrieModel, b: SubtrieModel)
    requires
        a.valued(),
        b.nodes == a.nodes,
        b.src == a.src,
    ensures
        b.valued(),
{
    assert forall|full: Seq<u8>| #[trigger] b.src.values.contains_key(full) implies b.has_leaf(full) by {
        assert(a.has_leaf(full));
        let p = choose|p: Seq<u8>| #[trigger]
            a.nodes.contains_key(p) && (a.nodes[p] matches NodeModel::Leaf { key, .. } && p + key
                == full);
        assert(b.nodes.contains_key(p));
    }
}

/// Whether a trie has all that another one has: revealed nodes are the same, and a blinded node is
/// still there, blinded or not.
pub open spec fn trie_grown(before: TrieModel, after: TrieModel) -> bool {
    forall|q: Seq<u8>| #[trigger]
        before.has_node(q) ==> after.has_node(q) && (before.node(q) !is Hash ==> after.node(q)
            == before.node(q))
}

/// What has a parent still has it after more was revealed.
proof fn lemma_parented_grown(a: TrieModel, b: TrieModel, q: Seq<u8>)
    requires
        trie_grown(a, b),
        a.parented(q),
    ensures
        b.parented(q),
{
    let p = choose|p: Seq<u8>| #[trigger]
        a.has_node(p) && p.len() < q.len() && kid_paths(p, a.node(p)).contains(q);
    assert(a.node(p) !is Hash);
    assert(b.has_node(p));
}

/// The empty subtrie that a trie creates is sound.
proof fn lemma_created(t: TrieModel, path: Seq<u8>)
    requires
        t.placed(),
        t.homed(),
        t.has_place(path),
    ensures
        t.valued() ==> t.subtrie_at(path).valued(),
        t.leaves_valued() ==> t.subtrie_at(path).leaves_valued(),
        !is_upper(path) ==> lower_path(lower_index_of(path)).is_prefix_of(t.subtrie_at(path).path),
        forall|q: Seq<u8>| #[trigger]
            t.subtrie_at(path).nodes.contains_key(q) ==> same_level(path, q) && (!is_upper(path)
                ==> TrieModel::owns(lower_index_of(path), q) && lower_path(
                lower_index_of(path),
            ).is_prefix_of(q)),
{
    let s = t.subtrie_at(path);
    if !is_upper(path) {
        let i = lower_index_of(path);
        if t.lower[i] is Some {
            assert(t.valued() ==> t.lower[i]->0.valued());
            assert(t.leaves_valued() ==> t.lower[i]->0.leaves_valued());
        }
        lemma_prefix_pointwise(lower_path(i), lower_path(i));
    }
}

/// A path that belongs to a lower subtrie starts with the nibbles by which that is indexed.
pub proof fn lemma_low_path(path: Seq<u8>)
    requires
        !is_upper(path),
        path[0] < 16,
        path[1] < 16,
    ensures
        0 <= lower_index_of(path) < NUM_LOWER_SUBTRIES,
        lower_path(lower_index_of(path)).is_prefix_of(path),
{
    lemma_prefix_pointwise(lower_path(lower_index_of(path)), path);
}

/// Revealing at a path keeps the subtries in place, the nodes in their subtries, and leaves and
/// values together.
pub proof fn lemma_after(t: TrieModel, path: Seq<u8>, s: SubtrieModel)
    requires
        t.placed(),
        t.homed(),
        t.has_place(path),
        revealed_at(t.subtrie_at(path), s, path),
    ensures
        t.with_subtrie_at(path, s).placed(),
        t.with_subtrie_at(path, s).homed(),
        t.valued() ==> t.with_subtrie_at(path, s).valued(),
        t.leaves_valued() ==> t.with_subtrie_at(path, s).leaves_valued(),
        trie_grown(t, t.with_subtrie_at(path, s)),
{
    let before = t.subtrie_at(path);
    let after = t.with_subtrie_at(path, s);
    lemma_created(t, path);
    if !is_upper(path) {
        lemma_low_path(path);
    }
    assert forall|q: Seq<u8>| #[trigger] s.nodes.contains_key(q) implies same_level(path, q) && (
    !is_upper(path) ==> TrieModel::owns(lower_index_of(path), q) && lower_path(
        lower_index_of(path),
    ).is_prefix_of(q)) by {
        if !before.nodes.contains_key(q) && !is_upper(path) {
            assert(path.is_prefix_of(q));
            lemma_owns_below(lower_index_of(path), path, q);
            lemma_prefix_transitive(lower_path(lower_index_of(path)), path, q);
        }
    }
    assert forall|q: Seq<u8>| #[trigger] t.has_node(q) implies after.has_node(q) && (t.node(
        q,
    ) !is Hash ==> after.node(q) == t.node(q)) by {
        if before.nodes.contains_key(q) {
            assert(s.nodes.contains_key(q));
        }
    }
    if !is_upper(path) {
        let i = lower_index_of(path);
        assert forall|j: int|
            0 <= j < after.lower.len() && (#[trigger] after.lower[j]) is Some implies (t.valued()
            ==> after.lower[j]->0.valued()) && (t.leaves_valued()
            ==> after.lower[j]->0.leaves_valued()) by {
            if j != i {
                assert(after.lower[j] == t.lower[j]);
            }
        }
        assert forall|j: int| 0 <= j < NUM_LOWER_SUBTRIES implies ((#[trigger] after.lower[j]) matches Some(
            subtrie,
        ) ==> lower_path(j).is_prefix_of(subtrie.path)) by {
            if j != i {
                assert(after.lower[j] == t.lower[j]);
            }
        }
        assert forall|j: int, q: Seq<u8>|
            0 <= j < after.lower.len() && after.lower[j] is Some
                && #[trigger] after.lower[j]->0.nodes.contains_key(q) implies TrieModel::owns(
            j,
            q,
        ) && lower_path(j).is_prefix_of(q) by {
            if j != i {
                assert(t.lower[j]->0.nodes.contains_key(q));
            }
        }
    }
}

/// After something was revealed at a path, all that is new but the node at the path has a parent.
pub proof fn lemma_after_parented(t: TrieModel, path: Seq<u8>, s: SubtrieModel)
    requires
        t.placed(),
        t.homed(),
        t.has_place(path),
        revealed_at(t.subtrie_at(path), s, path),
        new_hangs(t.subtrie_at(path), s, path),
    ensures
        forall|q: Seq<u8>| #[trigger]
            t.with_subtrie_at(path, s).has_node(q) ==> t.has_node(q) || q == path
                || t.with_subtrie_at(path, s).parented(q),
{
    let before = t.subtrie_at(path);
    let after = t.with_subtrie_at(path, s);
    lemma_after(t, path, s);
    assert forall|q: Seq<u8>| #[trigger] after.has_node(q) implies t.has_node(q) || q == path
        || after.parented(q) by {
        if !t.has_node(q) && q != path {
            assert(s.nodes.contains_key(q) && !before.nodes.contains_key(q));
            let a = choose|a: Seq<u8>| #[trigger]
                s.nodes.contains_key(a) && a.len() < q.len() && kid_paths(a, s.nodes[a]).contains(
                    q,
                );
            assert(after.has_node(a));
        }
    }
}

/// Growing is transitive.
pub proof fn lemma_trie_grown_transitive(a: TrieModel, b: TrieModel, c: TrieModel)
    requires
        trie_grown(a, b),
        trie_grown(b, c),
    ensures
        trie_grown(a, c),
{
    assert forall|q: Seq<u8>| #[trigger] a.has_node(q) implies c.has_node(q) && (a.node(q) !is Hash
        ==> c.node(q) == a.node(q)) by {
        assert(b.has_node(q));
    }
}

/// A child that was revealed is there.
pub proof fn lemma_child_there(s: SubtrieModel, kid: Seq<u8>, child: Seq<u8>)
    requires
        s.reveal_child(kid, child).result is Ok,
    ensures
        s.reveal_child(kid, child).subtrie.nodes.contains_key(kid),
        s.reveal_child(kid, child).subtrie.path == s.path,
{
    lemma_child_grows(s, kid, child);
    if child.len() != 33 {
        let node = decoded_node(child)->Ok_0;
        if !(s.nodes.contains_key(kid) && s.nodes[kid] !is Hash) {
            lemma_revealed_node(s, kid, node, MasksModel::none());
        }
    }
}

/// There is one way at most from the upper subtrie into a lower one.
pub proof fn lemma_one_entry(t: TrieModel, a: Seq<u8>, b: Seq<u8>, p: Seq<u8>, q: Seq<u8>)
    requires
        t.linked(),
        t.has_node(a),
        t.has_node(b),
        is_upper(a),
        is_upper(b),
        kid_paths(a, t.node(a)).contains(p),
        kid_paths(b, t.node(b)).contains(q),
        !is_upper(p),
        !is_upper(q),
        p[0] == q[0],
        p[1] == q[1],
    ensures
        p == q,
    decreases a.len(),
{
    if a.len() > b.len() {
        lemma_one_entry(t, b, a, q, p);
    } else {
        let i = kid_paths(a, t.node(a)).index_of(p);
        let j = kid_paths(b, t.node(b)).index_of(q);
        lemma_kid_paths(a, t.node(a));
        lemma_kid_paths(b, t.node(b));
        assert(a.is_prefix_of(kid_paths(a, t.node(a))[i]));
        assert(b.is_prefix_of(kid_paths(b, t.node(b))[j]));
        lemma_prefix_pointwise(a, p);
        lemma_prefix_pointwise(b, q);
        if a.len() == b.len() {
            assert(a =~= b);
            if t.node(a) is Branch {
                assert(p =~= q);
            }
        } else {
            assert(t.parented(b));
            let c = choose|c: Seq<u8>| #[trigger]
                t.has_node(c) && c.len() < b.len() && kid_paths(c, t.node(c)).contains(b);
            assert(c =~= a);
            let k = kid_paths(a, t.node(a)).index_of(b);
            assert(kid_paths(a, t.node(a))[k].len() == 1);
            assert(kid_paths(a, t.node(a))[i].len() >= 2);
        }
    }
}

/// What is above a node of a lower subtrie, if it is not in the upper one, is in the same subtrie.
proof fn lemma_same_lower(t: TrieModel, i: int, a: Seq<u8>, p: Seq<u8>)
    requires
        t.homed(),
        0 <= i < t.lower.len(),
        t.has_node(a),
        kid_paths(a, t.node(a)).contains(p),
        !is_upper(a),
        TrieModel::owns(i, p),
    ensures
        a.is_prefix_of(p),
        t.lower[i] is Some,
        t.lower[i]->0.nodes.contains_key(a),
{
    let k = kid_paths(a, t.node(a)).index_of(p);
    lemma_kid_paths(a, t.node(a));
    assert(a.is_prefix_of(kid_paths(a, t.node(a))[k]));
    lemma_prefix_pointwise(a, p);
    assert(a[0] == p[0] && a[1] == p[1]);
}

/// The root of a lower subtrie is a child of a node of the upper one.
pub proof fn lemma_root_entry(t: TrieModel, i: int) -> (a: Seq<u8>)
    requires
        t.placed(),
        t.homed(),
        t.linked(),
        t.anchored(),
        0 <= i < t.lower.len(),
        t.lower[i] is Some,
        t.lower[i]->0.nodes.contains_key(t.lower_root(i)),
    ensures
        is_upper(a),
        t.has_node(a),
        kid_paths(a, t.node(a)).contains(t.lower_root(i)),
        !is_upper(t.lower_root(i)),
        TrieModel::owns(i, t.lower_root(i)),
{
    let e = t.lower_root(i);
    assert(TrieModel::owns(i, e));
    assert(t.has_node(e));
    assert(t.parented(e));
    let a = choose|a: Seq<u8>| #[trigger]
        t.has_node(a) && a.len() < e.len() && kid_paths(a, t.node(a)).contains(e);
    if !is_upper(a) {
        lemma_same_lower(t, i, a, e);
        assert(t.lower[i]->0.anchored());
        lemma_prefix_pointwise(e, a);
    }
    a
}

/// Where the root of a lower subtrie is an extension, and there are other nodes in the subtrie, one
/// is at the path that the extension leads to.
pub proof fn lemma_root_leads(t: TrieModel, i: int, q: Seq<u8>)
    requires
        t.placed(),
        t.homed(),
        t.linked(),
        t.anchored(),
        0 <= i < t.lower.len(),
        t.lower[i] is Some,
        t.lower[i]->0.nodes.contains_key(q),
        q != t.lower_root(i),
        t.lower[i]->0.nodes[t.lower_root(i)] is Extension,
    ensures
        ({
            let key = t.lower[i]->0.nodes[t.lower_root(i)]->Extension_key;
            &&& key.len() > 0
            &&& t.lower[i]->0.nodes.contains_key(t.lower_root(i) + key)
            &&& (t.lower_root(i) + key).is_prefix_of(q)
        }),
    decreases q.len(),
{
    let s = t.lower[i]->0;
    let e = t.lower_root(i);
    let key = s.nodes[e]->Extension_key;
    assert(s.anchored());
    assert(TrieModel::owns(i, q));
    assert(t.has_node(q));
    assert(t.parented(q));
    let a = choose|a: Seq<u8>| #[trigger]
        t.has_node(a) && a.len() < q.len() && kid_paths(a, t.node(a)).contains(q);
    if is_upper(a) {
        let b = lemma_root_entry(t, i);
        lemma_prefix_pointwise(lower_path(i), e);
        lemma_prefix_pointwise(e, q);
        assert(e[0] == q[0] && e[1] == q[1]);
        lemma_one_entry(t, a, b, q, e);
    } else {
        lemma_same_lower(t, i, a, q);
        if a == e {
            let k = kid_paths(a, t.node(a)).index_of(q);
            assert(kid_paths(a, t.node(a))[k] == e + key);
            lemma_prefix_pointwise(q, q);
        } else {
            lemma_root_leads(t, i, a);
            lemma_prefix_transitive(e + key, a, q);
        }
    }
}

/// After something was revealed at a child of a node, each lower subtrie that has nodes still has
/// one at its own path, and all others below it.
proof fn lemma_after_anchored(t: TrieModel, path: Seq<u8>, revealed: Revealed)
    requires
        t.placed(),
        t.homed(),
        t.linked(),
        t.anchored(),
        t.has_place(path),
        !is_upper(path),
        t.parented(path),
        revealed_at(t.subtrie_at(path), settled(path, revealed), path),
        revealed.result is Ok,
        revealed.subtrie.nodes.contains_key(path),
        revealed.subtrie.path == t.subtrie_at(path).path,
    ensures
        t.after(path, revealed).trie.anchored(),
{
    let i = lower_index_of(path);
    let before = t.subtrie_at(path);
    let s = settled(path, revealed);
    let after = t.after(path, revealed).trie;
    lemma_low_path(path);
    let a = choose|a: Seq<u8>| #[trigger]
        t.has_node(a) && a.len() < path.len() && kid_paths(a, t.node(a)).contains(path);
    if !is_upper(a) {
        lemma_same_lower(t, i, a, path);
    }
    assert(s.anchored()) by {
        if exists|q: Seq<u8>| #[trigger] before.nodes.contains_key(q) {
            let q = choose|q: Seq<u8>| #[trigger] before.nodes.contains_key(q);
            let e = before.path;
            assert(t.lower[i] is Some && before == t.lower[i]->0);
            assert(before.anchored());
            assert(before.nodes.contains_key(e));
            let b = lemma_root_entry(t, i);
            lemma_prefix_pointwise(lower_path(i), e);
            lemma_prefix_pointwise(lower_path(i), path);
            lemma_prefix_pointwise(e, e);
            assert(e.is_prefix_of(path)) by {
                if is_upper(a) {
                    assert(lower_path(i)[0] == e[0] && lower_path(i)[1] == e[1]);
                    assert(lower_path(i)[0] == path[0] && lower_path(i)[1] == path[1]);
                    lemma_one_entry(t, a, b, path, e);
                } else {
                    lemma_prefix_transitive(e, a, path);
                }
            }
            lemma_prefix_pointwise(e, path);
            assert(s.path == e);
            assert forall|x: Seq<u8>| #[trigger] s.nodes.contains_key(x) implies s.nodes.contains_key(
                s.path,
            ) && s.path.is_prefix_of(x) by {
                if path.is_prefix_of(x) {
                    lemma_prefix_transitive(e, path, x);
                } else {
                    assert(before.nodes.contains_key(x) == s.nodes.contains_key(x));
                }
            }
        } else {
            assert forall|x: Seq<u8>| #[trigger] s.nodes.contains_key(x) implies path.is_prefix_of(x) by {
                assert(!before.nodes.contains_key(x));
            }
            if s.path != path {
                assert(path.is_prefix_of(s.path));
                lemma_prefix_pointwise(path, s.path);
                assert(s.path =~= path);
            }
        }
    }
    assert forall|j: int| 0 <= j < after.lower.len() && (#[trigger] after.lower[j]) is Some implies after.lower[j]->0.anchored() by {
        if j != i {
            assert(after.lower[j] == t.lower[j]);
        }
    }
}

/// If all that is new has a parent, or is a node that is to have one, all nodes still have one.
pub proof fn lemma_after_linked(t: TrieModel, after: TrieModel, path: Seq<u8>)
    requires
        t.linked(),
        trie_grown(t, after),
        path.len() == 0 || t.parented(path),
        forall|q: Seq<u8>| #[trigger]
            after.has_node(q) ==> t.has_node(q) || q == path || after.parented(q),
    ensures
        after.linked(),
{
    assert forall|q: Seq<u8>| #[trigger] after.has_node(q) && q.len() > 0 implies after.parented(q) by {
        if t.has_node(q) {
            lemma_parented_grown(t, after, q);
        } else if q == path {
            lemma_parented_grown(t, after, q);
        }
    }
}

/// Revealing a node, whether it succeeds or fails, leaves every revealed node as it is and takes
/// nothing away; the subtries stay in place, each node is in the subtrie that its path belongs to,
/// each leaf has its value, and each value its leaf.
///
/// If it succeeds, at a child of a node, or at the root, then each node but the root still is a child
/// of another one, and each lower subtrie that has nodes has one at its own path.
pub proof fn lemma_trie_reveal(
    t: TrieModel,
    path: Seq<u8>,
    node: TrieNodeModel,
    masks: MasksModel,
)
    requires
        t.placed(),
        t.homed(),
        is_path(path),
    ensures
        ({
            let after = t.with_revealed(path, node, masks);
            keeps(
                t,
                after.trie,
                t.linked() && t.anchored() && (path.len() == 0 || t.parented(path))
                    && after.result is Ok,
            )
        }),
{
    if !t.is_revealed(path) {
        lemma_trie_reveal_new(t, path, node, masks);
    }
}

/// What is kept of a trie while more of it is revealed, and whether it stays linked and anchored.
pub open spec fn keeps(t: TrieModel, r: TrieModel, linking: bool) -> bool {
    &&& r.placed()
    &&& r.homed()
    &&& t.valued() ==> r.valued()
    &&& t.leaves_valued() ==> r.leaves_valued()
    &&& trie_grown(t, r)
    &&& r.prefix == t.prefix
    &&& r.updates == t.updates
    &&& linking ==> r.linked() && r.anchored()
}

/// Revealing a node that had not been revealed in the subtrie that its path belongs to.
proof fn lemma_own_reveal(t: TrieModel, path: Seq<u8>, node: TrieNodeModel, masks: MasksModel)
    requires
        t.placed(),
        t.homed(),
        is_path(path),
        t.has_node(path) ==> t.node(path) is Hash,
    ensures
        ({
            let own = t.after(path, t.subtrie_at(path).with_revealed(path, node, masks));
            &&& keeps(
                t,
                own.trie,
                t.linked() && t.anchored() && (path.len() == 0 || t.parented(path))
                    && own.result is Ok,
            )
            &&& own.result is Ok ==> own.trie.has_node(path) && match node {
                TrieNodeModel::Branch { mask, .. } => own.trie.node(
                    path,
                ) matches NodeModel::Branch { mask: m, .. } && m == mask,
                TrieNodeModel::Extension { key, .. } => path.len() + key.len() <= MAX_PATH_LEN
                    && (own.trie.node(path) matches NodeModel::Extension { key: k, .. } && k == key),
                _ => true,
            }
        }),
{
    let s = t.subtrie_at(path);
    let revealed = s.with_revealed(path, node, masks);
    let own = t.after(path, revealed);
    lemma_revealed_at(s, path, node, masks);
    lemma_after(t, path, settled(path, revealed));
    if own.result is Ok {
        assert(s.nodes.contains_key(path) ==> s.nodes[path] is Hash);
        lemma_revealed_node(s, path, node, masks);
        if t.linked() && t.anchored() && (path.len() == 0 || t.parented(path)) {
            lemma_reveal_hangs(s, path, node, masks);
            lemma_after_parented(t, path, settled(path, revealed));
            lemma_after_linked(t, own.trie, path);
            if !is_upper(path) {
                lemma_reveal_grows(s, path, node, masks);
                lemma_after_anchored(t, path, revealed);
            }
        }
    }
}

/// Keeping what is to be kept twice over.
proof fn lemma_keeps_transitive(a: TrieModel, b: TrieModel, c: TrieModel, linking: bool)
    requires
        keeps(a, b, false),
        keeps(b, c, linking),
    ensures
        keeps(a, c, linking),
{
    lemma_trie_grown_transitive(a, b, c);
}

/// Revealing a child in a lower subtrie.
proof fn lemma_with_child(t: TrieModel, kid: LowerChild)
    requires
        t.placed(),
        t.homed(),
        !is_upper(kid.path),
        is_path(kid.path),
    ensures
        ({
            let after = t.with_child(kid);
            keeps(
                t,
                after.trie,
                t.linked() && t.anchored() && t.parented(kid.path) && after.result is Ok,
            )
        }),
{
    let path = kid.path;
    let below = t.subtrie_at(path);
    let more = below.reveal_child(path, kid.rlp);
    let after = t.after(path, more);
    assert(path[0] < 16 && path[1] < 16);
    lemma_child_revealed_at(below, path, kid.rlp);
    lemma_after(t, path, settled(path, more));
    if t.linked() && t.anchored() && t.parented(path) && after.result is Ok {
        lemma_child_hangs(below, path, kid.rlp);
        lemma_after_parented(t, path, settled(path, more));
        lemma_child_there(below, path, kid.rlp);
        lemma_after_anchored(t, path, more);
        lemma_after_linked(t, after.trie, path);
    }
}

/// Revealing children in lower subtries.
pub proof fn lemma_with_children(t: TrieModel, path: Seq<u8>, kids: Seq<LowerChild>)
    requires
        t.placed(),
        t.homed(),
        all_low(path, kids),
    ensures
        ({
            let after = t.with_children(kids);
            keeps(
                t,
                after.trie,
                t.linked() && t.anchored() && after.result is Ok && (forall|i: int|
                    0 <= i < kids.len() ==> t.parented((#[trigger] kids[i]).path)),
            )
        }),
    decreases kids.len(),
{
    if kids.len() > 0 {
        let next = t.with_child(kids[0]);
        let rest = kids.skip(1);
        assert(low_below(path, kids[0]));
        lemma_with_child(t, kids[0]);
        if next.result is Ok {
            assert forall|i: int| 0 <= i < rest.len() implies low_below(path, #[trigger] rest[i]) by {
                assert(rest[i] == kids[i + 1]);
                assert(low_below(path, kids[i + 1]));
            }
            lemma_with_children(next.trie, path, rest);
            let after = next.trie.with_children(rest);
            if t.linked() && t.anchored() && after.result is Ok && forall|i: int|
                0 <= i < kids.len() ==> t.parented((#[trigger] kids[i]).path) {
                assert(t.parented(kids[0].path));
                assert forall|i: int| 0 <= i < rest.len() implies next.trie.parented(
                    (#[trigger] rest[i]).path,
                ) by {
                    assert(rest[i] == kids[i + 1]);
                    assert(t.parented(kids[i + 1].path));
                    lemma_parented_grown(t, next.trie, rest[i].path);
                }
                lemma_keeps_transitive(t, next.trie, after.trie, true);
            } else {
                lemma_keeps_transitive(t, next.trie, after.trie, false);
            }
        }
    }
}

/// Revealing a node that had not been revealed.
proof fn lemma_trie_reveal_new(
    t: TrieModel,
    path: Seq<u8>,
    node: TrieNodeModel,
    masks: MasksModel,
)
    requires
        t.placed(),
        t.homed(),
        is_path(path),
        !t.is_revealed(path),
    ensures
        ({
            let after = t.with_revealed(path, node, masks);
            keeps(
                t,
                after.trie,
                t.linked() && t.anchored() && (path.len() == 0 || t.parented(path))
                    && after.result is Ok,
            )
        }),
{
    let after = t.with_revealed(path, node, masks);
    if is_upper(path) {
        let kids = t.lower_kids(path, node);
        let below = t.with_children(kids);
        lemma_kids_low(t, path, node);
        lemma_children_after(t, path, node, masks);
        lemma_with_children(t, path, kids);
        if below.result is Ok {
            lemma_own_reveal(below.trie, path, node, masks);
            lemma_keeps_transitive(t, below.trie, after.trie, false);
        }
        if t.linked() && t.anchored() && (path.len() == 0 || t.parented(path)) && after.result is Ok {
            let own = t.after(path, t.upper.with_revealed(path, node, masks));
            lemma_own_reveal(t, path, node, masks);
            assert(shown_in(t, t.upper, path));
            lemma_lower_hang(t, t.upper, path, node, masks);
            assert forall|i: int| 0 <= i < kids.len() implies own.trie.parented(
                (#[trigger] kids[i]).path,
            ) by {
                let q = kids[i].path;
                assert(hangs(own.trie.upper.nodes, q));
                let a = choose|a: Seq<u8>| #[trigger]
                    own.trie.upper.nodes.contains_key(a) && a.len() < q.len() && kid_paths(
                        a,
                        own.trie.upper.nodes[a],
                    ).contains(q);
                assert(own.trie.has_node(a));
            }
            lemma_with_children(own.trie, path, kids);
            lemma_keeps_transitive(t, own.trie, after.trie, true);
        }
    } else {
        lemma_own_reveal(t, path, node, masks);
    }
}

// Hashing, and recording updates.

/// Whether two subtries are the same but for what nodes keep of hashing, and for what was recorded.
pub open spec fn alike_subtries(a: SubtrieModel, b: SubtrieModel) -> bool {
    &&& a.path == b.path
    &&& a.src == b.src
    &&& forall|q: Seq<u8>| #[trigger]
        a.nodes.contains_key(q) == b.nodes.contains_key(q) && (a.nodes.contains_key(q) ==> alike(
            a.nodes[q],
            b.nodes[q],
        ))
}

/// Whether two tries are the same but for what nodes keep of hashing, for what was recorded, and
/// for which keys have changed.
pub open spec fn alike_tries(a: TrieModel, b: TrieModel) -> bool {
    &&& alike_subtries(a.upper, b.upper)
    &&& a.lower.len() == b.lower.len()
    &&& forall|i: int|
        0 <= i < a.lower.len() ==> match #[trigger] a.lower[i] {
            Some(subtrie) => b.lower[i] is Some && alike_subtries(subtrie, b.lower[i]->0),
            None => b.lower[i] is None,
        }
}

/// That leaves and values are together does not depend on hashing.
proof fn lemma_alike_valued(a: SubtrieModel, b: SubtrieModel)
    requires
        alike_subtries(a, b),
        a.valued(),
    ensures
        b.valued(),
{
    assert forall|p: Seq<u8>| #[trigger] b.nodes.contains_key(p) implies (b.nodes[p] matches NodeModel::Leaf {
        key,
        ..
    } ==> b.src.values.contains_key(p + key)) by {
        assert(a.nodes.contains_key(p));
    }
    assert forall|full: Seq<u8>| #[trigger] b.src.values.contains_key(full) implies b.has_leaf(
        full,
    ) by {
        assert(a.src.values.contains_key(full));
        let p = choose|p: Seq<u8>| #[trigger]
            a.nodes.contains_key(p) && (a.nodes[p] matches NodeModel::Leaf { key, .. } && p + key
                == full);
        assert(b.nodes.contains_key(p));
    }
}

/// Nodes that are alike have the same children.
pub proof fn lemma_alike_node(a: TrieModel, b: TrieModel, q: Seq<u8>)
    requires
        alike_tries(a, b),
    ensures
        a.has_node(q) == b.has_node(q),
        a.has_node(q) ==> alike(a.node(q), b.node(q)) && kid_paths(q, a.node(q)) == kid_paths(
            q,
            b.node(q),
        ) && a.source_at(q) == b.source_at(q),
{
    if is_upper(q) {
        assert(a.upper.nodes.contains_key(q) == b.upper.nodes.contains_key(q));
    } else {
        let i = lower_index_of(q);
        if 0 <= i < a.lower.len() && a.lower[i] is Some {
            assert(a.lower[i]->0.nodes.contains_key(q) == b.lower[i]->0.nodes.contains_key(q));
        }
    }
}

/// Soundness does not depend on what nodes keep of hashing, nor on what was recorded.
pub proof fn lemma_alike_sound(a: TrieModel, b: TrieModel)
    requires
        alike_tries(a, b),
        a.sound(),
    ensures
        b.sound(),
{
    lemma_alike_valued(a.upper, b.upper);
    assert forall|i: int| 0 <= i < b.lower.len() && (#[trigger] b.lower[i]) is Some implies b.lower[i]->0.valued() by {
        assert(a.lower[i] is Some);
        assert(a.lower[i]->0.valued());
        lemma_alike_valued(a.lower[i]->0, b.lower[i]->0);
    }
    assert forall|i: int| 0 <= i < NUM_LOWER_SUBTRIES implies ((#[trigger] b.lower[i]) matches Some(
        subtrie,
    ) ==> lower_path(i).is_prefix_of(subtrie.path)) by {
        assert(a.lower[i] is Some == b.lower[i] is Some);
    }
    assert forall|i: int| 0 <= i < b.lower.len() && (#[trigger] b.lower[i]) is Some implies b.lower[i]->0.anchored() by {
        assert(a.lower[i] is Some);
        assert(a.lower[i]->0.anchored());
        let x = a.lower[i]->0;
        let y = b.lower[i]->0;
        assert(x.nodes.contains_key(x.path) == y.nodes.contains_key(x.path));
        assert forall|q: Seq<u8>| #[trigger] y.nodes.contains_key(q) implies y.nodes.contains_key(
            y.path,
        ) && y.path.is_prefix_of(q) by {
            assert(x.nodes.contains_key(q));
        }
    }
    assert forall|q: Seq<u8>| #[trigger] b.upper.nodes.contains_key(q) implies is_upper(q) by {
        assert(a.upper.nodes.contains_key(q));
    }
    assert forall|i: int, q: Seq<u8>|
        0 <= i < b.lower.len() && b.lower[i] is Some
            && #[trigger] b.lower[i]->0.nodes.contains_key(q) implies TrieModel::owns(i, q)
        && lower_path(i).is_prefix_of(q) by {
        assert(a.lower[i] is Some);
        assert(a.lower[i]->0.nodes.contains_key(q));
    }
    lemma_alike_linked(a, b);
}

/// Whether each node is a child of another one does not depend on what nodes keep of hashing.
pub proof fn lemma_alike_linked(a: TrieModel, b: TrieModel)
    requires
        alike_tries(a, b),
        a.linked(),
    ensures
        b.linked(),
{
    assert forall|q: Seq<u8>| #[trigger] b.has_node(q) && q.len() > 0 implies b.parented(q) by {
        lemma_alike_node(a, b, q);
        assert(a.parented(q));
        let p = choose|p: Seq<u8>| #[trigger]
            a.has_node(p) && p.len() < q.len() && kid_paths(p, a.node(p)).contains(q);
        lemma_alike_node(a, b, p);
        assert(b.has_node(p));
    }
}

/// Being the same but for hashing is transitive.
pub proof fn lemma_alike_transitive(a: TrieModel, b: TrieModel, c: TrieModel)
    requires
        alike_tries(a, b),
        alike_tries(b, c),
    ensures
        alike_tries(a, c),
{
    lemma_alike_subtries_transitive(a.upper, b.upper, c.upper);
    assert forall|i: int| 0 <= i < a.lower.len() implies match #[trigger] a.lower[i] {
        Some(subtrie) => c.lower[i] is Some && alike_subtries(subtrie, c.lower[i]->0),
        None => c.lower[i] is None,
    } by {
        assert(a.lower[i] is Some == b.lower[i] is Some);
        if a.lower[i] is Some {
            lemma_alike_subtries_transitive(a.lower[i]->0, b.lower[i]->0, c.lower[i]->0);
        }
    }
}

/// Being the same but for hashing is transitive for subtries.
proof fn lemma_alike_subtries_transitive(a: SubtrieModel, b: SubtrieModel, c: SubtrieModel)
    requires
        alike_subtries(a, b),
        alike_subtries(b, c),
    ensures
        alike_subtries(a, c),
{
    assert forall|q: Seq<u8>| #[trigger] a.nodes.contains_key(q) == c.nodes.contains_key(q) && (
    a.nodes.contains_key(q) ==> alike(a.nodes[q], c.nodes[q])) by {
        assert(a.nodes.contains_key(q) == b.nodes.contains_key(q));
        assert(b.nodes.contains_key(q) == c.nodes.contains_key(q));
    }
}

/// Computing the root hash leaves all nodes and values as they are, but for what nodes keep of
/// hashing.
pub proof fn lemma_rooted_alike(t: TrieModel)
    ensures
        alike_tries(t, t.lower_hashed()),
        alike_tries(t, t.rooted()),
{
    let lower = t.lower_hashed();
    let rooted = t.rooted();
    assert(alike_subtries(t.upper, lower.upper));
    assert(alike_tries(t, lower));
    assert(alike_subtries(lower.upper, rooted.upper)) by {
        let h = lower.hashing(t.upper_keys());
        assert forall|q: Seq<u8>| #[trigger] lower.upper.nodes.contains_key(q)
            == rooted.upper.nodes.contains_key(q) && (lower.upper.nodes.contains_key(q) ==> alike(
            lower.upper.nodes[q],
            rooted.upper.nodes[q],
        )) by {
            if lower.upper.nodes.contains_key(q) && is_upper(q) {
                assert(lower.has_node(q));
                assert(rooted.upper.nodes[q] == h.hashed_node(Seq::empty(), q));
            }
        }
    }
    assert forall|i: int| 0 <= i < lower.lower.len() implies match #[trigger] lower.lower[i] {
        Some(subtrie) => rooted.lower[i] is Some && alike_subtries(subtrie, rooted.lower[i]->0),
        None => rooted.lower[i] is None,
    } by {
        if lower.lower[i] is Some {
            let h = lower.hashing(t.upper_keys());
            let a = lower.lower[i]->0;
            let b = rooted.lower[i]->0;
            assert forall|q: Seq<u8>| #[trigger] a.nodes.contains_key(q) == b.nodes.contains_key(q)
                && (a.nodes.contains_key(q) ==> alike(a.nodes[q], b.nodes[q])) by {
                if a.nodes.contains_key(q) && TrieModel::owns(i, q) {
                    assert(lower.has_node(q));
                    assert(b.nodes[q] == h.hashed_node(Seq::empty(), q));
                }
            }
        }
    }
    lemma_alike_transitive(t, lower, rooted);
}

/// Starting to record updates, or ceasing to, leaves all nodes and values as they are.
pub proof fn lemma_updates_alike(t: TrieModel, retain: bool)
    ensures
        alike_tries(t, t.with_updates(retain)),
{
    let after = t.with_updates(retain);
    assert(alike_subtries(t.upper, after.upper));
    assert forall|i: int| 0 <= i < t.lower.len() implies match #[trigger] t.lower[i] {
        Some(subtrie) => after.lower[i] is Some && alike_subtries(subtrie, after.lower[i]->0),
        None => after.lower[i] is None,
    } by {
        if t.lower[i] is Some {
            assert(after.lower[i]->0 == t.lower[i]->0.with_updates(retain));
        }
    }
}

/// Taking the updates leaves all nodes and values as they are.
pub proof fn lemma_taken_alike(t: TrieModel)
    ensures
        alike_tries(t, t.updates_taken()),
{
    let after = t.updates_taken();
    assert(alike_subtries(t.upper, after.upper));
    assert forall|i: int| 0 <= i < t.lower.len() implies match #[trigger] t.lower[i] {
        Some(subtrie) => after.lower[i] is Some && alike_subtries(subtrie, after.lower[i]->0),
        None => after.lower[i] is None,
    } by {
        if t.lower[i] is Some {
            assert(after.lower[i]->0 == t.lower[i]->0.updates_taken());
        }
    }
}

/// The trie of which nothing is revealed is sound.
pub proof fn lemma_empty_sound()
    ensures
        TrieModel::empty().sound(),
{
    let t = TrieModel::empty();
    assert(t.upper.valued());
}

}
