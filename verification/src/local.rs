//! What revealing does below a path depends on nothing but what is there.

use crate::kept_hashes::same_below;
use crate::lower::{
    all_low, lemma_all_lower, lemma_kids_low, lemma_same_kids, low_below, same_revealed,
    LowerChild,
};
use crate::merkle::alike;
use crate::model::{child_nibbles, MasksModel, NodeModel, TrieNodeModel};
use crate::order::{lemma_prefix_pointwise, lemma_prefix_transitive};
use crate::outside::{decoded_node, MAX_PATH_LEN};
use crate::path::{is_path, is_upper, lower_index_of, lower_path};
use crate::revealing::{
    child_bound, lemma_child_below, lemma_child_bound, lemma_widest, same_elsewhere, same_level,
    widest, Revealed,
};
use crate::soundness::{
    alike_tries, lemma_after, lemma_child_revealed_at, lemma_with_children, lemma_revealed_at,
};
use crate::subtrie::SubtrieModel;
use crate::trie::{settled, TrieModel};
use vstd::prelude::*;

verus! {

// In a subtrie.

/// Whether two subtries have the same nodes and values at a path and below, but for what nodes keep
/// of hashing, and both are upper or both lower ones.
pub open spec fn agree_below(a: SubtrieModel, b: SubtrieModel, path: Seq<u8>) -> bool {
    &&& (a.path.len() == 0) == (b.path.len() == 0)
    &&& forall|q: Seq<u8>|
        path.is_prefix_of(q) ==> #[trigger] a.nodes.contains_key(q) == b.nodes.contains_key(q) && (
        a.nodes.contains_key(q) ==> alike(a.nodes[q], b.nodes[q]))
    &&& forall|x: Seq<u8>|
        path.is_prefix_of(x) ==> #[trigger] a.src.values.contains_key(x)
            == b.src.values.contains_key(x) && a.src.values[x] == b.src.values[x]
}

/// What agrees below a path agrees below a longer one.
proof fn lemma_agree_deeper(a: SubtrieModel, b: SubtrieModel, path: Seq<u8>, kid: Seq<u8>)
    requires
        agree_below(a, b, path),
        path.is_prefix_of(kid),
    ensures
        agree_below(a, b, kid),
{
    assert forall|q: Seq<u8>| kid.is_prefix_of(q) implies #[trigger] a.nodes.contains_key(q)
        == b.nodes.contains_key(q) && (a.nodes.contains_key(q) ==> alike(a.nodes[q], b.nodes[q])) by {
        lemma_prefix_transitive(path, kid, q);
    }
    assert forall|x: Seq<u8>| kid.is_prefix_of(x) implies #[trigger] a.src.values.contains_key(x)
        == b.src.values.contains_key(x) && a.src.values[x] == b.src.values[x] by {
        lemma_prefix_transitive(path, kid, x);
    }
}

/// What agrees below a path still does after both changed in the same way below a longer one.
proof fn lemma_agree_joined(
    a: SubtrieModel,
    b: SubtrieModel,
    c: SubtrieModel,
    d: SubtrieModel,
    path: Seq<u8>,
    kid: Seq<u8>,
)
    requires
        agree_below(a, b, path),
        agree_below(c, d, kid),
        same_elsewhere(a, c, kid),
        same_elsewhere(b, d, kid),
    ensures
        agree_below(c, d, path),
{
    assert forall|q: Seq<u8>| path.is_prefix_of(q) implies #[trigger] c.nodes.contains_key(q)
        == d.nodes.contains_key(q) && (c.nodes.contains_key(q) ==> alike(c.nodes[q], d.nodes[q])) by {
        if !kid.is_prefix_of(q) {
            assert(a.nodes.contains_key(q) == c.nodes.contains_key(q));
            assert(b.nodes.contains_key(q) == d.nodes.contains_key(q));
        }
    }
    assert forall|x: Seq<u8>| path.is_prefix_of(x) implies #[trigger] c.src.values.contains_key(x)
        == d.src.values.contains_key(x) && c.src.values[x] == d.src.values[x] by {
        if !kid.is_prefix_of(x) {
            assert(a.src.values.contains_key(x) == c.src.values.contains_key(x));
            assert(b.src.values.contains_key(x) == d.src.values.contains_key(x));
        }
    }
}

/// What agrees below a path still does after nodes that are alike were set there.
proof fn lemma_agree_put(
    a: SubtrieModel,
    b: SubtrieModel,
    path: Seq<u8>,
    x: NodeModel,
    y: NodeModel,
)
    requires
        agree_below(a, b, path),
        alike(x, y),
    ensures
        agree_below(a.put(path, x), b.put(path, y), path),
{
    let c = a.put(path, x);
    let d = b.put(path, y);
    assert forall|q: Seq<u8>| path.is_prefix_of(q) implies #[trigger] c.nodes.contains_key(q)
        == d.nodes.contains_key(q) && (c.nodes.contains_key(q) ==> alike(c.nodes[q], d.nodes[q])) by {
        assert(a.nodes.contains_key(q) == b.nodes.contains_key(q));
    }
    assert forall|x: Seq<u8>| path.is_prefix_of(x) implies #[trigger] c.src.values.contains_key(x)
        == d.src.values.contains_key(x) && c.src.values[x] == d.src.values[x] by {
        assert(a.src.values.contains_key(x) == b.src.values.contains_key(x));
    }
}

/// What agrees below a path still does after masks were set.
proof fn lemma_agree_masks(a: SubtrieModel, b: SubtrieModel, path: Seq<u8>, masks: MasksModel)
    requires
        agree_below(a, b, path),
    ensures
        agree_below(a.put_masks(path, masks), b.put_masks(path, masks), path),
{
    let c = a.put_masks(path, masks);
    let d = b.put_masks(path, masks);
    assert forall|q: Seq<u8>| path.is_prefix_of(q) implies #[trigger] c.nodes.contains_key(q)
        == d.nodes.contains_key(q) && (c.nodes.contains_key(q) ==> alike(c.nodes[q], d.nodes[q])) by {
        assert(a.nodes.contains_key(q) == b.nodes.contains_key(q));
    }
    assert forall|x: Seq<u8>| path.is_prefix_of(x) implies #[trigger] c.src.values.contains_key(x)
        == d.src.values.contains_key(x) && c.src.values[x] == d.src.values[x] by {
        assert(a.src.values.contains_key(x) == b.src.values.contains_key(x));
    }
}

/// What agrees below a path still does after the same value was set.
proof fn lemma_agree_value(
    a: SubtrieModel,
    b: SubtrieModel,
    path: Seq<u8>,
    full: Seq<u8>,
    value: Seq<u8>,
)
    requires
        agree_below(a, b, path),
    ensures
        agree_below(a.put_value(full, value), b.put_value(full, value), path),
{
    let c = a.put_value(full, value);
    let d = b.put_value(full, value);
    assert forall|x: Seq<u8>| path.is_prefix_of(x) implies #[trigger] c.src.values.contains_key(x)
        == d.src.values.contains_key(x) && c.src.values[x] == d.src.values[x] by {
        assert(a.src.values.contains_key(x) == b.src.values.contains_key(x));
    }
}

/// What revealing a node does below its path depends on nothing but what is there.
pub proof fn lemma_reveal_local(
    a: SubtrieModel,
    b: SubtrieModel,
    path: Seq<u8>,
    node: TrieNodeModel,
    masks: MasksModel,
)
    requires
        agree_below(a, b, path),
    ensures
        a.with_revealed(path, node, masks).result is Ok == b.with_revealed(
            path,
            node,
            masks,
        ).result is Ok,
        agree_below(
            a.with_revealed(path, node, masks).subtrie,
            b.with_revealed(path, node, masks).subtrie,
            path,
        ),
    decreases child_bound(node), 2int, 0int,
{
    lemma_prefix_pointwise(path, path);
    assert(a.nodes.contains_key(path) == b.nodes.contains_key(path));
    if !(a.nodes.contains_key(path) && !(a.nodes[path] is Hash)) {
        let x = a.blinded(path);
        let y = b.blinded(path);
        assert(x is Some == y is Some);
        match node {
            TrieNodeModel::EmptyRoot => {
                lemma_agree_put(a, b, path, NodeModel::Empty, NodeModel::Empty);
                lemma_agree_masks(
                    a.put(path, NodeModel::Empty),
                    b.put(path, NodeModel::Empty),
                    path,
                    masks,
                );
            },
            TrieNodeModel::Branch { stack, mask } => {
                if !(path.len() >= MAX_PATH_LEN && child_nibbles(mask).len() > 0) {
                    let nibbles = child_nibbles(mask);
                    lemma_kids_local(a, b, path, stack, nibbles, 0);
                    let e = a.reveal_kids(path, stack, nibbles, 0);
                    let f = b.reveal_kids(path, stack, nibbles, 0);
                    let store = if x is Some {
                        Some(masks.nonempty())
                    } else {
                        None
                    };
                    let m = NodeModel::Branch { mask, hash: x, store };
                    let n = NodeModel::Branch { mask, hash: y, store };
                    lemma_agree_put(e.subtrie, f.subtrie, path, m, n);
                    lemma_agree_masks(e.subtrie.put(path, m), f.subtrie.put(path, n), path, masks);
                }
            },
            TrieNodeModel::Extension { key, child } => {
                if path.len() + key.len() <= MAX_PATH_LEN {
                    let kid = path + key;
                    let m = NodeModel::Extension { key, hash: x, store: None };
                    let n = NodeModel::Extension { key, hash: y, store: None };
                    if key.len() > 0 && same_level(path, kid) {
                        let e = a.reveal_child(kid, child).subtrie;
                        let f = b.reveal_child(kid, child).subtrie;
                        lemma_prefix_pointwise(path, kid);
                        lemma_agree_deeper(a, b, path, kid);
                        lemma_child_local(a, b, kid, child);
                        lemma_child_below(a, kid, child);
                        lemma_child_below(b, kid, child);
                        lemma_agree_joined(a, b, e, f, path, kid);
                        lemma_agree_put(e, f, path, m, n);
                        lemma_agree_masks(e.put(path, m), f.put(path, n), path, masks);
                    } else {
                        lemma_agree_put(a, b, path, m, n);
                        lemma_agree_masks(a.put(path, m), b.put(path, n), path, masks);
                    }
                }
            },
            TrieNodeModel::Leaf { key, value } => {
                let m = NodeModel::Leaf { key, hash: x };
                let n = NodeModel::Leaf { key, hash: y };
                lemma_agree_put(a, b, path, m, n);
                let full = path + key;
                lemma_agree_value(a.put(path, m), b.put(path, n), path, full, value);
                lemma_agree_masks(
                    a.put(path, m).put_value(full, value),
                    b.put(path, n).put_value(full, value),
                    path,
                    masks,
                );
            },
        }
    }
}

/// What revealing the children of a branch does below it depends on nothing but what is there.
proof fn lemma_kids_local(
    a: SubtrieModel,
    b: SubtrieModel,
    path: Seq<u8>,
    stack: Seq<Seq<u8>>,
    nibbles: Seq<u8>,
    from: int,
)
    requires
        agree_below(a, b, path),
    ensures
        a.reveal_kids(path, stack, nibbles, from).result is Ok == b.reveal_kids(
            path,
            stack,
            nibbles,
            from,
        ).result is Ok,
        agree_below(
            a.reveal_kids(path, stack, nibbles, from).subtrie,
            b.reveal_kids(path, stack, nibbles, from).subtrie,
            path,
        ),
    decreases widest(stack), 1int, nibbles.len() - from,
{
    let place = stack.len() - nibbles.len() + from;
    if !(from >= nibbles.len() || !(0 <= place < stack.len())) {
        let kid = path.push(nibbles[from]);
        if same_level(path, kid) {
            let child = stack[place];
            let c = a.reveal_child(kid, child);
            let d = b.reveal_child(kid, child);
            lemma_widest(stack, place);
            lemma_prefix_pointwise(path, kid);
            lemma_agree_deeper(a, b, path, kid);
            lemma_child_local(a, b, kid, child);
            lemma_child_below(a, kid, child);
            lemma_child_below(b, kid, child);
            lemma_agree_joined(a, b, c.subtrie, d.subtrie, path, kid);
            if c.result is Ok {
                lemma_kids_local(c.subtrie, d.subtrie, path, stack, nibbles, from + 1);
            }
        } else {
            lemma_kids_local(a, b, path, stack, nibbles, from + 1);
        }
    }
}

/// What revealing a child does below its path depends on nothing but what is there.
proof fn lemma_child_local(a: SubtrieModel, b: SubtrieModel, path: Seq<u8>, child: Seq<u8>)
    requires
        agree_below(a, b, path),
    ensures
        a.reveal_child(path, child).result is Ok == b.reveal_child(path, child).result is Ok,
        agree_below(a.reveal_child(path, child).subtrie, b.reveal_child(path, child).subtrie, path),
    decreases child.len(), 3int, 0int,
{
    lemma_prefix_pointwise(path, path);
    assert(a.nodes.contains_key(path) == b.nodes.contains_key(path));
    if child.len() != 33 {
        match decoded_node(child) {
            Ok(node) => {
                if node.children_below(child.len()) {
                    lemma_child_bound(node, child.len());
                    lemma_reveal_local(a, b, path, node, MasksModel::none());
                }
            },
            Err(_) => {},
        }
    }
}

// Removing a leaf.

// In a trie.

/// Whether the subtries of two tries have the same nodes and values at a path and below, but for what
/// nodes keep of hashing.
pub open spec fn subtries_agree(a: TrieModel, b: TrieModel, path: Seq<u8>) -> bool {
    &&& a.placed()
    &&& b.placed()
    &&& forall|at: Seq<u8>|
        path.is_prefix_of(at) && a.has_place(at) ==> agree_below(
            #[trigger] a.subtrie_at(at),
            b.subtrie_at(at),
            at,
        )
}

/// Taking out a leaf that is not below a path changes nothing there.
pub proof fn lemma_unlinked_agree(
    t: TrieModel,
    w: TrieModel,
    full: Seq<u8>,
    path: Seq<u8>,
    child: Seq<u8>,
)
    requires
        t.placed(),
        w.placed(),
        alike_tries(t, w),
        w.has_node(path),
        path.is_prefix_of(full),
        !child.is_prefix_of(full),
        w.unlinked(full, path).placed(),
    ensures
        subtries_agree(w.unlinked(full, path), t, child),
{
    let u = w.unlinked(full, path);
    assert forall|at: Seq<u8>| child.is_prefix_of(at) && u.has_place(at) implies agree_below(
        #[trigger] u.subtrie_at(at),
        t.subtrie_at(at),
        at,
    ) by {
        let a = u.subtrie_at(at);
        let b = t.subtrie_at(at);
        let s = w.subtrie_at(at);
        if !is_upper(at) {
            let i = lower_index_of(at);
            assert(t.lower[i] is Some == w.lower[i] is Some);
            assert(w.lower[i] is Some == u.lower[i] is Some);
        }
        assert(b.src.values == s.src.values);
        assert forall|q: Seq<u8>| at.is_prefix_of(q) implies #[trigger] a.nodes.contains_key(q)
            == b.nodes.contains_key(q) && (a.nodes.contains_key(q) ==> alike(
            a.nodes[q],
            b.nodes[q],
        )) by {
            assert(b.nodes.contains_key(q) == s.nodes.contains_key(q));
            if q == path {
                lemma_prefix_transitive(child, at, path);
                lemma_prefix_transitive(child, path, full);
            }
        }
        assert forall|x: Seq<u8>| at.is_prefix_of(x) implies #[trigger] a.src.values.contains_key(x)
            == b.src.values.contains_key(x) && a.src.values[x] == b.src.values[x] by {
            if x == full {
                lemma_prefix_transitive(child, at, full);
            }
        }
    }
}

/// Revealing the same in two subtries that agree leaves them so.
proof fn lemma_step_agree(
    a: TrieModel,
    b: TrieModel,
    path: Seq<u8>,
    k: Seq<u8>,
    x: Revealed,
    y: Revealed,
)
    requires
        subtries_agree(a, b, path),
        path.is_prefix_of(k),
        a.has_place(k),
        agree_below(x.subtrie, y.subtrie, k),
        same_elsewhere(a.subtrie_at(k), x.subtrie, k),
        same_elsewhere(b.subtrie_at(k), y.subtrie, k),
        a.after(k, x).trie.placed(),
        b.after(k, y).trie.placed(),
    ensures
        subtries_agree(a.after(k, x).trie, b.after(k, y).trie, path),
{
    let v = a.after(k, x).trie;
    let r = b.after(k, y).trie;
    assert forall|at: Seq<u8>| path.is_prefix_of(at) && v.has_place(at) implies agree_below(
        #[trigger] v.subtrie_at(at),
        r.subtrie_at(at),
        at,
    ) by {
        assert(agree_below(a.subtrie_at(at), b.subtrie_at(at), at));
        if is_upper(at) == is_upper(k) && (is_upper(at) || lower_index_of(at) == lower_index_of(
            k,
        )) {
            lemma_agree_joined(
                a.subtrie_at(at),
                b.subtrie_at(at),
                x.subtrie,
                y.subtrie,
                at,
                k,
            );
            assert(v.subtrie_at(at) == settled(k, x));
            assert(r.subtrie_at(at) == settled(k, y));
            if !is_upper(at) {
                let i = lower_index_of(at);
                lemma_prefix_pointwise(lower_path(i), settled(k, x).path);
                lemma_prefix_pointwise(lower_path(i), settled(k, y).path);
            }
        }
    }
}

/// Revealing the same children in lower subtries that agree leaves them so.
proof fn lemma_children_local(a: TrieModel, b: TrieModel, path: Seq<u8>, kids: Seq<LowerChild>)
    requires
        subtries_agree(a, b, path),
        a.homed(),
        b.homed(),
        all_low(path, kids),
    ensures
        ({
            let x = a.with_children(kids);
            let y = b.with_children(kids);
            &&& x.result is Ok == y.result is Ok
            &&& subtries_agree(x.trie, y.trie, path)
        }),
    decreases kids.len(),
{
    if kids.len() > 0 {
        let kid = kids[0].path;
        let child = kids[0].rlp;
        let c = a.subtrie_at(kid);
        let d = b.subtrie_at(kid);
        let x = c.reveal_child(kid, child);
        let y = d.reveal_child(kid, child);
        let rest = kids.skip(1);
        assert(low_below(path, kids[0]));
        assert(kid[0] < 16 && kid[1] < 16);
        lemma_child_local(c, d, kid, child);
        lemma_child_revealed_at(c, kid, child);
        lemma_child_revealed_at(d, kid, child);
        lemma_after(a, kid, settled(kid, x));
        lemma_after(b, kid, settled(kid, y));
        lemma_step_agree(a, b, path, kid, x, y);
        if x.result is Ok {
            assert forall|i: int| 0 <= i < rest.len() implies low_below(path, #[trigger] rest[i]) by {
                assert(rest[i] == kids[i + 1]);
                assert(low_below(path, kids[i + 1]));
            }
            lemma_children_local(a.with_child(kids[0]).trie, b.with_child(kids[0]).trie, path, rest);
        }
    }
}

/// Where the subtries of two tries agree, the same has been revealed.
proof fn lemma_agree_revealed(a: TrieModel, b: TrieModel, path: Seq<u8>)
    requires
        subtries_agree(a, b, path),
    ensures
        same_revealed(a, b, path),
{
    assert forall|q: Seq<u8>| path.is_prefix_of(q) && is_upper(q) implies #[trigger] a.is_revealed(q)
        == b.is_revealed(q) by {
        lemma_prefix_pointwise(q, q);
        assert(agree_below(a.subtrie_at(q), b.subtrie_at(q), q));
        assert(a.upper.nodes.contains_key(q) == b.upper.nodes.contains_key(q));
    }
}

/// What revealing a node does below its path depends on nothing but what is there.
pub proof fn lemma_trie_reveal_local(
    a: TrieModel,
    b: TrieModel,
    path: Seq<u8>,
    node: TrieNodeModel,
    masks: MasksModel,
)
    requires
        subtries_agree(a, b, path),
        a.homed(),
        b.homed(),
        is_path(path),
        a.has_node(path),
        b.has_node(path),
        a.node(path) is Hash,
        b.node(path) is Hash,
    ensures
        ({
            let x = a.with_revealed(path, node, masks);
            let y = b.with_revealed(path, node, masks);
            &&& x.result is Ok == y.result is Ok
            &&& subtries_agree(x.trie, y.trie, path)
        }),
{
    if is_upper(path) {
        let kids = a.lower_kids(path, node);
        lemma_agree_revealed(a, b, path);
        lemma_same_kids(a, b, path, node);
        lemma_kids_low(a, path, node);
        lemma_children_local(a, b, path, kids);
        lemma_with_children(a, path, kids);
        lemma_with_children(b, path, kids);
        lemma_all_lower(a, path, kids);
        lemma_all_lower(b, path, kids);
        if a.with_children(kids).result is Ok {
            lemma_own_local(
                a.with_children(kids).trie,
                b.with_children(kids).trie,
                path,
                node,
                masks,
            );
        }
    } else {
        lemma_own_local(a, b, path, node, masks);
    }
}

/// What revealing a node does in its own subtrie below its path depends on nothing but what is there.
proof fn lemma_own_local(
    a: TrieModel,
    b: TrieModel,
    path: Seq<u8>,
    node: TrieNodeModel,
    masks: MasksModel,
)
    requires
        subtries_agree(a, b, path),
        a.homed(),
        b.homed(),
        is_path(path),
    ensures
        ({
            let x = a.after(path, a.subtrie_at(path).with_revealed(path, node, masks));
            let y = b.after(path, b.subtrie_at(path).with_revealed(path, node, masks));
            &&& x.result is Ok == y.result is Ok
            &&& subtries_agree(x.trie, y.trie, path)
        }),
{
    let c = a.subtrie_at(path);
    let d = b.subtrie_at(path);
    let x = c.with_revealed(path, node, masks);
    let y = d.with_revealed(path, node, masks);
    if !is_upper(path) {
        assert(path[0] < 16 && path[1] < 16);
    }
    lemma_prefix_pointwise(path, path);
    lemma_reveal_local(c, d, path, node, masks);
    lemma_revealed_at(c, path, node, masks);
    lemma_revealed_at(d, path, node, masks);
    lemma_after(a, path, settled(path, x));
    lemma_after(b, path, settled(path, y));
    lemma_step_agree(a, b, path, path, x, y);
}

/// There is a place for the subtrie of each node.
proof fn lemma_node_place(t: TrieModel, p: Seq<u8>)
    requires
        t.placed(),
        t.anchored(),
        t.has_node(p),
    ensures
        t.has_place(p),
{
    if !is_upper(p) {
        let i = lower_index_of(p);
        assert(t.lower[i] is Some);
        let s = t.lower[i]->0;
        assert(s.anchored());
        assert(s.path.is_prefix_of(p));
        lemma_prefix_transitive(lower_path(i), s.path, p);
        lemma_prefix_pointwise(lower_path(i), p);
        assert(lower_path(i)[0] == p[0] && lower_path(i)[1] == p[1]);
    }
}

/// If the subtries of two tries agree below a path, the tries have the same there.
pub proof fn lemma_agree_same_below(v: TrieModel, r: TrieModel, path: Seq<u8>)
    requires
        subtries_agree(v, r, path),
        v.sound(),
        r.sound(),
    ensures
        same_below(v, r, path),
{
    assert forall|p: Seq<u8>| path.is_prefix_of(p) implies #[trigger] v.has_node(p) == r.has_node(p)
        && (v.has_node(p) ==> alike(v.node(p), r.node(p)) && (v.node(p) matches NodeModel::Leaf {
        key,
        ..
    } ==> v.source_at(p).values[p + key] == r.source_at(p).values[p + key])) by {
        if v.has_node(p) || r.has_node(p) {
            lemma_prefix_pointwise(p, p);
            if v.has_node(p) {
                lemma_node_place(v, p);
            } else {
                lemma_node_place(r, p);
            }
            let c = v.subtrie_at(p);
            let d = r.subtrie_at(p);
            assert(agree_below(c, d, p));
            assert(c.nodes.contains_key(p) == d.nodes.contains_key(p));
            if let NodeModel::Leaf { key, .. } = v.node(p) {
                lemma_prefix_pointwise(p, p + key);
                assert(c.src.values.contains_key(p + key) == d.src.values.contains_key(p + key));
            }
        }
    }
}

}
