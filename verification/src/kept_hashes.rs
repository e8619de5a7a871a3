//! The hashes that nodes keep stay right.

use crate::error::ErrorModel;
use crate::hash_run::{lemma_kid_paths, lemma_nibbles_below};
use crate::hashing::{deeper, kid_paths};
use crate::local::{lemma_agree_same_below, lemma_trie_reveal_local, lemma_unlinked_agree};
use crate::lookup::{
    child_known, leaf_place, lemma_child_known, lemma_child_path, lemma_leaf_place,
    lemma_merged_all, lemma_passes_below, lemma_passes_find, lemma_unlinked_child, lemma_walk,
    lemma_walk_nodes, same_shape,
};
use crate::lower::{
    all_low, apart, lemma_children_after, lemma_kids_apart, lemma_kids_low, low_below,
    LowerChild,
};
use crate::merkle::{alike, lemma_plain_same, same_leaf_value, same_tree};
use crate::model::{child_nibbles, MasksModel, NodeModel, TrieNodeModel};
use crate::order::{lemma_prefix_pointwise, lemma_prefix_transitive};
use crate::outside::{decoded_node, MAX_PATH_LEN};
use crate::path::{is_path, is_upper, lower_index_of, NUM_LOWER_SUBTRIES};
use crate::prefix_set::PrefixModel;
use crate::provider::RevealedModel;
use crate::removal::{merged_branch, merged_ext, next_to_leaf, takes_child, WalkEnd};
use crate::remove::{collapsible, lemma_put_node, lemma_unlinked};
use crate::remove_sound::{
    lemma_ext_relocated, lemma_known_sound, lemma_leaf_unique, lemma_linked_passes,
    lemma_merged_relocated, lemma_merged_sound, lemma_only_kid, lemma_put_relocated,
    lemma_relocated_node, lemma_unlinked_sound, lemma_walk_alike, may_relocate, relocated,
};
use crate::revealing::{
    child_bound, lemma_child_below, lemma_child_bound, lemma_child_grows, lemma_child_off,
    lemma_revealed_node, lemma_widest, same_elsewhere, same_level, widest,
};
use crate::soundness::{
    alike_tries, lemma_after, lemma_alike_node, lemma_alike_sound, lemma_with_children,
    lemma_revealed_at, trie_grown,
};
use crate::subtrie::SubtrieModel;
use crate::trie::{settled, TrieModel};
use vstd::prelude::*;

verus! {

/// Whether two tries have the same nodes and values at a path and below, but for what nodes keep of
/// hashing.
pub open spec fn same_below(a: TrieModel, b: TrieModel, q: Seq<u8>) -> bool {
    forall|p: Seq<u8>|
        q.is_prefix_of(p) ==> #[trigger] a.has_node(p) == b.has_node(p) && (a.has_node(p) ==> alike(
            a.node(p),
            b.node(p),
        ) && (a.node(p) matches NodeModel::Leaf { key, .. } ==> a.source_at(p).values[p + key]
            == b.source_at(p).values[p + key]))
}

/// What a trie stands for at a path depends on nothing but the nodes and values there and below.
pub proof fn lemma_merkle_same(a: TrieModel, b: TrieModel, q: Seq<u8>)
    requires
        same_below(a, b, q),
    ensures
        a.merkle(q) == b.merkle(q),
{
    let g = a.hashing(PrefixModel::none());
    let h = b.hashing(PrefixModel::none());
    assert(same_tree(g, h, q)) by {
        assert forall|p: Seq<u8>| q.is_prefix_of(p) implies #[trigger] g.nodes.contains_key(p)
            == h.nodes.contains_key(p) && (g.nodes.contains_key(p) ==> alike(
            g.nodes[p],
            h.nodes[p],
        ) && same_leaf_value(g, h, p)) by {
            assert(a.has_node(p) == b.has_node(p));
        }
    }
    lemma_plain_same(g, h, q);
}

/// Whether a revealed node keeps a hash.
pub open spec fn keeps_hash(t: TrieModel, q: Seq<u8>) -> bool {
    t.has_node(q) && t.node(q) !is Hash && t.node(q).known_hash() is Some
}

/// Every hash that is kept is right, and none is kept on the way to a leaf.
spec fn right_off(t: TrieModel, full: Seq<u8>) -> bool {
    forall|q: Seq<u8>| #[trigger]
        t.has_node(q) && keeps_hash(t, q) ==> !q.is_prefix_of(full) && t.kept_right(q)
}

/// If hashes are right off the way and none is kept on it, all are right.
proof fn lemma_right_off(t: TrieModel, full: Seq<u8>)
    requires
        right_off(t, full),
    ensures
        t.true_hashes(),
{
    assert forall|q: Seq<u8>| #[trigger] t.has_node(q) implies t.kept_right(q) by {
        if !keeps_hash(t, q) {
            assert(t.hashing(PrefixModel::none()).nodes[q] == t.node(q));
        }
    }
}

/// If a node keeps the hash that it kept before, and what is below it is the same, the hash is
/// still right.
proof fn lemma_stays_right(a: TrieModel, b: TrieModel, q: Seq<u8>)
    requires
        a.has_node(q),
        b.has_node(q),
        a.node(q) == b.node(q),
        a.kept_right(q),
        same_below(a, b, q),
    ensures
        b.kept_right(q),
{
    lemma_merkle_same(a, b, q);
    assert(a.hashing(PrefixModel::none()).nodes[q] == a.node(q));
    assert(b.hashing(PrefixModel::none()).nodes[q] == b.node(q));
}

/// Relocation on the way to a leaf keeps the hashes off the way right.
proof fn lemma_relocated_right(
    t: TrieModel,
    r: TrieModel,
    from: Option<Seq<u8>>,
    to: Seq<u8>,
    new: NodeModel,
    full: Seq<u8>,
)
    requires
        t.sound(),
        right_off(t, full),
        may_relocate(t, from, to, new),
        relocated(t, r, from, to, new),
        to.is_prefix_of(full),
        new.known_hash() is None,
        from matches Some(p) ==> forall|q: Seq<u8>| #[trigger]
            q.is_prefix_of(p) && q != p ==> q.is_prefix_of(full),
    ensures
        right_off(r, full),
{
    assert forall|q: Seq<u8>| #[trigger] r.has_node(q) && keeps_hash(r, q) implies !q.is_prefix_of(
        full,
    ) && r.kept_right(q) by {
        lemma_relocated_node(t, r, from, to, new, q);
        assert(q != to);
        assert(t.has_node(q) && keeps_hash(t, q));
        assert(same_below(t, r, q)) by {
            assert forall|p: Seq<u8>| q.is_prefix_of(p) implies #[trigger] t.has_node(p)
                == r.has_node(p) && (t.has_node(p) ==> alike(t.node(p), r.node(p)) && (t.node(
                p,
            ) matches NodeModel::Leaf { key, .. } ==> t.source_at(p).values[p + key] == r.source_at(
                p,
            ).values[p + key])) by {
                lemma_relocated_node(t, r, from, to, new, p);
                if p == to {
                    lemma_prefix_transitive(q, to, full);
                }
                if Some(p) == from {
                    assert(q.is_prefix_of(from->0));
                }
                if t.has_node(p) && t.node(p) is Leaf {
                    lemma_relocated_value(t, r, from, to, new, p);
                }
            }
        }
        lemma_stays_right(t, r, q);
    }
}

/// Relocation leaves the value of every other leaf where it is.
pub proof fn lemma_relocated_value(
    t: TrieModel,
    r: TrieModel,
    from: Option<Seq<u8>>,
    to: Seq<u8>,
    new: NodeModel,
    p: Seq<u8>,
)
    requires
        t.sound(),
        may_relocate(t, from, to, new),
        relocated(t, r, from, to, new),
        t.has_node(p),
        t.node(p) is Leaf,
        Some(p) != from,
    ensures
        ({
            let full = p + t.node(p)->Leaf_key;
            &&& r.source_at(p).values.contains_key(full) == t.source_at(p).values.contains_key(full)
            &&& r.source_at(p).values[full] == t.source_at(p).values[full]
        }),
{
    let full = p + t.node(p)->Leaf_key;
    if new is Leaf && full == to + new->Leaf_key {
        lemma_leaf_unique(t, p, from->0);
    }
    if !is_upper(p) {
        assert(t.lower[lower_index_of(p)] is Some);
    }
}

// Taking a leaf out.

/// Once a leaf was taken out, the hashes off the way to it are right, and none is kept on the way.
proof fn lemma_unlinked_right(t: TrieModel, full: Seq<u8>)
    requires
        t.sound(),
        t.true_hashes(),
        t.removable(full),
        t.walk(full, Seq::empty(), None, None).end is Leaf,
    ensures
        ({
            let walk = t.walk(full, Seq::empty(), None, None);
            right_off(walk.trie.unlinked(full, walk.end->Leaf_path), full)
        }),
{
    let root = Seq::<u8>::empty();
    let walk = t.walk(full, root, None, None);
    let w = walk.trie;
    let path = walk.end->Leaf_path;
    let u = w.unlinked(full, path);
    lemma_prefix_pointwise(root, full);
    lemma_walk(t, full, root, None, None);
    lemma_walk_alike(t, full, root, None, None);
    lemma_passes_below(t, full, root, path);
    lemma_alike_node(t, w, path);
    assert forall|q: Seq<u8>| #[trigger] u.has_node(q) && keeps_hash(u, q) implies !q.is_prefix_of(
        full,
    ) && u.kept_right(q) by {
        lemma_unlinked(w, full, path, q);
        lemma_walk_nodes(t, full, root, None, None, q);
        lemma_alike_node(t, w, q);
        if t.passes(full, root, q) {
            lemma_passes_below(t, full, root, q);
            if t.node(q) is Leaf {
                lemma_passes_find(t, full, root, q, full);
                assert(q == path);
            }
        }
        if q.is_prefix_of(full) {
            lemma_linked_passes(t, full, q);
        }
        assert(t.node(q) == u.node(q));
        assert(same_below(t, u, q)) by {
            assert forall|p: Seq<u8>| q.is_prefix_of(p) implies #[trigger] t.has_node(p)
                == u.has_node(p) && (t.has_node(p) ==> alike(t.node(p), u.node(p)) && (t.node(
                p,
            ) matches NodeModel::Leaf { key, .. } ==> t.source_at(p).values[p + key] == u.source_at(
                p,
            ).values[p + key])) by {
                lemma_unlinked(w, full, path, p);
                lemma_alike_node(t, w, p);
                if p == path {
                    lemma_prefix_transitive(q, path, full);
                }
                if t.has_node(p) && t.node(p) is Leaf && p + t.node(p)->Leaf_key == full {
                    lemma_leaf_unique(t, p, path);
                }
            }
        }
        lemma_stays_right(t, u, q);
    }
}

// Revealing.

/// Below a blinded node there is none.
pub proof fn lemma_blind_bottom(t: TrieModel, path: Seq<u8>, q: Seq<u8>)
    requires
        t.linked(),
        t.has_node(path),
        t.node(path) is Hash,
        path.is_prefix_of(q),
        t.has_node(q),
    ensures
        q == path,
{
    let root = Seq::<u8>::empty();
    lemma_prefix_pointwise(q, q);
    lemma_prefix_pointwise(root, q);
    lemma_linked_passes(t, q, path);
    lemma_linked_passes(t, q, q);
    lemma_passes_apart(t, q, root, path, q);
}

/// Of two nodes on the way to a leaf, the deeper one is on the way from the other.
pub proof fn lemma_passes_apart(
    t: TrieModel,
    full: Seq<u8>,
    at: Seq<u8>,
    middle: Seq<u8>,
    through: Seq<u8>,
)
    requires
        t.passes(full, at, middle),
        t.passes(full, at, through),
        at.is_prefix_of(full),
        middle.len() <= through.len(),
    ensures
        t.passes(full, middle, through),
    decreases full.len() - at.len(),
{
    if at != middle {
        lemma_passes_below(t, full, at, middle);
        lemma_prefix_pointwise(at, middle);
        if at == through {
            assert(at =~= middle);
        } else {
            let next = next_to_leaf(at, t.node(at), full)->Ok_0->ContinueFrom_0;
            lemma_prefix_pointwise(at, full);
            lemma_prefix_pointwise(next, full);
            lemma_passes_apart(t, full, next, middle, through);
        }
    }
}

/// Nodes that are new in a subtrie are blinded or keep no hash.
spec fn new_unhashed(before: SubtrieModel, after: SubtrieModel) -> bool {
    forall|q: Seq<u8>| #[trigger]
        after.nodes.contains_key(q) && !before.nodes.contains_key(q) ==> after.nodes[q] is Hash
            || after.nodes[q].known_hash() is None
}

/// Revealing the children of a branch changes nothing that is below none of them.
pub proof fn lemma_kids_leave(
    s: SubtrieModel,
    path: Seq<u8>,
    stack: Seq<Seq<u8>>,
    nibbles: Seq<u8>,
    from: int,
    q: Seq<u8>,
)
    requires
        0 <= from,
        forall|j: int|
            from <= j < nibbles.len() ==> !(#[trigger] path.push(nibbles[j])).is_prefix_of(q),
    ensures
        ({
            let after = s.reveal_kids(path, stack, nibbles, from).subtrie;
            &&& after.nodes.contains_key(q) == s.nodes.contains_key(q)
            &&& after.nodes[q] == s.nodes[q]
        }),
    decreases nibbles.len() - from,
{
    let place = stack.len() - nibbles.len() + from;
    if !(from >= nibbles.len() || !(0 <= place < stack.len())) {
        let kid = path.push(nibbles[from]);
        assert(!kid.is_prefix_of(q));
        let next = if same_level(path, kid) {
            lemma_child_below(s, kid, stack[place]);
            s.reveal_child(kid, stack[place])
        } else {
            s.ok()
        };
        assert(s.nodes.contains_key(q) == next.subtrie.nodes.contains_key(q));
        if next.result is Ok {
            lemma_kids_leave(next.subtrie, path, stack, nibbles, from + 1, q);
        }
    }
}

/// Of what revealing adds, all is blinded or keeps no hash.
proof fn lemma_reveal_unhashed(
    s: SubtrieModel,
    path: Seq<u8>,
    node: TrieNodeModel,
    masks: MasksModel,
)
    ensures
        new_unhashed(s, s.with_revealed(path, node, masks).subtrie),
    decreases child_bound(node), 2int, 0int,
{
    if !(s.nodes.contains_key(path) && !(s.nodes[path] is Hash)) {
        match node {
            TrieNodeModel::Branch { stack, mask } => {
                if !(path.len() >= MAX_PATH_LEN && child_nibbles(mask).len() > 0) {
                    lemma_nibbles_below(mask, 16);
                    lemma_kids_unhashed(s, path, stack, child_nibbles(mask), 0);
                }
            },
            TrieNodeModel::Extension { key, child } => {
                if path.len() + key.len() <= MAX_PATH_LEN && key.len() > 0 && same_level(
                    path,
                    path + key,
                ) {
                    lemma_child_unhashed(s, path + key, child);
                    lemma_child_off(s, path, key, child);
                }
            },
            _ => {},
        }
    }
}

/// Of what revealing the children of a branch adds, all is blinded or keeps no hash.
proof fn lemma_kids_unhashed(
    s: SubtrieModel,
    path: Seq<u8>,
    stack: Seq<Seq<u8>>,
    nibbles: Seq<u8>,
    from: int,
)
    requires
        0 <= from,
        forall|i: int, j: int| 0 <= i < j < nibbles.len() ==> nibbles[i] < nibbles[j],
    ensures
        new_unhashed(s, s.reveal_kids(path, stack, nibbles, from).subtrie),
    decreases widest(stack), 1int, nibbles.len() - from,
{
    let place = stack.len() - nibbles.len() + from;
    let after = s.reveal_kids(path, stack, nibbles, from).subtrie;
    if !(from >= nibbles.len() || !(0 <= place < stack.len())) {
        let kid = path.push(nibbles[from]);
        let next = if same_level(path, kid) {
            lemma_widest(stack, place);
            lemma_child_unhashed(s, kid, stack[place]);
            lemma_child_below(s, kid, stack[place]);
            s.reveal_child(kid, stack[place])
        } else {
            s.ok()
        };
        if next.result is Ok {
            lemma_kids_unhashed(next.subtrie, path, stack, nibbles, from + 1);
            assert forall|q: Seq<u8>| #[trigger]
                after.nodes.contains_key(q) && !s.nodes.contains_key(q) implies after.nodes[q] is Hash
                || after.nodes[q].known_hash() is None by {
                if next.subtrie.nodes.contains_key(q) {
                    assert(kid.is_prefix_of(q));
                    lemma_prefix_pointwise(kid, q);
                    assert forall|j: int| from + 1 <= j < nibbles.len() implies !(
                    #[trigger] path.push(nibbles[j])).is_prefix_of(q) by {
                        lemma_prefix_pointwise(path.push(nibbles[j]), q);
                        assert(kid[path.len() as int] == q[path.len() as int]);
                        assert(path.push(nibbles[j])[path.len() as int] == nibbles[j]);
                    }
                    lemma_kids_leave(next.subtrie, path, stack, nibbles, from + 1, q);
                }
            }
        }
    }
}

/// Of what revealing a child adds, all is blinded or keeps no hash.
proof fn lemma_child_unhashed(s: SubtrieModel, path: Seq<u8>, child: Seq<u8>)
    ensures
        new_unhashed(s, s.reveal_child(path, child).subtrie),
    decreases child.len(), 3int, 0int,
{
    if child.len() != 33 {
        match decoded_node(child) {
            Ok(node) => {
                if node.children_below(child.len()) {
                    lemma_child_bound(node, child.len());
                    lemma_reveal_unhashed(s, path, node, MasksModel::none());
                }
            },
            Err(_) => {},
        }
    }
}

/// A path that leaves another one at some place is below none of what lies off it.
proof fn lemma_apart(branch: Seq<u8>, child: Seq<u8>, full: Seq<u8>, q: Seq<u8>)
    requires
        child.len() == branch.len() + 1,
        branch.is_prefix_of(child),
        branch.is_prefix_of(full),
        q.is_prefix_of(child),
    ensures
        q == child || q.is_prefix_of(full),
{
    lemma_prefix_pointwise(branch, child);
    lemma_prefix_pointwise(branch, full);
    lemma_prefix_pointwise(q, child);
    lemma_prefix_pointwise(q, full);
    if q.len() == child.len() {
        assert(q =~= child);
    }
}

/// Once the only child that is left is known, the hashes off the way to the leaf are right, and none
/// is kept on the way.
proof fn lemma_known_right(
    u: TrieModel,
    full: Seq<u8>,
    branch: Seq<u8>,
    child: Seq<u8>,
    reply: Result<Option<RevealedModel>, ErrorModel>,
)
    requires
        u.sound(),
        right_off(u, full),
        u.has_node(child),
        is_path(child),
        child.len() == branch.len() + 1,
        branch.is_prefix_of(child),
        branch.is_prefix_of(full),
        branch.len() < full.len(),
        child[branch.len() as int] != full[branch.len() as int],
        child_known(u, child, reply).result is Ok,
        u.node(child) is Hash ==> child_known(u, child, reply).trie.merkle(child) == u.merkle(child),
    ensures
        right_off(child_known(u, child, reply).trie, full),
{
    if u.node(child) is Hash {
        let node = decoded_node(reply->Ok_0->Some_0.node)->Ok_0;
        let masks = reply->Ok_0->Some_0.masks;
        let v = child_known(u, child, reply).trie;
        lemma_trie_unblinded(u, child, node, masks);
        lemma_prefix_pointwise(child, full);
        lemma_prefix_pointwise(child, child);
        assert forall|q: Seq<u8>| #[trigger] v.has_node(q) && keeps_hash(v, q) implies !q.is_prefix_of(
            full,
        ) && v.kept_right(q) by {
            if q == child {
                assert(u.hashing(PrefixModel::none()).nodes[child] == u.node(child));
                assert(v.hashing(PrefixModel::none()).nodes[child] == v.node(child));
            } else if !child.is_prefix_of(q) {
                assert(u.has_node(q) == v.has_node(q));
                assert(u.has_node(q) && keeps_hash(u, q));
                lemma_known_same_below(u, v, full, branch, child, q);
                lemma_stays_right(u, v, q);
            }
        }
    }
}

/// What is neither on the way to the leaf nor below the only child that is left has the same below
/// it, once that child is known.
proof fn lemma_known_same_below(
    u: TrieModel,
    v: TrieModel,
    full: Seq<u8>,
    branch: Seq<u8>,
    child: Seq<u8>,
    q: Seq<u8>,
)
    requires
        u.has_node(child),
        child.len() == branch.len() + 1,
        branch.is_prefix_of(child),
        branch.is_prefix_of(full),
        trie_elsewhere(u, v, child),
        !q.is_prefix_of(full),
        !child.is_prefix_of(q),
    ensures
        same_below(u, v, q),
{
    assert forall|p: Seq<u8>| q.is_prefix_of(p) implies #[trigger] u.has_node(p) == v.has_node(p)
        && (u.has_node(p) ==> alike(u.node(p), v.node(p)) && (u.node(p) matches NodeModel::Leaf {
        key,
        ..
    } ==> u.source_at(p).values[p + key] == v.source_at(p).values[p + key])) by {
        lemma_prefix_pointwise(q, p);
        lemma_prefix_pointwise(q, child);
        lemma_prefix_pointwise(child, p);
        if q.is_prefix_of(child) {
            lemma_apart(branch, child, full, q);
            lemma_prefix_pointwise(child, q);
        }
        // The two paths differ at some place.
        assert(!child.is_prefix_of(p)) by {
            if child.is_prefix_of(p) && q.len() <= child.len() {
                assert(q.is_prefix_of(child));
            } else if child.is_prefix_of(p) {
                lemma_prefix_pointwise(child, q);
            }
        }
        assert(u.has_node(p) == v.has_node(p));
        if let NodeModel::Leaf { key, .. } = u.node(p) {
            let x = p + key;
            assert(!child.is_prefix_of(x)) by {
                lemma_prefix_pointwise(child, x);
                if child.is_prefix_of(x) {
                    if p.len() >= child.len() {
                        assert forall|i: int| 0 <= i < child.len() implies child[i] == p[i] by {
                            assert(x[i] == p[i]);
                        }
                    } else {
                        assert forall|i: int| 0 <= i < q.len() implies q[i] == child[i] by {
                            assert(x[i] == p[i]);
                        }
                    }
                }
            }
            if u.has_node(p) {
                assert(same_values_off(u, v, p, child));
                assert(u.source_at(p).values[x] == v.source_at(p).values[x]);
            }
        }
    }
}

/// What a reply reveals at a blinded node is the same before and after a leaf elsewhere was taken
/// out.
pub proof fn lemma_reply_same(
    t: TrieModel,
    w: TrieModel,
    full: Seq<u8>,
    path: Seq<u8>,
    child: Seq<u8>,
    reply: Result<Option<RevealedModel>, ErrorModel>,
)
    requires
        t.sound(),
        w.sound(),
        alike_tries(t, w),
        w.has_node(path),
        w.node(path) is Leaf,
        path + w.node(path)->Leaf_key == full,
        w.has_node(child),
        w.node(child) is Hash,
        is_path(child),
        !child.is_prefix_of(full),
        w.unlinked(full, path).reveal_reply(child, reply).result is Ok,
    ensures
        same_below(
            w.unlinked(full, path).reveal_reply(child, reply).trie,
            t.reveal_reply(child, reply).trie,
            child,
        ),
        w.unlinked(full, path).merkle(child) == t.merkle(child),
        t.reveal_reply(child, reply).result is Ok,
{
    let u = w.unlinked(full, path);
    let node = decoded_node(reply->Ok_0->Some_0.node)->Ok_0;
    let masks = reply->Ok_0->Some_0.masks;
    lemma_prefix_pointwise(path, full);
    lemma_prefix_pointwise(child, child);
    lemma_alike_node(t, w, child);
    lemma_unlinked(w, full, path, child);
    lemma_unlinked_sound(w, full, path);
    lemma_unlinked_agree(t, w, full, path, child);
    lemma_trie_reveal_local(u, t, child, node, masks);
    let v = u.reveal_reply(child, reply).trie;
    let r = t.reveal_reply(child, reply).trie;
    lemma_known_sound(u, child, reply);
    lemma_known_sound(t, child, reply);
    lemma_agree_same_below(v, r, child);
    assert(u.hashing(PrefixModel::none()).nodes[child] == u.node(child));
    assert(t.hashing(PrefixModel::none()).nodes[child] == t.node(child));
}

/// After the only child that is left was revealed, and the branch merged with it.
proof fn lemma_collapse_right(
    w: TrieModel,
    full: Seq<u8>,
    path: Seq<u8>,
    branch: Seq<u8>,
    ext: Option<Seq<u8>>,
    reply: Result<Option<RevealedModel>, ErrorModel>,
)
    requires
        w.unlinked(full, path).sound(),
        right_off(w.unlinked(full, path), full),
        leaf_place(w, full, path, branch, ext),
        ({
            let mask = w.mask_without(branch, path);
            let child = TrieModel::only_child(branch, mask);
            let known = child_known(w.unlinked(full, path), child, reply);
            &&& child_nibbles(mask).len() == 1
            &&& w.has_node(child)
            &&& w.node(child) !is Empty
            &&& w.child_fits(branch, ext, child)
            &&& known.result is Ok
            &&& w.node(child) is Hash ==> known.trie.merkle(child) == w.unlinked(
                full,
                path,
            ).merkle(child)
        }),
    ensures
        ({
            let child = TrieModel::only_child(branch, w.mask_without(branch, path));
            right_off(w.unlinked(full, path).child_left(branch, child, ext, reply).trie, full)
        }),
{
    let mask = w.mask_without(branch, path);
    let child = TrieModel::only_child(branch, mask);
    let u = w.unlinked(full, path);
    lemma_unlinked_child(w, full, path, branch, ext, child);
    lemma_unlinked(w, full, path, child);
    lemma_prefix_pointwise(branch, child);
    lemma_prefix_pointwise(branch, full);
    lemma_nibbles_below(mask, 16);
    assert(mask.contains(child_nibbles(mask)[0]));
    assert(path[branch.len() as int] == full[branch.len() as int]);
    assert(child[branch.len() as int] != full[branch.len() as int]);
    let v = child_known(u, child, reply).trie;
    lemma_child_path(full, branch, child);
    lemma_known_right(u, full, branch, child, reply);
    lemma_known_sound(u, child, reply);
    lemma_child_known(w, full, path, branch, ext, child, reply);
    lemma_prefix_pointwise(child, branch);
    assert(v.has_node(branch) == w.has_node(branch));
    assert forall|q: Seq<u8>| #[trigger]
        v.has_node(q) && kid_paths(branch, v.node(branch)).contains(q) implies q == child by {
        lemma_only_kid(w, full, path, branch, ext, q);
    }
    lemma_merge_right(v, full, branch, child, ext);
    lemma_merged_sound(v, branch, child, ext);
    lemma_merged_all(v, branch, child, ext);
    let m = v.merged(branch, child);
    if ext is Some {
        lemma_prefix_pointwise(ext->0, branch);
        assert(m.has_node(ext->0) == v.has_node(ext->0));
    }
    lemma_ext_right(m, full, branch, ext);
}

/// After a branch was merged with its only child.
proof fn lemma_merge_right(
    v: TrieModel,
    full: Seq<u8>,
    branch: Seq<u8>,
    child: Seq<u8>,
    ext: Option<Seq<u8>>,
)
    requires
        v.sound(),
        right_off(v, full),
        collapsible(v, branch, child, ext),
        v.node(branch) is Branch,
        branch.is_prefix_of(full),
    ensures
        right_off(v.merged(branch, child), full),
{
    let node = v.node(child);
    let new = merged_branch(child.last(), node);
    let from = if takes_child(node) {
        Some(child)
    } else {
        None
    };
    lemma_prefix_pointwise(branch, child);
    assert(branch.push(child.last()) =~= child);
    if let NodeModel::Leaf { key, .. } = node {
        assert(branch + (seq![child.last()] + key) =~= child + key);
    }
    assert forall|q: Seq<u8>| #[trigger] q.is_prefix_of(child) && q != child implies q.is_prefix_of(
        full,
    ) by {
        lemma_apart(branch, child, full, q);
    }
    lemma_merged_relocated(v, branch, child);
    lemma_relocated_right(v, v.merged(branch, child), from, branch, new, full);
}

/// After an extension was merged with what became of the branch below it.
proof fn lemma_ext_right(m: TrieModel, full: Seq<u8>, branch: Seq<u8>, ext: Option<Seq<u8>>)
    requires
        m.sound(),
        right_off(m, full),
        m.has_node(branch),
        branch.is_prefix_of(full),
        ext matches Some(above) ==> {
            &&& above.len() < branch.len()
            &&& m.has_node(above)
            &&& m.node(above) is Extension
            &&& above + m.node(above)->Extension_key == branch
        },
    ensures
        right_off(m.ext_merged(ext, branch), full),
{
    if ext is Some && merged_ext(m.node(ext->0)->Extension_key, m.node(branch)) is Some {
        let above = ext->0;
        let key = m.node(above)->Extension_key;
        let joined = merged_ext(key, m.node(branch))->0;
        lemma_prefix_pointwise(above, branch);
        if let NodeModel::Leaf { key: rest, .. } = m.node(branch) {
            assert(above + (key + rest) =~= branch + rest);
        }
        lemma_prefix_transitive(above, branch, full);
        assert forall|q: Seq<u8>| #[trigger] q.is_prefix_of(branch) && q != branch implies q.is_prefix_of(
            full,
        ) by {
            lemma_prefix_transitive(q, branch, full);
        }
        lemma_ext_relocated(m, above, branch);
        lemma_relocated_right(m, m.ext_merged(ext, branch), Some(branch), above, joined, full);
    }
}

/// If every hash that nodes keep is right, that is so after a leaf was removed too.
///
/// Where that needs a blinded node, what is revealed there must be what the hash stands for.
pub proof fn lemma_removed_true(
    t: TrieModel,
    full: Seq<u8>,
    reply: Result<Option<RevealedModel>, ErrorModel>,
)
    requires
        t.sound(),
        t.true_hashes(),
        t.removable(full),
        is_path(full),
        t.leaf_removed(full, reply).result is Ok,
        t.asks(full) matches Some(child) ==> t.reveal_reply(child, reply).trie.merkle(child)
            == t.merkle(child),
    ensures
        t.leaf_removed(full, reply).trie.true_hashes(),
{
    let root = Seq::<u8>::empty();
    let walk = t.walk(full, root, None, None);
    let w = walk.trie;
    let r = t.leaf_removed(full, reply).trie;
    lemma_walk_alike(t, full, root, None, None);
    lemma_alike_sound(t, w);
    lemma_prefix_pointwise(root, full);
    lemma_walk(t, full, root, None, None);
    match walk.end {
        WalkEnd::Leaf { path, branch, ext } => {
            let u = w.unlinked(full, path);
            lemma_leaf_place(t, full);
            lemma_alike_node(t, w, path);
            lemma_unlinked_right(t, full);
            lemma_unlinked_sound(w, full, path);
            lemma_unlinked(w, full, path, path);
            if path.len() == 0 {
                assert(path =~= root);
                lemma_put_relocated(u, root, NodeModel::Empty);
                lemma_relocated_right(u, r, None, root, NodeModel::Empty, full);
            } else {
                let b = branch->0;
                let mask = w.mask_without(b, path);
                lemma_unlinked(w, full, path, b);
                if child_nibbles(mask).len() == 1 {
                    let child = TrieModel::only_child(b, mask);
                    lemma_unlinked_child(w, full, path, b, ext, child);
                    if w.node(child) is Hash {
                        lemma_prefix_pointwise(b, full);
                        lemma_nibbles_below(mask, 16);
                        assert(mask.contains(child_nibbles(mask)[0]));
                        lemma_prefix_pointwise(child, full);
                        assert(!child.is_prefix_of(full)) by {
                            assert(path[b.len() as int] == full[b.len() as int]);
                            assert(child[b.len() as int] != full[b.len() as int]);
                        }
                        lemma_child_path(full, b, child);
                        lemma_reply_same(t, w, full, path, child, reply);
                        lemma_merkle_same(
                            u.reveal_reply(child, reply).trie,
                            t.reveal_reply(child, reply).trie,
                            child,
                        );
                    }
                    lemma_collapse_right(w, full, path, b, ext, reply);
                } else {
                    let new = NodeModel::new_branch(mask);
                    lemma_put_relocated(u, b, new);
                    lemma_relocated_right(u, u.put_node(b, new), None, b, new, full);
                    lemma_put_node(u, b, new, b);
                    if ext is Some {
                        lemma_unlinked(w, full, path, ext->0);
                        lemma_prefix_pointwise(ext->0, b);
                        lemma_put_node(u, b, new, ext->0);
                    }
                    assert(r == u.put_node(b, new));
                }
            }
            lemma_right_off(r, full);
        },
        _ => {
            lemma_walked_true(t, w);
        },
    }
}

/// Dropping hashes keeps all others right.
proof fn lemma_walked_true(t: TrieModel, w: TrieModel)
    requires
        t.true_hashes(),
        same_shape(t, w),
    ensures
        w.true_hashes(),
{
    assert forall|q: Seq<u8>| #[trigger] w.has_node(q) implies w.kept_right(q) by {
        assert(t.has_node(q) == w.has_node(q));
        assert(same_below(t, w, q));
        lemma_merkle_same(t, w, q);
        assert(t.kept_right(q));
        assert(t.hashing(PrefixModel::none()).nodes[q] == t.node(q));
        assert(w.hashing(PrefixModel::none()).nodes[q] == w.node(q));
    }
}

// Revealing a node.

/// Whether the subtries that the node at `p` belongs to keep the same values but for full paths
/// below a path.
pub open spec fn same_values_off(a: TrieModel, b: TrieModel, p: Seq<u8>, path: Seq<u8>) -> bool {
    forall|x: Seq<u8>|
        !path.is_prefix_of(x) ==> #[trigger] a.source_at(p).values[x] == b.source_at(p).values[x]
}

/// Whether two tries are the same but for what lies below a path.
pub open spec fn trie_elsewhere(a: TrieModel, b: TrieModel, path: Seq<u8>) -> bool {
    forall|p: Seq<u8>|
        !path.is_prefix_of(p) ==> #[trigger] a.has_node(p) == b.has_node(p) && (a.has_node(p)
            ==> a.node(p) == b.node(p) && same_values_off(a, b, p, path))
}

/// Whether all nodes strictly below a path are blinded or keep no hash.
pub open spec fn unhashed_below(t: TrieModel, path: Seq<u8>) -> bool {
    forall|q: Seq<u8>| #[trigger]
        t.has_node(q) && path.is_prefix_of(q) && q != path ==> !keeps_hash(t, q)
}

/// Whether there is no node at a path nor below it.
spec fn bare(t: TrieModel, path: Seq<u8>) -> bool {
    forall|q: Seq<u8>| path.is_prefix_of(q) ==> !#[trigger] t.has_node(q)
}

/// One step of revealing, at a path.
proof fn lemma_step_elsewhere(t: TrieModel, path: Seq<u8>, at: Seq<u8>, s: SubtrieModel)
    requires
        t.has_place(at),
        path.is_prefix_of(at),
        same_elsewhere(t.subtrie_at(at), s, at),
    ensures
        trie_elsewhere(t, t.with_subtrie_at(at, s), path),
{
    let before = t.subtrie_at(at);
    let after = t.with_subtrie_at(at, s);
    assert forall|p: Seq<u8>| !path.is_prefix_of(p) implies #[trigger] t.has_node(p)
        == after.has_node(p) && (t.has_node(p) ==> t.node(p) == after.node(p) && same_values_off(
        t,
        after,
        p,
        path,
    )) by {
        if at.is_prefix_of(p) {
            lemma_prefix_transitive(path, at, p);
        }
        assert(before.nodes.contains_key(p) == s.nodes.contains_key(p));
        if t.has_node(p) {
            assert forall|x: Seq<u8>| !path.is_prefix_of(x) implies #[trigger] t.source_at(p).values[x]
                == after.source_at(p).values[x] by {
                if at.is_prefix_of(x) {
                    lemma_prefix_transitive(path, at, x);
                }
                assert(before.src.values.contains_key(x) == s.src.values.contains_key(x));
            }
        }
    }
}

/// Being the same but below a path is transitive.
proof fn lemma_elsewhere_transitive(a: TrieModel, b: TrieModel, c: TrieModel, path: Seq<u8>)
    requires
        trie_elsewhere(a, b, path),
        trie_elsewhere(b, c, path),
    ensures
        trie_elsewhere(a, c, path),
{
    assert forall|p: Seq<u8>| !path.is_prefix_of(p) implies #[trigger] a.has_node(p) == c.has_node(p)
        && (a.has_node(p) ==> a.node(p) == c.node(p) && same_values_off(a, c, p, path)) by {
        assert(a.has_node(p) == b.has_node(p));
        assert(b.has_node(p) == c.has_node(p));
        if a.has_node(p) {
            assert forall|x: Seq<u8>| !path.is_prefix_of(x) implies #[trigger] a.source_at(p).values[x]
                == c.source_at(p).values[x] by {
                assert(a.source_at(p).values[x] == b.source_at(p).values[x]);
            }
        }
    }
}

/// A step of revealing a child, where there is no node yet at the child nor below it.
proof fn lemma_step_unhashed(t: TrieModel, path: Seq<u8>, at: Seq<u8>, child: Seq<u8>)
    requires
        t.has_place(at),
        unhashed_below(t, path),
        bare(t, at),
    ensures
        unhashed_below(t.after(at, t.subtrie_at(at).reveal_child(at, child)).trie, path),
{
    let before = t.subtrie_at(at);
    let s = settled(at, before.reveal_child(at, child));
    let after = t.with_subtrie_at(at, s);
    lemma_child_below(before, at, child);
    lemma_child_unhashed(before, at, child);
    assert forall|q: Seq<u8>| #[trigger]
        after.has_node(q) && path.is_prefix_of(q) && q != path implies !keeps_hash(after, q) by {
        if at.is_prefix_of(q) {
            assert(!t.has_node(q));
        } else {
            assert(before.nodes.contains_key(q) == s.nodes.contains_key(q));
            assert(t.has_node(q));
        }
    }
}

/// Revealing children in lower subtries, where there are no nodes yet.
proof fn lemma_children_elsewhere(t: TrieModel, path: Seq<u8>, kids: Seq<LowerChild>)
    requires
        t.lower.len() == NUM_LOWER_SUBTRIES,
        all_low(path, kids),
        apart(kids),
        forall|i: int| 0 <= i < kids.len() ==> bare(t, (#[trigger] kids[i]).path),
        unhashed_below(t, path),
    ensures
        ({
            let after = t.with_children(kids).trie;
            &&& trie_elsewhere(t, after, path)
            &&& unhashed_below(after, path)
        }),
    decreases kids.len(),
{
    if kids.len() > 0 {
        let kid = kids[0].path;
        let child = kids[0].rlp;
        let s = t.subtrie_at(kid);
        let revealed = s.reveal_child(kid, child);
        let next = t.with_child(kids[0]);
        let rest = kids.skip(1);
        assert(low_below(path, kids[0]));
        assert(kid[0] < 16 && kid[1] < 16);
        lemma_child_below(s, kid, child);
        lemma_child_grows(s, kid, child);
        lemma_step_elsewhere(t, path, kid, settled(kid, revealed));
        lemma_prefix_pointwise(kid, kid);
        lemma_step_elsewhere(t, kid, kid, settled(kid, revealed));
        lemma_step_unhashed(t, path, kid, child);
        if next.result is Ok {
            assert forall|i: int| 0 <= i < rest.len() implies low_below(path, #[trigger] rest[i])
                && bare(next.trie, rest[i].path) by {
                let other = rest[i].path;
                assert(rest[i] == kids[i + 1]);
                assert(low_below(path, kids[i + 1]));
                assert(bare(t, other));
                assert(!kid.is_prefix_of(other) && !other.is_prefix_of(kid));
                assert forall|q: Seq<u8>| other.is_prefix_of(q) implies !#[trigger] next.trie.has_node(
                    q,
                ) by {
                    if kid.is_prefix_of(q) {
                        lemma_prefixes_meet(kid, other, q);
                    }
                    assert(t.has_node(q) == next.trie.has_node(q));
                }
            }
            lemma_children_elsewhere(next.trie, path, rest);
            lemma_elsewhere_transitive(t, next.trie, next.trie.with_children(rest).trie, path);
        }
    }
}

/// Of two paths that start the same longer one, one starts the other.
pub proof fn lemma_prefixes_meet(a: Seq<u8>, b: Seq<u8>, q: Seq<u8>)
    requires
        a.is_prefix_of(q),
        b.is_prefix_of(q),
    ensures
        a.is_prefix_of(b) || b.is_prefix_of(a),
{
    lemma_prefix_pointwise(a, q);
    lemma_prefix_pointwise(b, q);
    lemma_prefix_pointwise(a, b);
    lemma_prefix_pointwise(b, a);
    if a.len() <= b.len() {
        assert forall|i: int| 0 <= i < a.len() implies a[i] == b[i] by {
            assert(a[i] == q[i] && b[i] == q[i]);
        }
    } else {
        assert forall|i: int| 0 <= i < b.len() implies b[i] == a[i] by {
            assert(a[i] == q[i] && b[i] == q[i]);
        }
    }
}

/// Whether a trie is another one after a blinded node at a path was revealed: nothing but what lies
/// below it has changed, what is new there is blinded or keeps no hash, and the node at the path
/// keeps the hash of the blinded one.
pub open spec fn unblinded(t: TrieModel, r: TrieModel, path: Seq<u8>) -> bool {
    &&& trie_elsewhere(t, r, path)
    &&& unhashed_below(r, path)
    &&& r.has_node(path)
    &&& r.node(path) !is Hash
    &&& r.node(path) is Empty || r.node(path).known_hash() == Some(t.node(path)->Hash_0)
}

/// Revealing a blinded node in the subtrie that its path belongs to.
proof fn lemma_own_unblinded(
    t: TrieModel,
    path: Seq<u8>,
    node: TrieNodeModel,
    masks: MasksModel,
)
    requires
        t.sound(),
        t.has_place(path),
        t.has_node(path),
        t.node(path) is Hash,
        t.subtrie_at(path).with_revealed(path, node, masks).result is Ok,
    ensures
        ({
            let own = t.after(path, t.subtrie_at(path).with_revealed(path, node, masks)).trie;
            &&& unblinded(t, own, path)
            &&& own.placed()
            &&& own.homed()
            &&& own.valued()
            &&& forall|kid: Seq<u8>|
                is_upper(path) && !is_upper(kid) && path.is_prefix_of(kid) ==> #[trigger] bare(
                    own,
                    kid,
                )
        }),
{
    let s = t.subtrie_at(path);
    let revealed = s.with_revealed(path, node, masks);
    let own = t.after(path, revealed).trie;
    lemma_prefix_pointwise(path, path);
    lemma_revealed_node(s, path, node, masks);
    lemma_reveal_unhashed(s, path, node, masks);
    lemma_revealed_at(s, path, node, masks);
    lemma_step_elsewhere(t, path, path, settled(path, revealed));
    lemma_after(t, path, settled(path, revealed));
    assert forall|q: Seq<u8>| path.is_prefix_of(q) && q != path implies !#[trigger] t.has_node(q) by {
        if t.has_node(q) {
            lemma_blind_bottom(t, path, q);
        }
    }
    assert(unhashed_below(own, path)) by {
        assert forall|q: Seq<u8>| #[trigger]
            own.has_node(q) && path.is_prefix_of(q) && q != path implies !keeps_hash(own, q) by {
            assert(!t.has_node(q));
            assert(revealed.subtrie.nodes.contains_key(q) && !s.nodes.contains_key(q));
        }
    }
    assert forall|kid: Seq<u8>|
        is_upper(path) && !is_upper(kid) && path.is_prefix_of(kid) implies #[trigger] bare(
        own,
        kid,
    ) by {
        lemma_bare_below(t, own, path, kid, settled(path, revealed));
    }
}

/// Going on to reveal below a node that has been revealed.
proof fn lemma_unblinded_on(t: TrieModel, own: TrieModel, after: TrieModel, path: Seq<u8>)
    requires
        unblinded(t, own, path),
        trie_elsewhere(own, after, path),
        unhashed_below(after, path),
        trie_grown(own, after),
    ensures
        unblinded(t, after, path),
{
    lemma_elsewhere_transitive(t, own, after, path);
    assert(own.has_node(path));
}

/// Revealing a blinded node changes nothing but what lies below it; what it adds is blinded or keeps
/// no hash; and the hash of the blinded node is kept in its place.
pub proof fn lemma_trie_unblinded(
    t: TrieModel,
    path: Seq<u8>,
    node: TrieNodeModel,
    masks: MasksModel,
)
    requires
        t.sound(),
        is_path(path),
        t.has_node(path),
        t.node(path) is Hash,
        t.with_revealed(path, node, masks).result is Ok,
    ensures
        unblinded(t, t.with_revealed(path, node, masks).trie, path),
{
    let own = t.after(path, t.subtrie_at(path).with_revealed(path, node, masks)).trie;
    let after = t.with_revealed(path, node, masks).trie;
    if is_upper(path) {
        let kids = t.lower_kids(path, node);
        lemma_kids_low(t, path, node);
        lemma_kids_apart(t, path, node);
        lemma_children_after(t, path, node, masks);
        lemma_own_unblinded(t, path, node, masks);
        assert forall|i: int| 0 <= i < kids.len() implies bare(own, (#[trigger] kids[i]).path) by {
            assert(low_below(path, kids[i]));
        }
        lemma_children_elsewhere(own, path, kids);
        lemma_with_children(own, path, kids);
        lemma_unblinded_on(t, own, after, path);
    } else {
        assert(path[0] < 16 && path[1] < 16);
        lemma_own_unblinded(t, path, node, masks);
    }
}

/// Revealing a blinded node in the upper subtrie adds nothing in the lower ones.
proof fn lemma_bare_below(
    t: TrieModel,
    own: TrieModel,
    path: Seq<u8>,
    kid: Seq<u8>,
    s: SubtrieModel,
)
    requires
        own == t.with_subtrie_at(path, s),
        is_upper(path),
        !is_upper(kid),
        path.is_prefix_of(kid),
        forall|q: Seq<u8>| path.is_prefix_of(q) && q != path ==> !#[trigger] t.has_node(q),
    ensures
        bare(own, kid),
{
    assert forall|q: Seq<u8>| kid.is_prefix_of(q) implies !#[trigger] own.has_node(q) by {
        lemma_prefix_transitive(path, kid, q);
        lemma_prefix_pointwise(kid, q);
        assert(own.has_node(q) == t.has_node(q));
    }
}

/// The way to a node that is there leads past all nodes above it.
pub proof fn lemma_way_leads_on(t: TrieModel, path: Seq<u8>, q: Seq<u8>)
    requires
        t.linked(),
        t.has_node(path),
        t.has_node(q),
        q.is_prefix_of(path),
        q != path,
    ensures
        t.node(q) is Extension || t.node(q) is Branch,
        t.node(q) matches NodeModel::Extension { key, .. } ==> (q + key).is_prefix_of(path),
{
    let root = Seq::<u8>::empty();
    lemma_prefix_pointwise(path, path);
    lemma_prefix_pointwise(root, path);
    lemma_prefix_pointwise(q, path);
    lemma_linked_passes(t, path, path);
    lemma_linked_passes(t, path, q);
    lemma_passes_apart(t, path, root, q, path);
}

/// If what is revealed below a node stands for the same, so does every node that is not below it.
proof fn lemma_merkle_replaced(t: TrieModel, r: TrieModel, path: Seq<u8>, q: Seq<u8>)
    requires
        t.linked(),
        t.has_node(path),
        trie_elsewhere(t, r, path),
        r.merkle(path) == t.merkle(path),
        t.has_node(q),
        q == path || !path.is_prefix_of(q),
    ensures
        r.merkle(q) == t.merkle(q),
    decreases MAX_PATH_LEN - q.len(),
{
    if q != path {
        let g = t.hashing(PrefixModel::none());
        let h = r.hashing(PrefixModel::none());
        assert(t.has_node(q) == r.has_node(q));
        assert(g.nodes[q] == t.node(q) && h.nodes[q] == r.node(q));
        let kids = g.all_kids(q);
        assert(kids == h.all_kids(q));
        lemma_prefix_pointwise(q, path);
        lemma_prefix_pointwise(path, q);
        if q.is_prefix_of(path) {
            lemma_way_leads_on(t, path, q);
        }
        lemma_kid_paths(q, t.node(q));
        assert forall|i: int| 0 <= i < kids.len() implies g.plain_kids(q)[i] == h.plain_kids(q)[i] by {
            let kid = kids[i];
            assert(kid == kid_paths(q, t.node(q))[i]);
            if deeper(q, kid) && kid != path {
                assert(q.is_prefix_of(kid));
                lemma_prefix_pointwise(q, kid);
                lemma_prefix_pointwise(path, kid);
                assert(!path.is_prefix_of(kid)) by {
                    if path.is_prefix_of(kid) {
                        if q.len() <= path.len() {
                            assert(q.is_prefix_of(path));
                        }
                        lemma_spanned(t, path, q, i);
                    }
                }
                assert(t.has_node(kid) == r.has_node(kid));
                if t.has_node(kid) {
                    lemma_merkle_replaced(t, r, path, kid);
                }
            }
        }
        assert(g.plain_kids(q) =~= h.plain_kids(q));
        if let NodeModel::Leaf { key, .. } = t.node(q) {
            let x = q + key;
            assert(!path.is_prefix_of(x)) by {
                lemma_prefix_pointwise(path, x);
                if path.is_prefix_of(x) {
                    if path.len() <= q.len() {
                        assert forall|i: int| 0 <= i < path.len() implies path[i] == q[i] by {
                            assert(x[i] == q[i]);
                        }
                    } else {
                        assert forall|i: int| 0 <= i < q.len() implies q[i] == path[i] by {
                            assert(x[i] == q[i]);
                        }
                    }
                }
            }
            assert(t.source_at(q).values[x] == r.source_at(q).values[x]);
        }
    }
}

/// No child of a node above another one lies strictly below that.
proof fn lemma_spanned(t: TrieModel, path: Seq<u8>, q: Seq<u8>, i: int)
    requires
        t.linked(),
        t.has_node(path),
        t.has_node(q),
        q != path,
        !path.is_prefix_of(q),
        0 <= i < kid_paths(q, t.node(q)).len(),
        path.is_prefix_of(kid_paths(q, t.node(q))[i]),
    ensures
        kid_paths(q, t.node(q))[i] == path,
{
    let kid = kid_paths(q, t.node(q))[i];
    lemma_kid_paths(q, t.node(q));
    assert(q.is_prefix_of(kid));
    lemma_prefix_pointwise(q, kid);
    lemma_prefix_pointwise(path, kid);
    lemma_prefix_pointwise(q, path);
    lemma_prefix_pointwise(path, q);
    assert(q.len() < path.len() && q.is_prefix_of(path));
    lemma_way_leads_on(t, path, q);
    match t.node(q) {
        NodeModel::Extension { key, .. } => {
            assert(kid == q + key);
            lemma_prefix_pointwise(kid, path);
            assert(kid =~= path);
        },
        NodeModel::Branch { mask, .. } => {
            assert(kid == q.push(child_nibbles(mask)[i]));
            assert(kid =~= path);
        },
        _ => {},
    }
}

/// If every hash that nodes keep is right, that is so after a blinded node was revealed too, and the
/// Merkle root that the trie stands for is the same, if what is revealed is what the hash of the
/// blinded node stands for.
pub proof fn lemma_reveal_true(t: TrieModel, path: Seq<u8>, node: TrieNodeModel, masks: MasksModel)
    requires
        t.sound(),
        t.true_hashes(),
        is_path(path),
        t.has_node(path),
        t.node(path) is Hash,
        t.with_revealed(path, node, masks).result is Ok,
        t.with_revealed(path, node, masks).trie.merkle(path) == t.merkle(path),
    ensures
        t.with_revealed(path, node, masks).trie.true_hashes(),
        t.with_revealed(path, node, masks).trie.merkle_root() == t.merkle_root(),
{
    let r = t.with_revealed(path, node, masks).trie;
    let root = Seq::<u8>::empty();
    lemma_trie_unblinded(t, path, node, masks);
    assert(t.hashing(PrefixModel::none()).nodes[path] == t.node(path));
    assert(r.hashing(PrefixModel::none()).nodes[path] == r.node(path));
    assert forall|q: Seq<u8>| #[trigger] r.has_node(q) implies r.kept_right(q) by {
        assert(r.hashing(PrefixModel::none()).nodes[q] == r.node(q));
        if keeps_hash(r, q) && q != path {
            assert(!path.is_prefix_of(q));
            assert(t.has_node(q) == r.has_node(q));
            assert(t.kept_right(q));
            assert(t.hashing(PrefixModel::none()).nodes[q] == t.node(q));
            lemma_merkle_replaced(t, r, path, q);
        }
    }
    lemma_prefix_pointwise(root, path);
    lemma_prefix_pointwise(path, root);
    lemma_linked_passes(t, path, path);
    if path.len() == 0 {
        assert(path =~= root);
    }
    lemma_merkle_replaced(t, r, path, root);
}

}
