//! Removing a leaf keeps a trie sound.

use crate::error::ErrorModel;
use crate::hash_run::{lemma_kid_paths, lemma_nibbles_below};
use crate::hashing::kid_paths;
use crate::kept_hashes::lemma_way_leads_on;
use crate::lookup::{
    child_known, leaf_place, lemma_child_known, lemma_child_path, lemma_cleared_shape,
    lemma_leaf_place, lemma_merged_all, lemma_passes_find, lemma_unlinked_child, lemma_walk,
    lemma_walk_ok_shape, Lookup,
};
use crate::model::{child_nibbles, NodeModel};
use crate::order::{lemma_prefix_pointwise, lemma_prefix_transitive};
use crate::outside::decoded_node;
use crate::path::{is_path, is_upper, lower_index_of, lower_path, NUM_LOWER_SUBTRIES};
use crate::provider::RevealedModel;
use crate::removal::{
    merged_branch, merged_ext, next_to_leaf, root_without, takes_child, NextModel, WalkEnd,
};
use crate::remove::{collapsible, lemma_put_node, lemma_unlinked};
use crate::soundness::{
    alike_subtries, alike_tries, lemma_alike_sound, lemma_alike_transitive, lemma_root_leads,
    lemma_trie_reveal,
};
use crate::subtrie::SubtrieModel;
use crate::trie::TrieModel;
use vstd::prelude::*;

verus! {

// No two leaves have the same full path.

/// A way to a node goes on as the way from that node on.
proof fn lemma_passes_on(
    t: TrieModel,
    full: Seq<u8>,
    at: Seq<u8>,
    middle: Seq<u8>,
    through: Seq<u8>,
)
    requires
        t.passes(full, at, middle),
        t.passes(full, middle, through),
    ensures
        t.passes(full, at, through),
    decreases full.len() - at.len(),
{
    if at != middle {
        let next = next_to_leaf(at, t.node(at), full)->Ok_0->ContinueFrom_0;
        lemma_passes_on(t, full, next, middle, through);
    }
}

/// Where each node is a child of another one, each node is on the way to what lies below it.
pub proof fn lemma_linked_passes(t: TrieModel, full: Seq<u8>, q: Seq<u8>)
    requires
        t.linked(),
        t.has_node(q),
        q.is_prefix_of(full),
    ensures
        t.passes(full, Seq::empty(), q),
    decreases q.len(),
{
    lemma_prefix_pointwise(q, full);
    if q.len() == 0 {
        assert(q =~= Seq::<u8>::empty());
    } else {
        assert(t.parented(q));
        let a = choose|a: Seq<u8>| #[trigger]
            t.has_node(a) && a.len() < q.len() && kid_paths(a, t.node(a)).contains(q);
        let kids = kid_paths(a, t.node(a));
        let i = kids.index_of(q);
        lemma_kid_paths(a, t.node(a));
        assert(a.is_prefix_of(kids[i]));
        lemma_prefix_transitive(a, q, full);
        lemma_linked_passes(t, full, a);
        match t.node(a) {
            NodeModel::Branch { mask, .. } => {
                lemma_nibbles_below(mask, 16);
                assert(q == a.push(child_nibbles(mask)[i]));
                assert(full[a.len() as int] == q[a.len() as int]);
            },
            _ => {},
        }
        assert(next_to_leaf(a, t.node(a), full) == Ok::<NextModel, ErrorModel>(
            NextModel::ContinueFrom(q),
        ));
        assert(t.passes(full, q, q));
        assert(t.passes(full, a, q));
        lemma_passes_on(t, full, Seq::empty(), a, q);
    }
}

/// Where each node is a child of another one, no two leaves have the same full path.
pub proof fn lemma_leaf_unique(t: TrieModel, p: Seq<u8>, q: Seq<u8>)
    requires
        t.linked(),
        t.has_node(p),
        t.has_node(q),
        t.node(p) is Leaf,
        t.node(q) is Leaf,
        p + t.node(p)->Leaf_key == q + t.node(q)->Leaf_key,
    ensures
        p == q,
{
    let root = Seq::<u8>::empty();
    let full = p + t.node(p)->Leaf_key;
    lemma_prefix_pointwise(p, full);
    lemma_prefix_pointwise(q, full);
    lemma_prefix_pointwise(root, full);
    lemma_linked_passes(t, full, p);
    lemma_linked_passes(t, full, q);
    lemma_passes_find(t, full, root, p, full);
    lemma_passes_find(t, full, root, q, full);
    assert(t.find(full, p) == Lookup::At(p));
    assert(t.find(full, q) == Lookup::At(q));
}

// The walk to the leaf.

/// Dropping the hash of a node leaves all else as it is.
pub proof fn lemma_cleared_alike(t: TrieModel, at: Seq<u8>)
    requires
        t.has_node(at),
    ensures
        alike_tries(t, t.put_node(at, t.node(at).with_hash(None))),
{
    let cleared = t.put_node(at, t.node(at).with_hash(None));
    assert(alike_subtries(t.upper, cleared.upper));
    assert forall|i: int| 0 <= i < t.lower.len() implies match #[trigger] t.lower[i] {
        Some(subtrie) => cleared.lower[i] is Some && alike_subtries(subtrie, cleared.lower[i]->0),
        None => cleared.lower[i] is None,
    } by {
        if t.lower[i] is Some {
            assert(alike_subtries(t.lower[i]->0, cleared.lower[i]->0));
        }
    }
}

/// A walk leaves all nodes and values as they are, but for hashes that nodes keep.
pub proof fn lemma_walk_alike(
    t: TrieModel,
    full: Seq<u8>,
    at: Seq<u8>,
    branch: Option<Seq<u8>>,
    ext: Option<Seq<u8>>,
)
    requires
        t.walk_ok(full, at),
    ensures
        alike_tries(t, t.walk(full, at, branch, ext).trie),
    decreases full.len() - at.len(),
{
    let node = t.node(at);
    match next_to_leaf(at, node, full) {
        Ok(NextModel::ContinueFrom(next)) => {
            let cleared = t.put_node(at, node.with_hash(None));
            lemma_cleared_shape(t, at);
            lemma_cleared_alike(t, at);
            lemma_walk_ok_shape(t, cleared, full, next);
            let (b, e) = if node is Branch {
                (
                    Some(at),
                    if branch is Some && ext is Some && branch->0.len() > ext->0.len() {
                        None
                    } else {
                        ext
                    },
                )
            } else {
                (branch, Some(at))
            };
            lemma_walk_alike(cleared, full, next, b, e);
            lemma_alike_transitive(t, cleared, cleared.walk(full, next, b, e).trie);
        },
        _ => {
            assert(alike_tries(t, t));
        },
    }
}

// Taking the leaf out.

/// Dropping a leaf and its value keeps leaves and values together, if no other leaf has the same
/// full path.
proof fn lemma_drop_leaf_valued(s: SubtrieModel, after: SubtrieModel, path: Seq<u8>, full: Seq<u8>)
    requires
        s.valued(),
        s.nodes.contains_key(path),
        s.nodes[path] is Leaf,
        path + s.nodes[path]->Leaf_key == full,
        after.nodes == s.nodes.remove(path),
        after.src.values == s.src.values.remove(full),
        forall|p: Seq<u8>| #[trigger]
            s.nodes.contains_key(p) && (s.nodes[p] matches NodeModel::Leaf { key, .. } && p + key
                == full) ==> p == path,
    ensures
        after.valued(),
{
    assert forall|p: Seq<u8>| #[trigger] after.nodes.contains_key(p) implies (
    after.nodes[p] matches NodeModel::Leaf { key, .. } ==> after.src.values.contains_key(p + key)) by {
        assert(s.nodes.contains_key(p));
    }
    assert forall|x: Seq<u8>| #[trigger] after.src.values.contains_key(x) implies after.has_leaf(x) by {
        assert(s.src.values.contains_key(x));
        let p = choose|p: Seq<u8>| #[trigger]
            s.nodes.contains_key(p) && (s.nodes[p] matches NodeModel::Leaf { key, .. } && p + key
                == x);
        assert(after.nodes.contains_key(p));
    }
}

/// All leaves of a subtrie have different full paths, where those of the trie have.
proof fn lemma_unique_in(t: TrieModel, path: Seq<u8>)
    requires
        t.homed(),
        t.linked(),
        t.has_node(path),
        t.node(path) is Leaf,
    ensures
        forall|p: Seq<u8>| #[trigger]
            t.subtrie_at(path).nodes.contains_key(p) && (
            t.subtrie_at(path).nodes[p] matches NodeModel::Leaf { key, .. } && p + key == path
                + t.node(path)->Leaf_key) ==> p == path,
{
    let s = t.subtrie_at(path);
    assert forall|p: Seq<u8>| #[trigger]
        s.nodes.contains_key(p) && (s.nodes[p] matches NodeModel::Leaf { key, .. } && p + key
            == path + t.node(path)->Leaf_key) implies p == path by {
        assert(t.has_node(p) && t.node(p) == s.nodes[p]);
        lemma_leaf_unique(t, p, path);
    }
}

/// Taking a leaf out leaves each lower subtrie that has nodes with one at its own path.
proof fn lemma_unlinked_anchored(t: TrieModel, full: Seq<u8>, path: Seq<u8>)
    requires
        t.sound(),
        t.has_node(path),
        t.node(path) is Leaf,
    ensures
        t.unlinked(full, path).anchored(),
{
    let u = t.unlinked(full, path);
    assert forall|i: int| 0 <= i < u.lower.len() && (#[trigger] u.lower[i]) is Some implies u.lower[i]->0.anchored() by {
        assert(t.lower[i] is Some);
        let s = t.lower[i]->0;
        let after = u.lower[i]->0;
        assert(s.anchored());
        assert forall|q: Seq<u8>| #[trigger] after.nodes.contains_key(q) implies after.nodes.contains_key(
            after.path,
        ) && after.path.is_prefix_of(q) by {
            assert(s.nodes.contains_key(q));
            assert(s.path.is_prefix_of(q));
            if !after.nodes.contains_key(s.path) {
                assert(s.path == path);
                assert(TrieModel::owns(i, q));
                assert(t.has_node(q));
                lemma_way_leads_on(t, q, path);
            }
        }
    }
}

/// Taking a leaf out keeps a trie sound.
pub proof fn lemma_unlinked_sound(t: TrieModel, full: Seq<u8>, path: Seq<u8>)
    requires
        t.sound(),
        t.has_node(path),
        t.node(path) is Leaf,
        path + t.node(path)->Leaf_key == full,
    ensures
        t.unlinked(full, path).sound(),
{
    let u = t.unlinked(full, path);
    let s = t.subtrie_at(path);
    lemma_unique_in(t, path);
    if is_upper(path) {
        lemma_drop_leaf_valued(s, u.upper, path, full);
    } else {
        let i = lower_index_of(path);
        assert(t.lower[i]->0.valued());
        lemma_drop_leaf_valued(s, u.lower[i]->0, path, full);
    }
    assert forall|j: int| 0 <= j < u.lower.len() && (#[trigger] u.lower[j]) is Some implies u.lower[j]->0.valued() by {
        if is_upper(path) || j != lower_index_of(path) {
            assert(u.lower[j] == t.lower[j]);
        }
    }
    assert forall|j: int| 0 <= j < NUM_LOWER_SUBTRIES implies ((#[trigger] u.lower[j]) matches Some(
        subtrie,
    ) ==> lower_path(j).is_prefix_of(subtrie.path)) by {
        assert(t.lower[j] is Some == u.lower[j] is Some);
    }
    lemma_unlinked_anchored(t, full, path);
    assert forall|j: int, q: Seq<u8>|
        0 <= j < u.lower.len() && u.lower[j] is Some
            && #[trigger] u.lower[j]->0.nodes.contains_key(q) implies TrieModel::owns(j, q)
        && lower_path(j).is_prefix_of(q) by {
        assert(t.lower[j]->0.nodes.contains_key(q));
    }
    lemma_unlinked_linked(t, full, path);
}

/// Taking a leaf out leaves each node a child of another one.
pub proof fn lemma_unlinked_linked(t: TrieModel, full: Seq<u8>, path: Seq<u8>)
    requires
        t.linked(),
        t.has_node(path),
        t.node(path) is Leaf,
    ensures
        t.unlinked(full, path).linked(),
{
    let u = t.unlinked(full, path);
    assert forall|q: Seq<u8>| #[trigger] u.has_node(q) && q.len() > 0 implies u.parented(q) by {
        lemma_unlinked(t, full, path, q);
        assert(t.has_node(q));
        let a = choose|a: Seq<u8>| #[trigger]
            t.has_node(a) && a.len() < q.len() && kid_paths(a, t.node(a)).contains(q);
        lemma_unlinked(t, full, path, a);
        assert(u.has_node(a));
    }
}

// Replacing a node, and dropping the child whose place it takes.

/// The nodes of a subtrie after the node at `to` was replaced, if that is in the subtrie, and the
/// node at `from` dropped, if there is one to be dropped and it is in the subtrie.
pub open spec fn nodes_after(
    nodes: Map<Seq<u8>, NodeModel>,
    drops: bool,
    from: Option<Seq<u8>>,
    puts: bool,
    to: Seq<u8>,
    new: NodeModel,
) -> Map<Seq<u8>, NodeModel> {
    let left = if drops && from is Some {
        nodes.remove(from->0)
    } else {
        nodes
    };
    if puts {
        left.insert(to, new)
    } else {
        left
    }
}

/// Whether the value of a leaf moves from a lower subtrie to the upper one.
pub open spec fn value_moves(from: Option<Seq<u8>>, to: Seq<u8>, new: NodeModel) -> bool {
    from is Some && new is Leaf && is_upper(to) && !is_upper(from->0)
}

/// The path of a lower subtrie after the node at `from` was dropped, if there is one to be dropped and
/// it is in the subtrie.
pub open spec fn path_after(s: SubtrieModel, i: int, from: Option<Seq<u8>>) -> Seq<u8> {
    if from is Some && TrieModel::owns(i, from->0) {
        root_without(s, from->0)
    } else {
        s.path
    }
}

/// Whether a trie is another one after the node at `to` was replaced and the one at `from` dropped.
/// The value of a leaf moves with it from a lower subtrie to the upper one.
pub open spec fn relocated(
    t: TrieModel,
    r: TrieModel,
    from: Option<Seq<u8>>,
    to: Seq<u8>,
    new: NodeModel,
) -> bool {
    let full = to + new->Leaf_key;
    let moves = value_moves(from, to, new);
    &&& r.upper.path == t.upper.path
    &&& r.upper.nodes == nodes_after(
        t.upper.nodes,
        is_upper(from->0),
        from,
        is_upper(to),
        to,
        new,
    )
    &&& r.upper.src.values == if moves {
        t.upper.src.values.insert(full, t.subtrie_at(from->0).src.values[full])
    } else {
        t.upper.src.values
    }
    &&& r.lower.len() == t.lower.len()
    &&& forall|i: int|
        0 <= i < t.lower.len() ==> match #[trigger] t.lower[i] {
            Some(s) => {
                &&& r.lower[i] is Some
                &&& r.lower[i]->0.path == path_after(s, i, from)
                &&& r.lower[i]->0.nodes == nodes_after(
                    s.nodes,
                    TrieModel::owns(i, from->0),
                    from,
                    TrieModel::owns(i, to),
                    to,
                    new,
                )
                &&& r.lower[i]->0.src.values == if moves && TrieModel::owns(i, from->0) {
                    s.src.values.remove(full)
                } else {
                    s.src.values
                }
            },
            None => r.lower[i] is None,
        }
}

/// Whether a node may be replaced by another one, in the place of a child that is dropped.
pub open spec fn may_relocate(t: TrieModel, from: Option<Seq<u8>>, to: Seq<u8>, new: NodeModel) -> bool {
    &&& is_upper(to) || t.has_node(to)
    &&& t.has_node(to) ==> t.node(to) !is Leaf
    &&& from matches Some(p) ==> {
        &&& t.has_node(p)
        &&& to.len() < p.len()
        &&& to.is_prefix_of(p)
        &&& t.node(p) is Leaf || t.node(p) is Extension
        &&& t.node(p) is Leaf == new is Leaf
        &&& new is Leaf ==> p + t.node(p)->Leaf_key == to + new->Leaf_key
    }
    &&& new is Leaf ==> from is Some
}

/// A leaf that takes the place of its parent in the same subtrie.
proof fn lemma_shift_leaf_valued(
    s: SubtrieModel,
    after: SubtrieModel,
    from: Seq<u8>,
    to: Seq<u8>,
    new: NodeModel,
)
    requires
        s.valued(),
        s.nodes.contains_key(from),
        s.nodes[from] is Leaf,
        s.nodes.contains_key(to) ==> s.nodes[to] !is Leaf,
        new is Leaf,
        from != to,
        from + s.nodes[from]->Leaf_key == to + new->Leaf_key,
        after.nodes == s.nodes.remove(from).insert(to, new),
        after.src.values == s.src.values,
    ensures
        after.valued(),
{
    assert forall|p: Seq<u8>| #[trigger] after.nodes.contains_key(p) implies (
    after.nodes[p] matches NodeModel::Leaf { key, .. } ==> after.src.values.contains_key(p + key)) by {
        if p != to {
            assert(s.nodes.contains_key(p));
        }
    }
    assert forall|x: Seq<u8>| #[trigger] after.src.values.contains_key(x) implies after.has_leaf(x) by {
        assert(s.src.values.contains_key(x));
        let p = choose|p: Seq<u8>| #[trigger]
            s.nodes.contains_key(p) && (s.nodes[p] matches NodeModel::Leaf { key, .. } && p + key
                == x);
        if p == from {
            assert(after.nodes.contains_key(to));
        } else {
            assert(after.nodes.contains_key(p));
        }
    }
}

/// Nodes that are no leaves come and go without values.
proof fn lemma_others_valued(s: SubtrieModel, after: SubtrieModel)
    requires
        s.valued(),
        after.src.values == s.src.values,
        forall|p: Seq<u8>| #[trigger]
            s.nodes.contains_key(p) && s.nodes[p] is Leaf ==> after.nodes.contains_key(p)
                && after.nodes[p] == s.nodes[p],
        forall|p: Seq<u8>| #[trigger]
            after.nodes.contains_key(p) && after.nodes[p] is Leaf ==> s.nodes.contains_key(p)
                && after.nodes[p] == s.nodes[p],
    ensures
        after.valued(),
{
    assert forall|x: Seq<u8>| #[trigger] after.src.values.contains_key(x) implies after.has_leaf(x) by {
        assert(s.src.values.contains_key(x));
        let p = choose|p: Seq<u8>| #[trigger]
            s.nodes.contains_key(p) && (s.nodes[p] matches NodeModel::Leaf { key, .. } && p + key
                == x);
        assert(after.nodes.contains_key(p));
    }
}

/// A leaf with its value, where there was no leaf.
proof fn lemma_gain_leaf_valued(
    s: SubtrieModel,
    after: SubtrieModel,
    to: Seq<u8>,
    new: NodeModel,
    value: Seq<u8>,
)
    requires
        s.valued(),
        s.nodes.contains_key(to) ==> s.nodes[to] !is Leaf,
        new is Leaf,
        after.nodes == s.nodes.insert(to, new),
        after.src.values == s.src.values.insert(to + new->Leaf_key, value),
    ensures
        after.valued(),
{
    let full = to + new->Leaf_key;
    assert forall|p: Seq<u8>| #[trigger] after.nodes.contains_key(p) implies (
    after.nodes[p] matches NodeModel::Leaf { key, .. } ==> after.src.values.contains_key(p + key)) by {
        if p != to {
            assert(s.nodes.contains_key(p));
        }
    }
    assert forall|x: Seq<u8>| #[trigger] after.src.values.contains_key(x) implies after.has_leaf(x) by {
        if x == full {
            assert(after.nodes.contains_key(to));
        } else {
            assert(s.src.values.contains_key(x));
            let p = choose|p: Seq<u8>| #[trigger]
                s.nodes.contains_key(p) && (s.nodes[p] matches NodeModel::Leaf { key, .. } && p
                    + key == x);
            assert(after.nodes.contains_key(p));
        }
    }
}

/// Relocation keeps leaves and values together in a lower subtrie.
proof fn lemma_relocated_lower(
    t: TrieModel,
    r: TrieModel,
    from: Option<Seq<u8>>,
    to: Seq<u8>,
    new: NodeModel,
    i: int,
)
    requires
        t.sound(),
        may_relocate(t, from, to, new),
        relocated(t, r, from, to, new),
        0 <= i < t.lower.len(),
        t.lower[i] is Some,
    ensures
        r.lower[i]->0.valued(),
{
    let s = t.lower[i]->0;
    let after = r.lower[i]->0;
    assert(s.valued());
    if new is Leaf {
        let p = from->0;
        lemma_unique_in(t, p);
        lemma_prefix_pointwise(to, p);
        if TrieModel::owns(i, p) {
            if is_upper(to) {
                lemma_drop_leaf_valued(s, after, p, to + new->Leaf_key);
            } else {
                assert(to[0] == p[0] && to[1] == p[1]);
                lemma_shift_leaf_valued(s, after, p, to, new);
            }
        } else {
            if TrieModel::owns(i, to) {
                assert(to[0] == p[0] && to[1] == p[1]);
            }
            lemma_others_valued(s, after);
        }
    } else {
        lemma_others_valued(s, after);
    }
}

/// Relocation leaves each lower subtrie that has nodes with one at its own path, and the path where
/// the subtrie is.
proof fn lemma_relocated_anchored(
    t: TrieModel,
    r: TrieModel,
    from: Option<Seq<u8>>,
    to: Seq<u8>,
    new: NodeModel,
    i: int,
)
    requires
        t.sound(),
        may_relocate(t, from, to, new),
        relocated(t, r, from, to, new),
        0 <= i < t.lower.len(),
        t.lower[i] is Some,
    ensures
        r.lower[i]->0.anchored(),
        lower_path(i).is_prefix_of(r.lower[i]->0.path),
{
    let s = t.lower[i]->0;
    let after = r.lower[i]->0;
    let e = s.path;
    assert(s.anchored());
    assert(lower_path(i).is_prefix_of(e));
    if from is Some {
        lemma_prefix_pointwise(to, from->0);
    }
    if from is Some && TrieModel::owns(i, from->0) && from->0 == e {
        assert(s.nodes.contains_key(e));
        if TrieModel::owns(i, to) {
            assert(s.nodes.contains_key(to));
            lemma_prefix_pointwise(e, to);
        }
        if s.nodes[e] is Extension {
            let longer = e + s.nodes[e]->Extension_key;
            lemma_prefix_pointwise(e, longer);
            lemma_prefix_transitive(lower_path(i), e, longer);
        }
        assert forall|q: Seq<u8>| #[trigger] after.nodes.contains_key(q) implies after.nodes.contains_key(
            after.path,
        ) && after.path.is_prefix_of(q) by {
            assert(s.nodes.contains_key(q));
            assert(TrieModel::owns(i, q));
            assert(t.has_node(q) && t.has_node(e));
            if s.nodes[e] is Extension {
                lemma_root_leads(t, i, q);
                let longer = e + s.nodes[e]->Extension_key;
                assert(longer.len() > e.len());
                assert(after.nodes.contains_key(longer));
            } else {
                lemma_way_leads_on(t, q, e);
            }
        }
    } else {
        assert(after.path == e);
        assert forall|q: Seq<u8>| #[trigger] after.nodes.contains_key(q) implies after.nodes.contains_key(
            after.path,
        ) && after.path.is_prefix_of(q) by {
            assert(s.nodes.contains_key(q));
            assert(s.nodes.contains_key(e));
        }
    }
}

/// Relocation keeps the subtries in place, the nodes in their subtries, and leaves and values
/// together.
proof fn lemma_relocated(
    t: TrieModel,
    r: TrieModel,
    from: Option<Seq<u8>>,
    to: Seq<u8>,
    new: NodeModel,
)
    requires
        t.sound(),
        may_relocate(t, from, to, new),
        relocated(t, r, from, to, new),
    ensures
        r.placed(),
        r.homed(),
        r.valued(),
        r.anchored(),
{
    assert forall|i: int| 0 <= i < r.lower.len() && (#[trigger] r.lower[i]) is Some implies r.lower[i]->0.anchored() by {
        assert(t.lower[i] is Some);
        lemma_relocated_anchored(t, r, from, to, new, i);
    }
    if new is Leaf {
        let p = from->0;
        lemma_unique_in(t, p);
        lemma_prefix_pointwise(to, p);
        if is_upper(p) {
            lemma_shift_leaf_valued(t.upper, r.upper, p, to, new);
        } else if is_upper(to) {
            lemma_gain_leaf_valued(
                t.upper,
                r.upper,
                to,
                new,
                t.subtrie_at(p).src.values[to + new->Leaf_key],
            );
        } else {
            lemma_others_valued(t.upper, r.upper);
        }
    } else {
        lemma_others_valued(t.upper, r.upper);
    }
    assert forall|i: int| 0 <= i < r.lower.len() && (#[trigger] r.lower[i]) is Some implies r.lower[i]->0.valued() by {
        assert(t.lower[i] is Some);
        lemma_relocated_lower(t, r, from, to, new, i);
    }
    assert forall|i: int| 0 <= i < NUM_LOWER_SUBTRIES implies ((#[trigger] r.lower[i]) matches Some(
        subtrie,
    ) ==> lower_path(i).is_prefix_of(subtrie.path)) by {
        assert(t.lower[i] is Some == r.lower[i] is Some);
        if t.lower[i] is Some {
            lemma_relocated_anchored(t, r, from, to, new, i);
        }
    }
    assert forall|i: int, q: Seq<u8>|
        0 <= i < r.lower.len() && r.lower[i] is Some
            && #[trigger] r.lower[i]->0.nodes.contains_key(q) implies TrieModel::owns(i, q)
        && lower_path(i).is_prefix_of(q) by {
        assert(t.lower[i] is Some);
        if !TrieModel::owns(i, to) || q != to {
            assert(t.lower[i]->0.nodes.contains_key(q));
        }
    }
    assert forall|q: Seq<u8>| #[trigger] r.upper.nodes.contains_key(q) implies is_upper(q) by {
        if !is_upper(to) || q != to {
            assert(t.upper.nodes.contains_key(q));
        }
    }
}

/// Which nodes there are after a relocation.
pub proof fn lemma_relocated_node(
    t: TrieModel,
    r: TrieModel,
    from: Option<Seq<u8>>,
    to: Seq<u8>,
    new: NodeModel,
    q: Seq<u8>,
)
    requires
        may_relocate(t, from, to, new),
        relocated(t, r, from, to, new),
    ensures
        r.has_node(to),
        r.node(to) == new,
        q != to ==> r.has_node(q) == (t.has_node(q) && Some(q) != from),
        q != to && r.has_node(q) ==> r.node(q) == t.node(q),
{
    if from is Some {
        lemma_prefix_pointwise(to, from->0);
    }
    if !is_upper(to) {
        assert(t.lower[lower_index_of(to)] is Some);
    }
    if !is_upper(q) && 0 <= lower_index_of(q) < t.lower.len() {
        assert(t.lower[lower_index_of(q)] is Some == r.lower[lower_index_of(q)] is Some);
    }
}

/// Each node still is a child of another one after a relocation, if what hung below the nodes that
/// were replaced and dropped hangs below the new one.
proof fn lemma_relocated_linked(
    t: TrieModel,
    r: TrieModel,
    from: Option<Seq<u8>>,
    to: Seq<u8>,
    new: NodeModel,
)
    requires
        t.linked(),
        may_relocate(t, from, to, new),
        relocated(t, r, from, to, new),
        to.len() > 0 ==> t.has_node(to),
        forall|q: Seq<u8>| #[trigger]
            t.has_node(q) && q.len() > to.len() && Some(q) != from && ((t.has_node(to) && kid_paths(
                to,
                t.node(to),
            ).contains(q)) || (from is Some && kid_paths(from->0, t.node(from->0)).contains(q)))
                ==> kid_paths(to, new).contains(q),
    ensures
        r.linked(),
{
    assert forall|q: Seq<u8>| #[trigger] r.has_node(q) && q.len() > 0 implies r.parented(q) by {
        lemma_relocated_node(t, r, from, to, new, q);
        assert(t.has_node(q));
        assert(t.parented(q));
        let a = choose|a: Seq<u8>| #[trigger]
            t.has_node(a) && a.len() < q.len() && kid_paths(a, t.node(a)).contains(q);
        lemma_relocated_node(t, r, from, to, new, a);
        if a == to || Some(a) == from {
            if q != to {
                assert(kid_paths(to, new).contains(q));
                assert(r.has_node(to));
            } else {
                assert(from is Some && to.len() < a.len());
            }
        } else {
            assert(r.has_node(a));
        }
    }
}

/// Merging a branch with its only child is a relocation.
pub proof fn lemma_merged_relocated(t: TrieModel, branch: Seq<u8>, child: Seq<u8>)
    requires
        t.has_node(branch),
        t.has_node(child),
        branch.len() < child.len(),
        branch.is_prefix_of(child),
    ensures
        relocated(
            t,
            t.merged(branch, child),
            if takes_child(t.node(child)) {
                Some(child)
            } else {
                None
            },
            branch,
            merged_branch(child.last(), t.node(child)),
        ),
{
    let r = t.merged(branch, child);
    let new = merged_branch(child.last(), t.node(child));
    let from = if takes_child(t.node(child)) {
        Some(child)
    } else {
        None
    };
    lemma_prefix_pointwise(branch, child);
    if !is_upper(branch) {
        assert(branch[0] == child[0] && branch[1] == child[1]);
    }
    assert(r.upper.nodes =~= nodes_after(
        t.upper.nodes,
        is_upper(from->0),
        from,
        is_upper(branch),
        branch,
        new,
    ));
    assert forall|i: int| 0 <= i < t.lower.len() implies match #[trigger] t.lower[i] {
        Some(s) => {
            &&& r.lower[i] is Some
            &&& r.lower[i]->0.path == path_after(s, i, from)
            &&& r.lower[i]->0.nodes == nodes_after(
                s.nodes,
                TrieModel::owns(i, from->0),
                from,
                TrieModel::owns(i, branch),
                branch,
                new,
            )
            &&& r.lower[i]->0.src.values == if value_moves(from, branch, new) && TrieModel::owns(
                i,
                from->0,
            ) {
                s.src.values.remove(branch + new->Leaf_key)
            } else {
                s.src.values
            }
        },
        None => r.lower[i] is None,
    } by {
        if t.lower[i] is Some {
            assert(r.lower[i]->0.nodes =~= nodes_after(
                t.lower[i]->0.nodes,
                TrieModel::owns(i, from->0),
                from,
                TrieModel::owns(i, branch),
                branch,
                new,
            ));
        }
    }
}

/// Merging an extension with what became of the branch below it is a relocation.
pub proof fn lemma_ext_relocated(t: TrieModel, above: Seq<u8>, branch: Seq<u8>)
    requires
        t.has_node(above),
        t.has_node(branch),
        above.len() < branch.len(),
        above.is_prefix_of(branch),
        t.node(above) is Extension,
        merged_ext(t.node(above)->Extension_key, t.node(branch)) is Some,
    ensures
        relocated(
            t,
            t.ext_merged(Some(above), branch),
            Some(branch),
            above,
            merged_ext(t.node(above)->Extension_key, t.node(branch))->0,
        ),
{
    let r = t.ext_merged(Some(above), branch);
    let new = merged_ext(t.node(above)->Extension_key, t.node(branch))->0;
    let from = Some(branch);
    lemma_prefix_pointwise(above, branch);
    if !is_upper(above) {
        assert(above[0] == branch[0] && above[1] == branch[1]);
    }
    assert(r.upper.nodes =~= nodes_after(
        t.upper.nodes,
        is_upper(branch),
        from,
        is_upper(above),
        above,
        new,
    ));
    assert forall|i: int| 0 <= i < t.lower.len() implies match #[trigger] t.lower[i] {
        Some(s) => {
            &&& r.lower[i] is Some
            &&& r.lower[i]->0.path == path_after(s, i, from)
            &&& r.lower[i]->0.nodes == nodes_after(
                s.nodes,
                TrieModel::owns(i, branch),
                from,
                TrieModel::owns(i, above),
                above,
                new,
            )
            &&& r.lower[i]->0.src.values == if value_moves(from, above, new) && TrieModel::owns(
                i,
                branch,
            ) {
                s.src.values.remove(above + new->Leaf_key)
            } else {
                s.src.values
            }
        },
        None => r.lower[i] is None,
    } by {
        if t.lower[i] is Some {
            assert(r.lower[i]->0.nodes =~= nodes_after(
                t.lower[i]->0.nodes,
                TrieModel::owns(i, branch),
                from,
                TrieModel::owns(i, above),
                above,
                new,
            ));
        }
    }
}

/// Setting a node is a relocation that drops none.
pub proof fn lemma_put_relocated(t: TrieModel, to: Seq<u8>, new: NodeModel)
    requires
        is_upper(to) || t.has_node(to),
    ensures
        relocated(t, t.put_node(to, new), None, to, new),
{
    let r = t.put_node(to, new);
    assert forall|i: int| 0 <= i < t.lower.len() implies match #[trigger] t.lower[i] {
        Some(s) => {
            &&& r.lower[i] is Some
            &&& r.lower[i]->0.path == path_after(s, i, None)
            &&& r.lower[i]->0.nodes == nodes_after(
                s.nodes,
                TrieModel::owns(i, None::<Seq<u8>>->0),
                None,
                TrieModel::owns(i, to),
                to,
                new,
            )
            &&& r.lower[i]->0.src.values == s.src.values
        },
        None => r.lower[i] is None,
    } by {}
}

/// Replacing the node at a path by one that has all its children that are there keeps a trie sound.
proof fn lemma_put_sound(t: TrieModel, to: Seq<u8>, new: NodeModel)
    requires
        t.sound(),
        to.len() == 0 || t.has_node(to),
        t.has_node(to) ==> t.node(to) !is Leaf,
        new !is Leaf,
        forall|q: Seq<u8>| #[trigger]
            t.has_node(q) && q.len() > to.len() && t.has_node(to) && kid_paths(
                to,
                t.node(to),
            ).contains(q) ==> kid_paths(to, new).contains(q),
    ensures
        t.put_node(to, new).sound(),
{
    lemma_put_linked(t, to, new);
    lemma_put_relocated(t, to, new);
    lemma_relocated(t, t.put_node(to, new), None, to, new);
}

/// Replacing a node by another one with the children that are there leaves each node a child of
/// another one.
pub proof fn lemma_put_linked(t: TrieModel, to: Seq<u8>, new: NodeModel)
    requires
        t.linked(),
        to.len() == 0 || t.has_node(to),
        t.has_node(to) ==> t.node(to) !is Leaf,
        new !is Leaf,
        forall|q: Seq<u8>| #[trigger]
            t.has_node(q) && q.len() > to.len() && t.has_node(to) && kid_paths(
                to,
                t.node(to),
            ).contains(q) ==> kid_paths(to, new).contains(q),
    ensures
        t.put_node(to, new).linked(),
{
    lemma_put_relocated(t, to, new);
    lemma_relocated_linked(t, t.put_node(to, new), None, to, new);
}

/// Merging a branch with the only child of it that is there keeps a trie sound.
pub proof fn lemma_merged_sound(t: TrieModel, branch: Seq<u8>, child: Seq<u8>, ext: Option<Seq<u8>>)
    requires
        t.sound(),
        collapsible(t, branch, child, ext),
        t.node(branch) is Branch,
        forall|q: Seq<u8>| #[trigger]
            t.has_node(q) && kid_paths(branch, t.node(branch)).contains(q) ==> q == child,
    ensures
        t.merged(branch, child).sound(),
{
    let node = t.node(child);
    lemma_merged_linked(t, branch, child, ext);
    lemma_relocated(
        t,
        t.merged(branch, child),
        if takes_child(node) {
            Some(child)
        } else {
            None
        },
        branch,
        merged_branch(child.last(), node),
    );
}

/// Merging a branch with the only child of it that is there leaves each node a child of another one.
pub proof fn lemma_merged_linked(
    t: TrieModel,
    branch: Seq<u8>,
    child: Seq<u8>,
    ext: Option<Seq<u8>>,
)
    requires
        t.linked(),
        collapsible(t, branch, child, ext),
        t.node(branch) is Branch,
        forall|q: Seq<u8>| #[trigger]
            t.has_node(q) && kid_paths(branch, t.node(branch)).contains(q) ==> q == child,
    ensures
        t.merged(branch, child).linked(),
        ({
            let from = if takes_child(t.node(child)) {
                Some(child)
            } else {
                None
            };
            let new = merged_branch(child.last(), t.node(child));
            &&& may_relocate(t, from, branch, new)
            &&& relocated(t, t.merged(branch, child), from, branch, new)
        }),
{
    let node = t.node(child);
    let new = merged_branch(child.last(), node);
    let r = t.merged(branch, child);
    let from = if takes_child(node) {
        Some(child)
    } else {
        None
    };
    lemma_prefix_pointwise(branch, child);
    assert(branch.push(child.last()) =~= child);
    match node {
        NodeModel::Leaf { key, .. } => {
            assert(branch + (seq![child.last()] + key) =~= child + key);
        },
        NodeModel::Extension { key, .. } => {
            assert(branch + (seq![child.last()] + key) =~= child + key);
            assert(kid_paths(branch, new)[0] == child + key);
            assert(kid_paths(child, node) =~= seq![child + key]);
        },
        _ => {
            assert(branch + seq![child.last()] =~= child);
            assert(kid_paths(branch, new)[0] == child);
        },
    }
    lemma_merged_relocated(t, branch, child);
    lemma_relocated_linked(t, r, from, branch, new);
}

/// Merging an extension with what became of the branch below it keeps a trie sound.
proof fn lemma_ext_sound(t: TrieModel, ext: Option<Seq<u8>>, branch: Seq<u8>)
    requires
        t.sound(),
        t.has_node(branch),
        ext matches Some(above) ==> {
            &&& above.len() < branch.len()
            &&& t.has_node(above)
            &&& t.node(above) is Extension
            &&& above + t.node(above)->Extension_key == branch
        },
    ensures
        t.ext_merged(ext, branch).sound(),
{
    lemma_ext_linked(t, ext, branch);
    if ext is Some && merged_ext(t.node(ext->0)->Extension_key, t.node(branch)) is Some {
        let above = ext->0;
        let key = t.node(above)->Extension_key;
        lemma_prefix_pointwise(above, branch);
        if let NodeModel::Leaf { key: rest, .. } = t.node(branch) {
            assert(above + (key + rest) =~= branch + rest);
        }
        lemma_ext_relocated(t, above, branch);
        lemma_relocated(
            t,
            t.ext_merged(ext, branch),
            Some(branch),
            above,
            merged_ext(key, t.node(branch))->0,
        );
    }
}

/// Merging an extension with what became of the branch below it leaves each node a child of another
/// one.
pub proof fn lemma_ext_linked(t: TrieModel, ext: Option<Seq<u8>>, branch: Seq<u8>)
    requires
        t.linked(),
        t.has_node(branch),
        ext matches Some(above) ==> {
            &&& above.len() < branch.len()
            &&& t.has_node(above)
            &&& t.node(above) is Extension
            &&& above + t.node(above)->Extension_key == branch
        },
    ensures
        t.ext_merged(ext, branch).linked(),
{
    if ext is Some && merged_ext(t.node(ext->0)->Extension_key, t.node(branch)) is Some {
        let above = ext->0;
        let key = t.node(above)->Extension_key;
        let new = merged_ext(key, t.node(branch))->0;
        let r = t.ext_merged(ext, branch);
        lemma_prefix_pointwise(above, branch);
        match t.node(branch) {
            NodeModel::Leaf { key: rest, .. } => {
                assert(above + (key + rest) =~= branch + rest);
            },
            NodeModel::Extension { key: rest, .. } => {
                assert(above + (key + rest) =~= branch + rest);
                assert(kid_paths(above, new)[0] == branch + rest);
                assert(kid_paths(branch, t.node(branch)) =~= seq![branch + rest]);
            },
            _ => {},
        }
        assert(kid_paths(above, t.node(above)) =~= seq![branch]);
        lemma_ext_relocated(t, above, branch);
        lemma_relocated_linked(t, r, Some(branch), above, new);
    }
}

/// Revealing the only child that is left keeps a trie sound, if it succeeds. If it fails, what it
/// leaves still has its nodes in their subtries, and leaves and values together.
pub proof fn lemma_known_sound(
    u: TrieModel,
    child: Seq<u8>,
    reply: Result<Option<RevealedModel>, ErrorModel>,
)
    requires
        u.sound(),
        u.has_node(child),
        child.len() > 0,
        is_path(child),
    ensures
        ({
            let known = child_known(u, child, reply);
            &&& known.trie.placed()
            &&& known.trie.homed()
            &&& known.trie.valued()
            &&& known.result is Ok ==> known.trie.sound()
        }),
{
    if u.node(child) is Hash {
        match reply {
            Ok(Some(revealed)) => match decoded_node(revealed.node) {
                Ok(node) => {
                    lemma_trie_reveal(u, child, node, revealed.masks);
                },
                Err(_) => {},
            },
            _ => {},
        }
    }
}

/// What hangs below a branch, once a leaf was taken out, is the only child that is left.
pub proof fn lemma_only_kid(
    w: TrieModel,
    full: Seq<u8>,
    path: Seq<u8>,
    branch: Seq<u8>,
    ext: Option<Seq<u8>>,
    q: Seq<u8>,
)
    requires
        leaf_place(w, full, path, branch, ext),
        kid_paths(branch, w.node(branch)).contains(q),
        q != path,
    ensures
        ({
            let mask = w.mask_without(branch, path);
            &&& kid_paths(branch, NodeModel::new_branch(mask)).contains(q)
            &&& child_nibbles(mask).len() == 1 ==> q == TrieModel::only_child(branch, mask)
        }),
{
    let all = w.node(branch)->Branch_mask;
    let mask = w.mask_without(branch, path);
    let kids = kid_paths(branch, w.node(branch));
    let i = kids.index_of(q);
    let n = child_nibbles(all)[i];
    lemma_nibbles_below(all, 16);
    lemma_nibbles_below(mask, 16);
    assert(q == branch.push(n));
    assert(path[branch.len() as int] == full[branch.len() as int]);
    if n == full[branch.len() as int] {
        assert(q =~= path);
    }
    assert(mask.contains(n));
    assert(child_nibbles(mask).contains(n));
    let j = child_nibbles(mask).index_of(n);
    assert(kid_paths(branch, NodeModel::new_branch(mask))[j] == q);
}

/// Removing a leaf keeps a trie sound, if it succeeds. If it fails, because a blinded node could not
/// be revealed, what it leaves still has its nodes in their subtries, and leaves and values
/// together.
pub proof fn lemma_removed_sound(
    t: TrieModel,
    full: Seq<u8>,
    reply: Result<Option<RevealedModel>, ErrorModel>,
)
    requires
        t.sound(),
        t.removable(full),
        is_path(full),
    ensures
        ({
            let r = t.leaf_removed(full, reply);
            &&& r.trie.placed()
            &&& r.trie.homed()
            &&& r.trie.valued()
            &&& r.result is Ok ==> r.trie.sound()
        }),
{
    let root = Seq::<u8>::empty();
    let walk = t.walk(full, root, None, None);
    let w = walk.trie;
    lemma_walk_alike(t, full, root, None, None);
    lemma_alike_sound(t, w);
    lemma_leaf_place(t, full);
    lemma_prefix_pointwise(root, full);
    match walk.end {
        WalkEnd::Leaf { path, branch, ext } => {
            let u = w.unlinked(full, path);
            lemma_walk(t, full, root, None, None);
            assert(t.has_node(path) == w.has_node(path));
            lemma_unlinked_sound(w, full, path);
            lemma_unlinked(w, full, path, path);
            if path.len() == 0 {
                assert(path =~= root);
                lemma_put_sound(u, root, NodeModel::Empty);
            } else {
                let b = branch->0;
                let mask = w.mask_without(b, path);
                lemma_unlinked(w, full, path, b);
                lemma_prefix_pointwise(b, full);
                if ext is Some {
                    lemma_unlinked(w, full, path, ext->0);
                    lemma_prefix_pointwise(ext->0, b);
                }
                if child_nibbles(mask).len() == 1 {
                    lemma_removed_collapses(w, full, path, b, ext, reply);
                } else {
                    let new = NodeModel::new_branch(mask);
                    assert forall|q: Seq<u8>| #[trigger]
                        u.has_node(q) && kid_paths(b, u.node(b)).contains(q) implies kid_paths(
                        b,
                        new,
                    ).contains(q) by {
                        lemma_only_kid(w, full, path, b, ext, q);
                    }
                    lemma_put_sound(u, b, new);
                    lemma_put_node(u, b, new, b);
                    if ext is Some {
                        lemma_put_node(u, b, new, ext->0);
                    }
                    assert(u.put_node(b, new).ext_merged(ext, b) == u.put_node(b, new));
                }
            }
        },
        _ => {},
    }
}

/// Merging with the only child that is left keeps a trie sound, if the child is known.
proof fn lemma_removed_collapses(
    w: TrieModel,
    full: Seq<u8>,
    path: Seq<u8>,
    branch: Seq<u8>,
    ext: Option<Seq<u8>>,
    reply: Result<Option<RevealedModel>, ErrorModel>,
)
    requires
        w.unlinked(full, path).sound(),
        leaf_place(w, full, path, branch, ext),
        ({
            let mask = w.mask_without(branch, path);
            let child = TrieModel::only_child(branch, mask);
            &&& child_nibbles(mask).len() == 1
            &&& w.has_node(child)
            &&& w.node(child) !is Empty
            &&& w.child_fits(branch, ext, child)
        }),
    ensures
        ({
            let child = TrieModel::only_child(branch, w.mask_without(branch, path));
            let r = w.unlinked(full, path).child_left(branch, child, ext, reply);
            &&& r.trie.placed()
            &&& r.trie.homed()
            &&& r.trie.valued()
            &&& r.result is Ok ==> r.trie.sound()
        }),
{
    let mask = w.mask_without(branch, path);
    let child = TrieModel::only_child(branch, mask);
    let u = w.unlinked(full, path);
    lemma_unlinked_child(w, full, path, branch, ext, child);
    lemma_unlinked(w, full, path, child);
    lemma_prefix_pointwise(branch, child);
    lemma_prefix_pointwise(branch, full);
    lemma_nibbles_below(mask, 16);
    assert(mask.contains(child_nibbles(mask)[0]));
    assert(path[branch.len() as int] == full[branch.len() as int]);
    assert(child[branch.len() as int] != full[branch.len() as int]);
    lemma_child_path(full, branch, child);
    lemma_known_sound(u, child, reply);
    let known = child_known(u, child, reply);
    if known.result is Ok {
        let v = known.trie;
        lemma_child_known(w, full, path, branch, ext, child, reply);
        lemma_prefix_pointwise(child, branch);
        assert(v.has_node(branch) == w.has_node(branch));
        assert forall|q: Seq<u8>| #[trigger]
            v.has_node(q) && kid_paths(branch, v.node(branch)).contains(q) implies q == child by {
            lemma_only_kid(w, full, path, branch, ext, q);
        }
        lemma_merged_sound(v, branch, child, ext);
        lemma_merged_all(v, branch, child, ext);
        let m = v.merged(branch, child);
        if ext is Some {
            lemma_prefix_pointwise(ext->0, branch);
            assert(m.has_node(ext->0) == v.has_node(ext->0));
        }
        lemma_ext_sound(m, ext, branch);
    }
}

}
