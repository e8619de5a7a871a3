//! The values that a trie keeps in all its subtries, and which of them removing a leaf takes away.

use crate::error::ErrorModel;
use crate::hash_run::lemma_nibbles_below;
use crate::hashing::kid_paths;
use crate::lookup::{
    child_known, leaf_place, lemma_child_known, lemma_cleared_shape, lemma_leaf_place,
    lemma_passes_find, lemma_unlinked_child, lemma_walk, lemma_walk_ok_shape, Lookup,
};
use crate::model::{child_nibbles, NodeModel};
use crate::normal::lemma_leaf_value;
use crate::order::lemma_prefix_pointwise;
use crate::path::{is_path, is_upper, lower_index_of, NUM_LOWER_SUBTRIES};
use crate::provider::RevealedModel;
use crate::removal::{merged_branch, merged_ext, next_to_leaf, takes_child, NextModel, WalkEnd};
use crate::remove::{collapsible, lemma_put_node, lemma_unlinked};
use crate::remove_sound::{
    lemma_ext_relocated, lemma_leaf_unique, lemma_linked_passes, lemma_merged_relocated,
    lemma_merged_sound, lemma_only_kid, lemma_put_relocated, lemma_relocated_node,
    lemma_removed_sound, lemma_unlinked_sound, lemma_walk_alike, may_relocate, relocated,
    value_moves,
};
use crate::soundness::{alike_tries, lemma_alike_node, lemma_alike_sound};
use crate::trie::TrieModel;
use vstd::prelude::*;

verus! {

impl TrieModel {
    /// Whether the upper subtrie keeps a value for a full path.
    pub open spec fn upper_keeps(self, full: Seq<u8>, value: Seq<u8>) -> bool {
        self.upper.src.values.contains_key(full) && self.upper.src.values[full] == value
    }

    /// Whether the lower subtrie with an index keeps a value for a full path.
    pub open spec fn lower_keeps(self, i: int, full: Seq<u8>, value: Seq<u8>) -> bool {
        &&& 0 <= i < self.lower.len()
        &&& self.lower[i] is Some
        &&& self.lower[i]->0.src.values.contains_key(full)
        &&& self.lower[i]->0.src.values[full] == value
    }

    /// Whether some subtrie keeps a value for a full path.
    pub open spec fn keeps_value(self, full: Seq<u8>, value: Seq<u8>) -> bool {
        self.upper_keeps(full, value) || exists|i: int| self.lower_keeps(i, full, value)
    }

    /// The values of all subtries, by the full paths.
    pub open spec fn all_values(self) -> Map<Seq<u8>, Seq<u8>> {
        Map::new(
            |full: Seq<u8>| exists|value: Seq<u8>| self.keeps_value(full, value),
            |full: Seq<u8>| choose|value: Seq<u8>| self.keeps_value(full, value),
        )
    }

    /// No two subtries keep a value for the same full path.
    pub open spec fn values_once(self) -> bool {
        &&& forall|i: int, full: Seq<u8>, a: Seq<u8>, b: Seq<u8>|
            !(#[trigger] self.lower_keeps(i, full, a) && #[trigger] self.upper_keeps(full, b))
        &&& forall|i: int, j: int, full: Seq<u8>, a: Seq<u8>, b: Seq<u8>| #[trigger]
            self.lower_keeps(i, full, a) && #[trigger] self.lower_keeps(j, full, b) ==> i == j
    }
}

/// In a sound trie no two subtries keep a value for the same full path.
pub proof fn lemma_values_once(t: TrieModel)
    requires
        t.sound(),
    ensures
        t.values_once(),
{
    assert forall|i: int, full: Seq<u8>, a: Seq<u8>, b: Seq<u8>|
        !(#[trigger] t.lower_keeps(i, full, a) && #[trigger] t.upper_keeps(full, b)) by {
        if t.lower_keeps(i, full, a) && t.upper_keeps(full, b) {
            let p = lemma_lower_leaf(t, i, full);
            assert(t.upper.has_leaf(full));
            let q = choose|q: Seq<u8>| #[trigger]
                t.upper.nodes.contains_key(q) && (t.upper.nodes[q] matches NodeModel::Leaf {
                    key,
                    ..
                } && q + key == full);
            assert(t.has_node(q) && t.node(q) == t.upper.nodes[q]);
            lemma_leaf_unique(t, p, q);
        }
    }
    assert forall|i: int, j: int, full: Seq<u8>, a: Seq<u8>, b: Seq<u8>| #[trigger]
        t.lower_keeps(i, full, a) && #[trigger] t.lower_keeps(j, full, b) implies i == j by {
        let p = lemma_lower_leaf(t, i, full);
        let q = lemma_lower_leaf(t, j, full);
        lemma_leaf_unique(t, p, q);
    }
}

/// The leaf that a value of a lower subtrie belongs to.
proof fn lemma_lower_leaf(t: TrieModel, i: int, full: Seq<u8>) -> (p: Seq<u8>)
    requires
        t.sound(),
        0 <= i < t.lower.len(),
        t.lower[i] is Some,
        t.lower[i]->0.src.values.contains_key(full),
    ensures
        t.has_node(p),
        TrieModel::owns(i, p),
        t.node(p) is Leaf,
        p + t.node(p)->Leaf_key == full,
{
    let s = t.lower[i]->0;
    assert(s.valued());
    assert(s.has_leaf(full));
    let p = choose|p: Seq<u8>| #[trigger]
        s.nodes.contains_key(p) && (s.nodes[p] matches NodeModel::Leaf { key, .. } && p + key
            == full);
    assert(TrieModel::owns(i, p));
    p
}

/// Two tries whose subtries keep the same values, but for one full path, have the same values but for
/// that.
proof fn lemma_values_map(t: TrieModel, r: TrieModel, gone: Option<Seq<u8>>)
    requires
        r.values_once(),
        forall|x: Seq<u8>, v: Seq<u8>| #[trigger]
            r.keeps_value(x, v) <==> t.keeps_value(x, v) && Some(x) != gone,
    ensures
        r.all_values() == match gone {
            Some(full) => t.all_values().remove(full),
            None => t.all_values(),
        },
{
    let want = match gone {
        Some(full) => t.all_values().remove(full),
        None => t.all_values(),
    };
    assert forall|x: Seq<u8>| #[trigger] r.all_values().dom().contains(x) == want.dom().contains(x)
        && (want.dom().contains(x) ==> r.all_values()[x] == want[x]) by {
        if r.all_values().contains_key(x) {
            let v = choose|v: Seq<u8>| r.keeps_value(x, v);
            assert(r.keeps_value(x, v));
            assert(t.keeps_value(x, v));
            let w = choose|w: Seq<u8>| t.keeps_value(x, w);
            assert(t.keeps_value(x, w));
            assert(r.keeps_value(x, w));
            lemma_value_unique(r, x, v, w);
        }
        if t.all_values().contains_key(x) && Some(x) != gone {
            let w = choose|w: Seq<u8>| t.keeps_value(x, w);
            assert(r.keeps_value(x, w));
        }
    }
    assert(r.all_values().dom() =~= want.dom());
    assert forall|x: Seq<u8>| #[trigger] want.dom().contains(x) implies r.all_values()[x] == want[x] by {
        assert(r.all_values().dom().contains(x));
    }
    assert(r.all_values() =~= want);
}

/// Where no two subtries keep a value for the same full path, there is one value at most.
proof fn lemma_value_unique(t: TrieModel, x: Seq<u8>, v: Seq<u8>, w: Seq<u8>)
    requires
        t.values_once(),
        t.keeps_value(x, v),
        t.keeps_value(x, w),
    ensures
        v == w,
{
    if !t.upper_keeps(x, v) {
        let i = choose|i: int| t.lower_keeps(i, x, v);
        assert(t.lower_keeps(i, x, v));
        if !t.upper_keeps(x, w) {
            let j = choose|j: int| t.lower_keeps(j, x, w);
            assert(t.lower_keeps(j, x, w));
        }
    } else if !t.upper_keeps(x, w) {
        let j = choose|j: int| t.lower_keeps(j, x, w);
        assert(t.lower_keeps(j, x, w));
    }
}

/// Values do not depend on what nodes keep of hashing.
proof fn lemma_alike_values(a: TrieModel, b: TrieModel)
    requires
        alike_tries(a, b),
    ensures
        forall|x: Seq<u8>, v: Seq<u8>| #[trigger] b.keeps_value(x, v) <==> a.keeps_value(x, v),
{
    assert forall|x: Seq<u8>, v: Seq<u8>| #[trigger] b.keeps_value(x, v) <==> a.keeps_value(x, v) by {
        assert(a.upper_keeps(x, v) == b.upper_keeps(x, v));
        assert forall|i: int| a.lower_keeps(i, x, v) == b.lower_keeps(i, x, v) by {
            if 0 <= i < a.lower.len() {
                assert(a.lower[i] is Some == b.lower[i] is Some);
            }
        }
        if b.keeps_value(x, v) && !b.upper_keeps(x, v) {
            let i = choose|i: int| b.lower_keeps(i, x, v);
            assert(a.lower_keeps(i, x, v));
        }
        if a.keeps_value(x, v) && !a.upper_keeps(x, v) {
            let i = choose|i: int| a.lower_keeps(i, x, v);
            assert(b.lower_keeps(i, x, v));
        }
    }
}

/// Taking a leaf out takes its value away, and no other.
proof fn lemma_unlinked_values(t: TrieModel, full: Seq<u8>, path: Seq<u8>)
    requires
        t.sound(),
        t.has_node(path),
        t.node(path) is Leaf,
        path + t.node(path)->Leaf_key == full,
    ensures
        forall|x: Seq<u8>, v: Seq<u8>| #[trigger]
            t.unlinked(full, path).keeps_value(x, v) <==> t.keeps_value(x, v) && x != full,
{
    let u = t.unlinked(full, path);
    lemma_values_once(t);
    lemma_leaf_value(t, path);
    let value = t.source_at(path).values[full];
    if is_upper(path) {
        assert(t.upper_keeps(full, value));
    } else {
        assert(t.lower_keeps(lower_index_of(path), full, value));
    }
    assert forall|x: Seq<u8>, v: Seq<u8>| #[trigger]
        u.keeps_value(x, v) <==> t.keeps_value(x, v) && x != full by {
        if u.keeps_value(x, v) {
            if u.upper_keeps(x, v) {
                assert(t.upper_keeps(x, v));
            } else {
                let i = choose|i: int| u.lower_keeps(i, x, v);
                assert(t.lower_keeps(i, x, v));
            }
        }
        if t.keeps_value(x, v) && x != full {
            if t.upper_keeps(x, v) {
                assert(u.upper_keeps(x, v));
            } else {
                let i = choose|i: int| t.lower_keeps(i, x, v);
                assert(u.lower_keeps(i, x, v));
            }
        }
    }
}

/// Relocation takes no value away and adds none.
proof fn lemma_relocated_values(
    t: TrieModel,
    r: TrieModel,
    from: Option<Seq<u8>>,
    to: Seq<u8>,
    new: NodeModel,
)
    requires
        t.sound(),
        may_relocate(t, from, to, new),
        relocated(t, r, from, to, new),
    ensures
        forall|x: Seq<u8>, v: Seq<u8>| #[trigger] r.keeps_value(x, v) <==> t.keeps_value(x, v),
{
    let full = to + new->Leaf_key;
    let moves = value_moves(from, to, new);
    let i = lower_index_of(from->0);
    lemma_values_once(t);
    if moves {
        lemma_leaf_value(t, from->0);
        assert(t.lower_keeps(i, full, t.subtrie_at(from->0).src.values[full]));
    }
    assert forall|x: Seq<u8>, v: Seq<u8>| #[trigger] r.keeps_value(x, v) <==> t.keeps_value(x, v) by {
        if r.keeps_value(x, v) {
            if r.upper_keeps(x, v) {
                if !t.upper_keeps(x, v) {
                    assert(moves && x == full);
                    assert(t.lower_keeps(i, x, v));
                }
            } else {
                let j = choose|j: int| r.lower_keeps(j, x, v);
                assert(t.lower[j] is Some);
                assert(t.lower_keeps(j, x, v));
            }
        }
        if t.keeps_value(x, v) {
            if t.upper_keeps(x, v) {
                assert(r.upper_keeps(x, v));
            } else {
                let j = choose|j: int| t.lower_keeps(j, x, v);
                assert(t.lower[j] is Some);
                if moves && x == full {
                    assert(j == i);
                    assert(r.upper_keeps(x, v));
                } else {
                    assert(r.lower_keeps(j, x, v));
                }
            }
        }
    }
}

/// Removing a leaf for which nothing has to be revealed takes its value away, and no other.
pub proof fn lemma_removed_values(
    t: TrieModel,
    full: Seq<u8>,
    reply: Result<Option<RevealedModel>, ErrorModel>,
)
    requires
        t.sound(),
        t.removable(full),
        is_path(full),
        t.asks(full) is None,
        t.leaf_removed(full, reply).result is Ok,
    ensures
        t.leaf_removed(full, reply).trie.values_once(),
        t.leaf_removed(full, reply).trie.all_values() == t.all_values().remove(full),
{
    let root = Seq::<u8>::empty();
    let walk = t.walk(full, root, None, None);
    let w = walk.trie;
    let r = t.leaf_removed(full, reply).trie;
    lemma_removed_sound(t, full, reply);
    lemma_values_once(r);
    lemma_walk_alike(t, full, root, None, None);
    lemma_alike_sound(t, w);
    lemma_alike_values(t, w);
    lemma_prefix_pointwise(root, full);
    lemma_walk(t, full, root, None, None);
    match walk.end {
        WalkEnd::Leaf { path, branch, ext } => {
            let u = w.unlinked(full, path);
            lemma_leaf_place(t, full);
            lemma_alike_node(t, w, path);
            lemma_unlinked_sound(w, full, path);
            lemma_unlinked_values(w, full, path);
            lemma_unlinked(w, full, path, path);
            if path.len() == 0 {
                assert(path =~= root);
                lemma_put_relocated(u, root, NodeModel::Empty);
                lemma_relocated_values(u, r, None, root, NodeModel::Empty);
            } else {
                let b = branch->0;
                let mask = w.mask_without(b, path);
                lemma_unlinked(w, full, path, b);
                if child_nibbles(mask).len() == 1 {
                    let child = TrieModel::only_child(b, mask);
                    lemma_unlinked_child(w, full, path, b, ext, child);
                    lemma_collapsed_values(w, full, path, b, ext, reply);
                } else {
                    let new = NodeModel::new_branch(mask);
                    lemma_put_node(u, b, new, b);
                    if ext is Some {
                        lemma_unlinked(w, full, path, ext->0);
                        lemma_prefix_pointwise(ext->0, b);
                        lemma_put_node(u, b, new, ext->0);
                    }
                    assert(r == u.put_node(b, new));
                    lemma_put_relocated(u, b, new);
                    lemma_relocated_values(u, r, None, b, new);
                }
            }
            assert forall|x: Seq<u8>, v: Seq<u8>| #[trigger]
                r.keeps_value(x, v) <==> t.keeps_value(x, v) && Some(x) != Some(full) by {
                assert(u.keeps_value(x, v) <==> w.keeps_value(x, v) && x != full);
                assert(w.keeps_value(x, v) <==> t.keeps_value(x, v));
            }
            lemma_values_map(t, r, Some(full));
        },
        _ => {
            lemma_missing_value(t, full);
            assert forall|x: Seq<u8>, v: Seq<u8>| #[trigger]
                r.keeps_value(x, v) <==> t.keeps_value(x, v) && Some(x) != Some(full) by {
                assert(w.keeps_value(x, v) <==> t.keeps_value(x, v));
            }
            lemma_values_map(t, r, Some(full));
        },
    }
}

/// There is no value for a leaf that is not in the trie.
proof fn lemma_missing_value(t: TrieModel, full: Seq<u8>)
    requires
        t.sound(),
        t.lookup(full) !is At,
    ensures
        forall|v: Seq<u8>| !t.keeps_value(full, v),
{
    let root = Seq::<u8>::empty();
    lemma_prefix_pointwise(root, full);
    assert forall|v: Seq<u8>| !t.keeps_value(full, v) by {
        if t.keeps_value(full, v) {
            let p = if t.upper_keeps(full, v) {
                assert(t.upper.has_leaf(full));
                let q = choose|q: Seq<u8>| #[trigger]
                    t.upper.nodes.contains_key(q) && (t.upper.nodes[q] matches NodeModel::Leaf {
                        key,
                        ..
                    } && q + key == full);
                assert(t.has_node(q) && t.node(q) == t.upper.nodes[q]);
                q
            } else {
                let i = choose|i: int| t.lower_keeps(i, full, v);
                lemma_lower_leaf(t, i, full)
            };
            lemma_prefix_pointwise(p, full);
            lemma_linked_passes(t, full, p);
            lemma_passes_find(t, full, root, p, full);
            assert(t.find(full, p) == Lookup::At(p));
        }
    }
}

/// Merging with the only child that is left, which is not blinded, takes no value away.
proof fn lemma_collapsed_values(
    w: TrieModel,
    full: Seq<u8>,
    path: Seq<u8>,
    branch: Seq<u8>,
    ext: Option<Seq<u8>>,
    reply: Result<Option<RevealedModel>, ErrorModel>,
)
    requires
        w.sound(),
        leaf_place(w, full, path, branch, ext),
        ({
            let mask = w.mask_without(branch, path);
            let child = TrieModel::only_child(branch, mask);
            &&& child_nibbles(mask).len() == 1
            &&& w.has_node(child)
            &&& w.node(child) !is Empty
            &&& w.node(child) !is Hash
            &&& w.child_fits(branch, ext, child)
        }),
    ensures
        ({
            let u = w.unlinked(full, path);
            let child = TrieModel::only_child(branch, w.mask_without(branch, path));
            let r = u.child_left(branch, child, ext, reply).trie;
            forall|x: Seq<u8>, v: Seq<u8>| #[trigger] r.keeps_value(x, v) <==> u.keeps_value(x, v)
        }),
{
    let mask = w.mask_without(branch, path);
    let child = TrieModel::only_child(branch, mask);
    let u = w.unlinked(full, path);
    lemma_unlinked_sound(w, full, path);
    lemma_unlinked_child(w, full, path, branch, ext, child);
    lemma_unlinked(w, full, path, child);
    lemma_prefix_pointwise(branch, child);
    lemma_prefix_pointwise(branch, full);
    lemma_nibbles_below(mask, 16);
    assert(mask.contains(child_nibbles(mask)[0]));
    assert(path[branch.len() as int] == full[branch.len() as int]);
    assert(child[branch.len() as int] != full[branch.len() as int]);
    lemma_child_known(w, full, path, branch, ext, child, reply);
    assert(child_known(u, child, reply).trie == u);
    assert(u.has_node(branch) == w.has_node(branch));
    assert forall|q: Seq<u8>| #[trigger]
        u.has_node(q) && kid_paths(branch, u.node(branch)).contains(q) implies q == child by {
        lemma_only_kid(w, full, path, branch, ext, q);
    }
    lemma_merged_sound(u, branch, child, ext);
    lemma_merge_values(u, branch, child, ext);
    let m = u.merged(branch, child);
    lemma_join_values(m, ext, branch);
    let r = m.ext_merged(ext, branch);
    assert forall|x: Seq<u8>, v: Seq<u8>| #[trigger] r.keeps_value(x, v) <==> u.keeps_value(x, v) by {
        assert(m.keeps_value(x, v) <==> u.keeps_value(x, v));
    }
}

/// Merging a branch with its only child takes no value away.
proof fn lemma_merge_values(u: TrieModel, branch: Seq<u8>, child: Seq<u8>, ext: Option<Seq<u8>>)
    requires
        u.sound(),
        collapsible(u, branch, child, ext),
        u.node(branch) is Branch,
    ensures
        ({
            let m = u.merged(branch, child);
            &&& m.has_node(branch)
            &&& ext matches Some(above) ==> m.has_node(above) && m.node(above) == u.node(above)
            &&& forall|x: Seq<u8>, v: Seq<u8>| #[trigger]
                m.keeps_value(x, v) <==> u.keeps_value(x, v)
        }),
{
    let node = u.node(child);
    let new = merged_branch(child.last(), node);
    let from = if takes_child(node) {
        Some(child)
    } else {
        None
    };
    lemma_prefix_pointwise(branch, child);
    assert(branch.push(child.last()) =~= child);
    match node {
        NodeModel::Leaf { key, .. } => {
            assert(branch + (seq![child.last()] + key) =~= child + key);
        },
        _ => {},
    }
    lemma_merged_relocated(u, branch, child);
    let m = u.merged(branch, child);
    lemma_relocated_values(u, m, from, branch, new);
    lemma_relocated_node(u, m, from, branch, new, branch);
    if ext is Some {
        lemma_relocated_node(u, m, from, branch, new, ext->0);
    }
}

/// Merging an extension with what became of the branch below it takes no value away.
proof fn lemma_join_values(m: TrieModel, ext: Option<Seq<u8>>, branch: Seq<u8>)
    requires
        m.sound(),
        m.has_node(branch),
        ext matches Some(above) ==> {
            &&& above.len() < branch.len()
            &&& m.has_node(above)
            &&& m.node(above) is Extension
            &&& above + m.node(above)->Extension_key == branch
        },
    ensures
        forall|x: Seq<u8>, v: Seq<u8>| #[trigger]
            m.ext_merged(ext, branch).keeps_value(x, v) <==> m.keeps_value(x, v),
{
    if ext is Some {
        let above = ext->0;
        let key = m.node(above)->Extension_key;
        if merged_ext(key, m.node(branch)) is Some {
            let joined = merged_ext(key, m.node(branch))->0;
            lemma_prefix_pointwise(above, branch);
            if let NodeModel::Leaf { key: rest, .. } = m.node(branch) {
                assert(above + (key + rest) =~= branch + rest);
            }
            lemma_ext_relocated(m, above, branch);
            lemma_relocated_values(m, m.ext_merged(ext, branch), Some(branch), above, joined);
        }
    }
}

/// A walk changes neither the changed keys nor what the trie has recorded.
pub proof fn lemma_walk_prefix(
    t: TrieModel,
    full: Seq<u8>,
    at: Seq<u8>,
    branch: Option<Seq<u8>>,
    ext: Option<Seq<u8>>,
)
    requires
        t.walk_ok(full, at),
    ensures
        t.walk(full, at, branch, ext).trie.prefix == t.prefix,
        t.walk(full, at, branch, ext).trie.updates == t.updates,
    decreases full.len() - at.len(),
{
    let node = t.node(at);
    match next_to_leaf(at, node, full) {
        Ok(NextModel::ContinueFrom(next)) => {
            let cleared = t.put_node(at, node.with_hash(None));
            lemma_cleared_shape(t, at);
            lemma_walk_ok_shape(t, cleared, full, next);
            if node is Branch {
                let leads = if branch is Some && ext is Some && branch->0.len() > ext->0.len() {
                    None
                } else {
                    ext
                };
                lemma_walk_prefix(cleared, full, next, Some(at), leads);
            } else {
                lemma_walk_prefix(cleared, full, next, branch, Some(at));
            }
        },
        _ => {},
    }
}

/// Merging changes no key.
proof fn lemma_merged_prefix(v: TrieModel, branch: Seq<u8>, child: Seq<u8>)
    ensures
        v.merged(branch, child).prefix == v.prefix,
{
}

/// Merging an extension with what became of the branch below it changes no key.
proof fn lemma_joined_prefix(m: TrieModel, ext: Option<Seq<u8>>, branch: Seq<u8>)
    ensures
        m.ext_merged(ext, branch).prefix == m.prefix,
{
}

/// Removing a leaf for which nothing has to be revealed succeeds, and the leaf counts as changed, if it
/// was there.
pub proof fn lemma_removed_prefix(
    t: TrieModel,
    full: Seq<u8>,
    reply: Result<Option<RevealedModel>, ErrorModel>,
)
    requires
        t.lower.len() == NUM_LOWER_SUBTRIES,
        t.removable(full),
        is_path(full),
        t.asks(full) is None,
        t.lookup(full) !is Unknown,
    ensures
        ({
            let removed = t.leaf_removed(full, reply);
            &&& removed.result is Ok
            &&& removed.trie.prefix.all == t.prefix.all
            &&& removed.trie.prefix.keys == if t.lookup(full) is At {
                t.prefix.keys.insert(full)
            } else {
                t.prefix.keys
            }
        }),
{
    let root = Seq::<u8>::empty();
    let walk = t.walk(full, root, None, None);
    let w = walk.trie;
    lemma_prefix_pointwise(root, full);
    lemma_walk(t, full, root, None, None);
    lemma_leaf_place(t, full);
    lemma_walk_prefix(t, full, root, None, None);
    match walk.end {
        WalkEnd::Leaf { path, branch, ext } => {
            let u = w.unlinked(full, path);
            if path.len() > 0 {
                let b = branch->0;
                let mask = w.mask_without(b, path);
                if child_nibbles(mask).len() == 1 {
                    let child = TrieModel::only_child(b, mask);
                    lemma_unlinked_child(w, full, path, b, ext, child);
                    lemma_unlinked(w, full, path, child);
                    lemma_merged_prefix(u, b, child);
                    lemma_joined_prefix(u.merged(b, child), ext, b);
                } else {
                    lemma_joined_prefix(u.put_node(b, NodeModel::new_branch(mask)), ext, b);
                }
            }
        },
        _ => {},
    }
}

}
