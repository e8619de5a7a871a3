//! The Merkle root depends on nothing but the leaves and their values.

use crate::error::ErrorModel;
use crate::hash_run::{lemma_kid_paths, lemma_nibbles_below};
use crate::hashing::kid_paths;
use crate::lookup::{lemma_leaf_place, lemma_passes_find, lemma_unlinked_child, lemma_walk, Lookup};
use crate::merkle::alike;
use crate::model::{child_nibbles, NodeModel};
use crate::normal::{lemma_kid_longer, lemma_leaf_value, lemma_whole_removable};
use crate::order::{lemma_prefix_pointwise, lemma_prefix_transitive};
use crate::outside::MAX_PATH_LEN;
use crate::path::is_path;
use crate::prefix_set::PrefixModel;
use crate::provider::RevealedModel;
use crate::removal::{merged_branch, merged_ext, next_to_leaf, takes_child, NextModel, WalkEnd};
use crate::remove::{lemma_put_node, lemma_unlinked};
use crate::remove_sound::{
    lemma_ext_relocated, lemma_linked_passes, lemma_merged_relocated, lemma_put_relocated,
    lemma_relocated_node, lemma_walk_alike, may_relocate, relocated,
};
use crate::soundness::lemma_alike_node;
use crate::trie::TrieModel;
use vstd::prelude::*;

verus! {

impl TrieModel {
    /// No node is blinded.
    pub open spec fn all_revealed(self) -> bool {
        forall|p: Seq<u8>| #[trigger] self.has_node(p) ==> self.node(p) !is Hash
    }

    /// Whether there is a leaf with a full path.
    pub open spec fn has_leaf(self, full: Seq<u8>) -> bool {
        self.lookup(full) is At
    }

    /// The value of the leaf with a full path.
    pub open spec fn leaf_value(self, full: Seq<u8>) -> Option<Seq<u8>> {
        self.value_at(self.lookup(full)->At_0, full)
    }
}

/// Whether two tries have the same leaves below a path, with the same values.
pub open spec fn same_leaves(a: TrieModel, b: TrieModel, path: Seq<u8>) -> bool {
    forall|full: Seq<u8>|
        is_path(full) && path.is_prefix_of(full) ==> #[trigger] a.has_leaf(full) == b.has_leaf(full)
            && (a.has_leaf(full) ==> a.leaf_value(full) == b.leaf_value(full))
}

/// A leaf is found at its path.
pub proof fn lemma_leaf_found(t: TrieModel, p: Seq<u8>)
    requires
        t.linked(),
        t.has_node(p),
        t.node(p) is Leaf,
    ensures
        t.lookup(p + t.node(p)->Leaf_key) == Lookup::At(p),
{
    let root = Seq::<u8>::empty();
    let full = p + t.node(p)->Leaf_key;
    lemma_prefix_pointwise(p, full);
    lemma_prefix_pointwise(root, full);
    lemma_linked_passes(t, full, p);
    lemma_passes_find(t, full, root, p, full);
}

/// What lies below a node is looked up from there.
proof fn lemma_found_below(t: TrieModel, p: Seq<u8>, full: Seq<u8>)
    requires
        t.linked(),
        t.has_node(p),
        p.is_prefix_of(full),
    ensures
        t.lookup(full) == t.find(full, p),
{
    let root = Seq::<u8>::empty();
    lemma_prefix_pointwise(root, full);
    lemma_linked_passes(t, full, p);
    lemma_passes_find(t, full, root, p, full);
}

/// Below each node there is a leaf, unless it is empty.
proof fn lemma_some_leaf(t: TrieModel, p: Seq<u8>) -> (full: Seq<u8>)
    requires
        t.whole(),
        t.all_revealed(),
        t.has_node(p),
        t.node(p) !is Empty,
    ensures
        is_path(full),
        p.is_prefix_of(full),
        t.has_leaf(full),
    decreases MAX_PATH_LEN - p.len(), 1int,
{
    assert(t.tidy(p));
    match t.node(p) {
        NodeModel::Leaf { key, .. } => {
            lemma_leaf_found(t, p);
            lemma_prefix_pointwise(p, p + key);
            p + key
        },
        NodeModel::Extension { .. } => lemma_leaf_at_kid(t, p, 0),
        _ => lemma_leaf_at_kid(t, p, 0),
    }
}

/// Below each child of a node there is a leaf.
proof fn lemma_leaf_at_kid(t: TrieModel, p: Seq<u8>, i: int) -> (full: Seq<u8>)
    requires
        t.whole(),
        t.all_revealed(),
        t.has_node(p),
        0 <= i < kid_paths(p, t.node(p)).len(),
    ensures
        is_path(full),
        p.is_prefix_of(full),
        kid_paths(p, t.node(p))[i].is_prefix_of(full),
        t.has_leaf(full),
    decreases MAX_PATH_LEN - p.len(), 0int,
{
    let kid = kid_paths(p, t.node(p))[i];
    assert(t.tidy(p));
    lemma_kid_longer(t, p, i);
    lemma_kid_paths(p, t.node(p));
    assert(t.has_node(kid));
    assert(t.tidy(kid));
    assert(p.is_prefix_of(kid));
    let full = lemma_some_leaf(t, kid);
    lemma_prefix_transitive(p, kid, full);
    full
}

/// What a leaf below a node has to do with the node.
proof fn lemma_leaf_fits(t: TrieModel, p: Seq<u8>, full: Seq<u8>)
    requires
        t.linked(),
        t.has_node(p),
        p.is_prefix_of(full),
        t.has_leaf(full),
    ensures
        match t.node(p) {
            NodeModel::Leaf { key, .. } => full == p + key,
            NodeModel::Extension { key, .. } => (p + key).is_prefix_of(full),
            NodeModel::Branch { mask, .. } => p.len() < full.len() && mask.contains(
                full[p.len() as int],
            ),
            _ => false,
        },
{
    lemma_found_below(t, p, full);
}

/// How far the leaves below a node go together.
spec fn fork_at(t: TrieModel, p: Seq<u8>) -> int {
    match t.node(p) {
        NodeModel::Extension { key, .. } => (p.len() + key.len()) as int,
        _ => p.len() as int,
    }
}

/// Below a branch or an extension there are two leaves that part where the node says.
proof fn lemma_fork(t: TrieModel, p: Seq<u8>) -> (leaves: (Seq<u8>, Seq<u8>))
    requires
        t.whole(),
        t.all_revealed(),
        t.has_node(p),
        t.node(p) is Branch || t.node(p) is Extension,
    ensures
        ({
            let d = fork_at(t, p);
            &&& is_path(leaves.0) && p.is_prefix_of(leaves.0) && t.has_leaf(leaves.0)
            &&& is_path(leaves.1) && p.is_prefix_of(leaves.1) && t.has_leaf(leaves.1)
            &&& d < leaves.0.len() && d < leaves.1.len()
            &&& leaves.0[d] != leaves.1[d]
        }),
    decreases MAX_PATH_LEN - p.len(),
{
    assert(t.tidy(p));
    match t.node(p) {
        NodeModel::Branch { mask, .. } => {
            lemma_nibbles_below(mask, 16);
            let kids = kid_paths(p, t.node(p));
            let x = lemma_leaf_at_kid(t, p, 0);
            let y = lemma_leaf_at_kid(t, p, 1);
            lemma_prefix_pointwise(kids[0], x);
            lemma_prefix_pointwise(kids[1], y);
            assert(kids[0][p.len() as int] == child_nibbles(mask)[0]);
            assert(kids[1][p.len() as int] == child_nibbles(mask)[1]);
            (x, y)
        },
        _ => {
            let key = t.node(p)->Extension_key;
            let kid = kid_paths(p, t.node(p))[0];
            assert(kid == p + key);
            assert(t.has_node(kid));
            lemma_prefix_pointwise(p, kid);
            let (x, y) = lemma_fork(t, kid);
            lemma_prefix_transitive(p, kid, x);
            lemma_prefix_transitive(p, kid, y);
            (x, y)
        },
    }
}

/// Having the same leaves goes both ways.
proof fn lemma_same_leaves_back(a: TrieModel, b: TrieModel, p: Seq<u8>)
    requires
        same_leaves(a, b, p),
    ensures
        same_leaves(b, a, p),
{
    assert forall|full: Seq<u8>|
        is_path(full) && p.is_prefix_of(full) implies #[trigger] b.has_leaf(full) == a.has_leaf(full)
        && (b.has_leaf(full) ==> b.leaf_value(full) == a.leaf_value(full)) by {
        assert(a.has_leaf(full) == b.has_leaf(full));
    }
}

/// Two nodes above the same leaves: if one is a leaf the other one is the same, and neither of them
/// is a leaf otherwise.
proof fn lemma_same_leaf(a: TrieModel, b: TrieModel, p: Seq<u8>)
    requires
        a.whole(),
        b.whole(),
        a.all_revealed(),
        b.all_revealed(),
        a.has_node(p),
        b.has_node(p),
        same_leaves(a, b, p),
        a.node(p) is Leaf,
    ensures
        b.node(p) is Leaf,
        b.node(p)->Leaf_key == a.node(p)->Leaf_key,
{
    let key = a.node(p)->Leaf_key;
    let full = p + key;
    assert(a.tidy(p));
    lemma_leaf_found(a, p);
    lemma_prefix_pointwise(p, full);
    assert(a.has_leaf(full));
    assert(b.has_leaf(full));
    lemma_leaf_fits(b, p, full);
    if b.node(p) is Leaf {
        let other = b.node(p)->Leaf_key;
        assert(key =~= full.skip(p.len() as int));
        assert(other =~= (p + other).skip(p.len() as int));
    } else {
        let (x, y) = lemma_fork(b, p);
        assert(a.has_leaf(x) == b.has_leaf(x));
        assert(a.has_leaf(y) == b.has_leaf(y));
        lemma_leaf_fits(a, p, x);
        lemma_leaf_fits(a, p, y);
    }
}

/// Where two nodes above the same leaves are branches or extensions, their leaves part at the same
/// place.
proof fn lemma_same_fork(a: TrieModel, b: TrieModel, p: Seq<u8>)
    requires
        a.whole(),
        b.whole(),
        a.all_revealed(),
        b.all_revealed(),
        a.has_node(p),
        b.has_node(p),
        same_leaves(a, b, p),
        a.node(p) is Branch || a.node(p) is Extension,
        b.node(p) is Branch || b.node(p) is Extension,
    ensures
        fork_at(a, p) >= fork_at(b, p),
        b.node(p) is Extension ==> a.node(p) is Extension && b.node(p)->Extension_key
            == a.node(p)->Extension_key.take(b.node(p)->Extension_key.len() as int),
{
    let (x, y) = lemma_fork(a, p);
    let d = fork_at(a, p);
    assert(a.tidy(p) && b.tidy(p));
    assert(a.has_leaf(x) == b.has_leaf(x));
    assert(a.has_leaf(y) == b.has_leaf(y));
    lemma_leaf_fits(b, p, x);
    lemma_leaf_fits(b, p, y);
    lemma_leaf_fits(a, p, x);
    if let NodeModel::Extension { key, .. } = b.node(p) {
        let end = p + key;
        lemma_prefix_pointwise(end, x);
        lemma_prefix_pointwise(end, y);
        if d < end.len() {
            assert(x[d] == end[d] && y[d] == end[d]);
        }
        assert(a.node(p) is Extension);
        let own = a.node(p)->Extension_key;
        lemma_prefix_pointwise(p + own, x);
        assert forall|i: int| 0 <= i < key.len() implies key[i] == own[i] by {
            assert(end[p.len() + i] == key[i]);
            assert((p + own)[p.len() + i] == own[i]);
            assert(x[p.len() + i] == key[i]);
        }
        assert(key =~= own.take(key.len() as int));
    }
}

/// Two branches above the same leaves have the same children.
proof fn lemma_same_mask(a: TrieModel, b: TrieModel, p: Seq<u8>, n: u8)
    requires
        a.whole(),
        b.whole(),
        a.all_revealed(),
        b.all_revealed(),
        a.has_node(p),
        b.has_node(p),
        same_leaves(a, b, p),
        a.node(p) is Branch,
        b.node(p) is Branch,
        a.node(p)->Branch_mask.contains(n),
    ensures
        b.node(p)->Branch_mask.contains(n),
{
    let mask = a.node(p)->Branch_mask;
    assert(a.tidy(p));
    lemma_nibbles_below(mask, 16);
    assert(child_nibbles(mask).contains(n));
    let i = child_nibbles(mask).index_of(n);
    let x = lemma_leaf_at_kid(a, p, i);
    let kid = kid_paths(p, a.node(p))[i];
    lemma_prefix_pointwise(kid, x);
    assert(kid[p.len() as int] == n);
    assert(a.has_leaf(x) == b.has_leaf(x));
    lemma_leaf_fits(b, p, x);
}

/// Two nodes above the same leaves are the same, but for what they keep of hashing.
proof fn lemma_same_node(a: TrieModel, b: TrieModel, p: Seq<u8>)
    requires
        a.whole(),
        b.whole(),
        a.all_revealed(),
        b.all_revealed(),
        a.has_node(p),
        b.has_node(p),
        same_leaves(a, b, p),
    ensures
        alike(a.node(p), b.node(p)),
{
    lemma_same_leaves_back(a, b, p);
    if a.node(p) is Empty || b.node(p) is Empty {
        if a.node(p) !is Empty {
            let x = lemma_some_leaf(a, p);
            assert(a.has_leaf(x) == b.has_leaf(x));
            lemma_leaf_fits(b, p, x);
        }
        if b.node(p) !is Empty {
            let x = lemma_some_leaf(b, p);
            assert(a.has_leaf(x) == b.has_leaf(x));
            lemma_leaf_fits(a, p, x);
        }
    } else if a.node(p) is Leaf {
        lemma_same_leaf(a, b, p);
    } else if b.node(p) is Leaf {
        lemma_same_leaf(b, a, p);
    } else {
        lemma_same_fork(a, b, p);
        lemma_same_fork(b, a, p);
        if a.node(p) is Branch {
            let x = a.node(p)->Branch_mask;
            let y = b.node(p)->Branch_mask;
            assert forall|n: u8| x.contains(n) == y.contains(n) by {
                if x.contains(n) {
                    lemma_same_mask(a, b, p, n);
                }
                if y.contains(n) {
                    lemma_same_mask(b, a, p, n);
                }
            }
            assert(x =~= y);
        } else {
            let x = a.node(p)->Extension_key;
            let y = b.node(p)->Extension_key;
            assert(x.len() == y.len());
            assert(x =~= y);
        }
    }
}

/// Two tries that are in normal form and have the same leaves below a path, with the same values,
/// stand for the same there.
pub proof fn lemma_same_merkle(a: TrieModel, b: TrieModel, p: Seq<u8>)
    requires
        a.whole(),
        b.whole(),
        a.all_revealed(),
        b.all_revealed(),
        a.has_node(p),
        b.has_node(p),
        same_leaves(a, b, p),
    ensures
        a.merkle(p) == b.merkle(p),
    decreases MAX_PATH_LEN - p.len(),
{
    let g = a.hashing(PrefixModel::none());
    let h = b.hashing(PrefixModel::none());
    assert(g.nodes[p] == a.node(p) && h.nodes[p] == b.node(p));
    assert(a.tidy(p) && b.tidy(p));
    lemma_same_node(a, b, p);
    let kids = g.all_kids(p);
    assert(kids == kid_paths(p, a.node(p)));
    assert(kids == h.all_kids(p));
    lemma_kid_paths(p, a.node(p));
    assert forall|i: int| 0 <= i < kids.len() implies g.plain_kids(p)[i] == h.plain_kids(p)[i] by {
        let kid = kids[i];
        lemma_kid_longer(a, p, i);
        assert(kid == kid_paths(p, b.node(p))[i]);
        assert(a.has_node(kid) && b.has_node(kid));
        assert(same_leaves(a, b, kid)) by {
            assert forall|full: Seq<u8>|
                is_path(full) && kid.is_prefix_of(full) implies #[trigger] a.has_leaf(full)
                == b.has_leaf(full) && (a.has_leaf(full) ==> a.leaf_value(full) == b.leaf_value(
                full,
            )) by {
                lemma_prefix_transitive(p, kid, full);
            }
        }
        lemma_same_merkle(a, b, kid);
    }
    assert(g.plain_kids(p) =~= h.plain_kids(p));
    if let NodeModel::Leaf { key, .. } = a.node(p) {
        let full = p + key;
        lemma_leaf_found(a, p);
        lemma_leaf_found(b, p);
        lemma_prefix_pointwise(p, full);
        assert(a.has_leaf(full) == b.has_leaf(full));
        lemma_leaf_value(a, p);
        lemma_leaf_value(b, p);
    }
}

// Removing a leaf.

/// Relocation leaves no blinded node where there was none.
proof fn lemma_relocated_revealed(
    t: TrieModel,
    r: TrieModel,
    from: Option<Seq<u8>>,
    to: Seq<u8>,
    new: NodeModel,
)
    requires
        t.all_revealed(),
        new !is Hash,
        may_relocate(t, from, to, new),
        relocated(t, r, from, to, new),
    ensures
        r.all_revealed(),
{
    assert forall|p: Seq<u8>| #[trigger] r.has_node(p) implies r.node(p) !is Hash by {
        lemma_relocated_node(t, r, from, to, new, p);
        if p != to {
            assert(t.has_node(p));
        }
    }
}

/// Where no node is blinded, removing a leaf succeeds and asks for none, and no node is blinded
/// afterwards.
pub proof fn lemma_removed_revealed(
    t: TrieModel,
    full: Seq<u8>,
    reply: Result<Option<RevealedModel>, ErrorModel>,
)
    requires
        t.whole(),
        t.all_revealed(),
        is_path(full),
    ensures
        t.asks(full) is None,
        t.leaf_removed(full, reply).result is Ok,
        t.leaf_removed(full, reply).trie.all_revealed(),
{
    let root = Seq::<u8>::empty();
    let walk = t.walk(full, root, None, None);
    let w = walk.trie;
    let r = t.leaf_removed(full, reply).trie;
    lemma_whole_removable(t, full);
    lemma_prefix_pointwise(root, full);
    lemma_walk(t, full, root, None, None);
    lemma_walk_alike(t, full, root, None, None);
    lemma_leaf_place(t, full);
    lemma_find_known(t, full, root);
    assert forall|p: Seq<u8>| #[trigger] w.has_node(p) implies w.node(p) !is Hash by {
        lemma_alike_node(t, w, p);
    }
    match walk.end {
        WalkEnd::Leaf { path, branch, ext } => {
            let u = w.unlinked(full, path);
            lemma_alike_node(t, w, path);
            assert forall|p: Seq<u8>| #[trigger] u.has_node(p) implies u.node(p) !is Hash by {
                lemma_unlinked(w, full, path, p);
                assert(w.has_node(p));
            }
            lemma_unlinked(w, full, path, path);
            if path.len() == 0 {
                assert(path =~= root);
                lemma_put_relocated(u, root, NodeModel::Empty);
                lemma_relocated_revealed(u, r, None, root, NodeModel::Empty);
            } else {
                let b = branch->0;
                let mask = w.mask_without(b, path);
                lemma_unlinked(w, full, path, b);
                if ext is Some {
                    lemma_unlinked(w, full, path, ext->0);
                    lemma_prefix_pointwise(ext->0, b);
                }
                if child_nibbles(mask).len() == 1 {
                    let child = TrieModel::only_child(b, mask);
                    lemma_unlinked_child(w, full, path, b, ext, child);
                    lemma_unlinked(w, full, path, child);
                    lemma_merged_revealed(u, b, child, ext);
                } else {
                    let new = NodeModel::new_branch(mask);
                    lemma_put_relocated(u, b, new);
                    lemma_relocated_revealed(u, u.put_node(b, new), None, b, new);
                    lemma_put_node(u, b, new, b);
                    if ext is Some {
                        lemma_put_node(u, b, new, ext->0);
                    }
                    assert(r == u.put_node(b, new));
                }
            }
        },
        _ => {},
    }
}

/// Where no node is blinded, a lookup ends.
pub proof fn lemma_find_known(t: TrieModel, full: Seq<u8>, at: Seq<u8>)
    requires
        t.all_revealed(),
        t.walk_ok(full, at),
    ensures
        t.find(full, at) !is Unknown,
    decreases full.len() - at.len(),
{
    match next_to_leaf(at, t.node(at), full) {
        Ok(NextModel::ContinueFrom(next)) => {
            lemma_find_known(t, full, next);
        },
        _ => {},
    }
}

/// Merging leaves no blinded node where there was none.
proof fn lemma_merged_revealed(u: TrieModel, branch: Seq<u8>, child: Seq<u8>, ext: Option<Seq<u8>>)
    requires
        u.all_revealed(),
        u.has_node(branch),
        u.node(branch) is Branch,
        u.has_node(child),
        child.len() == branch.len() + 1,
        child == branch.push(child.last()),
        ext matches Some(above) ==> {
            &&& above.len() < branch.len()
            &&& u.has_node(above)
            &&& u.node(above) is Extension
            &&& above + u.node(above)->Extension_key == branch
        },
    ensures
        u.merged(branch, child).ext_merged(ext, branch).all_revealed(),
{
    let node = u.node(child);
    let new = merged_branch(child.last(), node);
    let from = if takes_child(node) {
        Some(child)
    } else {
        None
    };
    let m = u.merged(branch, child);
    lemma_prefix_pointwise(branch, child);
    if let NodeModel::Leaf { key, .. } = node {
        assert(branch + (seq![child.last()] + key) =~= child + key);
    }
    lemma_merged_relocated(u, branch, child);
    lemma_relocated_revealed(u, m, from, branch, new);
    lemma_relocated_node(u, m, from, branch, new, branch);
    if ext is Some {
        let above = ext->0;
        lemma_relocated_node(u, m, from, branch, new, above);
        lemma_prefix_pointwise(above, branch);
        let key = m.node(above)->Extension_key;
        if merged_ext(key, m.node(branch)) is Some {
            let joined = merged_ext(key, m.node(branch))->0;
            if let NodeModel::Leaf { key: rest, .. } = m.node(branch) {
                assert(above + (key + rest) =~= branch + rest);
            }
            lemma_ext_relocated(m, above, branch);
            lemma_relocated_revealed(m, m.ext_merged(ext, branch), Some(branch), above, joined);
        }
    }
}

}
