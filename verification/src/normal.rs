//! The normal form of a trie: what makes every leaf removable, and that removal keeps it.

use crate::error::ErrorModel;
use crate::form::{lemma_reveal_normal, reply_in_form};
use crate::hash_run::{lemma_kid_paths, lemma_nibbles_below};
use crate::hashing::{deeper, kid_paths, Hashing};
use crate::kept_hashes::{
    lemma_blind_bottom, lemma_passes_apart, lemma_reply_same, lemma_trie_unblinded,
    lemma_way_leads_on, same_below,
};
use crate::lookup::{
    child_known, leaf_place, lemma_child_known, lemma_child_path, lemma_cleared_shape,
    lemma_ext_all, lemma_leaf_place, lemma_merged_all, lemma_passes_below, lemma_unlinked_child,
    lemma_walk, Lookup, lemma_walk_ok_shape,
};
use crate::merkle::alike;
use crate::model::{child_nibbles, nibbles_below, NodeModel};
use crate::order::{lemma_prefix_pointwise, lemma_prefix_transitive};
use crate::outside::{decoded_node, MAX_PATH_LEN};
use crate::path::{is_path, is_upper, lower_index_of, NUM_LOWER_SUBTRIES};
use crate::provider::RevealedModel;
use crate::removal::{merged_branch, merged_ext, next_to_leaf, takes_child, NextModel, WalkEnd};
use crate::remove::{collapsible, lemma_put_node, lemma_unlinked};
use crate::remove_sound::{
    lemma_ext_linked, lemma_put_linked, lemma_cleared_alike, lemma_ext_relocated,
    lemma_known_sound, lemma_linked_passes, lemma_merged_linked, lemma_merged_relocated,
    lemma_merged_sound, lemma_only_kid, lemma_put_relocated, lemma_relocated_node,
    lemma_removed_sound, lemma_unlinked_linked, lemma_unlinked_sound, lemma_walk_alike,
    may_relocate, relocated,
};
use crate::root::lemma_owns_below;
use crate::soundness::{
    alike_subtries, alike_tries, lemma_alike_linked, lemma_alike_node, lemma_alike_sound,
};
use crate::trie::TrieModel;
use crate::values::lemma_walk_prefix;
use vstd::prelude::*;

verus! {

impl TrieModel {
    /// Whether the node at a path is in normal form: only the root is empty, a branch has at least
    /// two children, an extension has a key and leads to a branch or to a blinded node, and all
    /// paths are made of nibbles and fit.
    pub open spec fn node_normal(self, p: Seq<u8>) -> bool {
        &&& is_path(p)
        &&& match self.node(p) {
            NodeModel::Empty => p.len() == 0,
            NodeModel::Hash(_) => true,
            NodeModel::Leaf { key, .. } => is_path(p + key),
            NodeModel::Extension { key, .. } => {
                &&& key.len() > 0
                &&& is_path(p + key)
                &&& self.has_node(p + key) ==> self.node(p + key) is Branch || self.node(
                    p + key,
                ) is Hash
            },
            NodeModel::Branch { mask, .. } => {
                &&& child_nibbles(mask).len() >= 2
                &&& p.len() < MAX_PATH_LEN
                &&& forall|n: u8| #[trigger] mask.contains(n) ==> n < 16
            },
        }
    }

    /// Whether the children of the node at a path are there.
    pub open spec fn kids_there(self, p: Seq<u8>) -> bool {
        forall|i: int|
            0 <= i < kid_paths(p, self.node(p)).len() ==> self.has_node(
                #[trigger] kid_paths(p, self.node(p))[i],
            )
    }

    /// Whether the node at a path, if there is one, is in normal form and has its children.
    pub open spec fn tidy(self, p: Seq<u8>) -> bool {
        self.has_node(p) ==> self.node_normal(p) && self.kids_there(p)
    }

    /// All nodes are in normal form, and the children of each are there, if only blinded.
    pub open spec fn normal(self) -> bool {
        forall|p: Seq<u8>| #[trigger] self.tidy(p)
    }

    /// A trie that is sound and in normal form, with a root.
    pub open spec fn whole(self) -> bool {
        &&& self.sound()
        &&& self.normal()
        &&& self.has_node(Seq::empty())
    }
}

/// No node is a child of two others.
proof fn lemma_one_parent(t: TrieModel, a: Seq<u8>, b: Seq<u8>, q: Seq<u8>)
    requires
        t.linked(),
        t.has_node(a),
        t.has_node(b),
        a.len() < q.len(),
        b.len() < q.len(),
        kid_paths(a, t.node(a)).contains(q),
        kid_paths(b, t.node(b)).contains(q),
    ensures
        a == b,
    decreases a.len(),
{
    if a.len() > b.len() {
        lemma_one_parent(t, b, a, q);
    } else {
        let root = Seq::<u8>::empty();
        let i = kid_paths(a, t.node(a)).index_of(q);
        let j = kid_paths(b, t.node(b)).index_of(q);
        lemma_kid_paths(a, t.node(a));
        lemma_kid_paths(b, t.node(b));
        assert(a.is_prefix_of(kid_paths(a, t.node(a))[i]));
        assert(b.is_prefix_of(kid_paths(b, t.node(b))[j]));
        lemma_prefix_pointwise(root, q);
        lemma_prefix_pointwise(a, q);
        lemma_prefix_pointwise(b, q);
        lemma_linked_passes(t, q, a);
        lemma_linked_passes(t, q, b);
        lemma_passes_apart(t, q, root, a, b);
        if a != b {
            lemma_kid_next(t, a, q, q);
            lemma_prefix_pointwise(q, q);
            assert(t.passes(q, q, b));
            lemma_passes_below(t, q, q, b);
            lemma_prefix_pointwise(q, b);
        }
    }
}

/// The way to what lies at a child, or below it, goes on at the child.
proof fn lemma_kid_next(t: TrieModel, a: Seq<u8>, q: Seq<u8>, full: Seq<u8>)
    requires
        a.len() < q.len(),
        kid_paths(a, t.node(a)).contains(q),
        q.is_prefix_of(full),
    ensures
        next_to_leaf(a, t.node(a), full) == Ok::<NextModel, ErrorModel>(NextModel::ContinueFrom(q)),
{
    let i = kid_paths(a, t.node(a)).index_of(q);
    lemma_prefix_pointwise(q, full);
    match t.node(a) {
        NodeModel::Branch { mask, .. } => {
            lemma_nibbles_below(mask, 16);
            assert(q == a.push(child_nibbles(mask)[i]));
            assert(full[a.len() as int] == q[a.len() as int]);
        },
        _ => {},
    }
}

/// Where the way to a leaf goes on from a node is a child of the node.
proof fn lemma_next_kid(t: TrieModel, a: Seq<u8>, full: Seq<u8>)
    requires
        is_path(full),
        next_to_leaf(a, t.node(a), full) matches Ok(NextModel::ContinueFrom(_)),
    ensures
        kid_paths(a, t.node(a)).contains(
            next_to_leaf(a, t.node(a), full)->Ok_0->ContinueFrom_0,
        ),
{
    let next = next_to_leaf(a, t.node(a), full)->Ok_0->ContinueFrom_0;
    let kids = kid_paths(a, t.node(a));
    match t.node(a) {
        NodeModel::Branch { mask, .. } => {
            let n = full[a.len() as int];
            lemma_nibbles_below(mask, 16);
            assert(n < 16);
            assert(child_nibbles(mask).contains(n));
            let i = child_nibbles(mask).index_of(n);
            assert(kids[i] == next);
        },
        _ => {
            assert(kids[0] == next);
        },
    }
}

/// In a trie in normal form, the way to a leaf finds its nodes.
proof fn lemma_normal_walk_ok(t: TrieModel, full: Seq<u8>, at: Seq<u8>)
    requires
        t.normal(),
        t.has_node(at),
        at.is_prefix_of(full),
        is_path(full),
    ensures
        t.walk_ok(full, at),
    decreases full.len() - at.len(),
{
    assert(t.tidy(at));
    match next_to_leaf(at, t.node(at), full) {
        Ok(NextModel::ContinueFrom(next)) => {
            lemma_next_kid(t, at, full);
            let i = kid_paths(at, t.node(at)).index_of(next);
            assert(t.has_node(kid_paths(at, t.node(at))[i]));
            lemma_prefix_pointwise(at, full);
            lemma_prefix_pointwise(next, full);
            lemma_normal_walk_ok(t, full, next);
        },
        _ => {},
    }
}

/// What a walk knows of the nodes above the one it has come to: the last branch and the extension
/// that leads to it, or the extension that leads to the node itself.
spec fn led(t: TrieModel, at: Seq<u8>, branch: Option<Seq<u8>>, ext: Option<Seq<u8>>) -> bool {
    ||| at.len() == 0 && branch is None && ext is None
    ||| {
        &&& branch matches Some(b) && t.has_node(b) && t.node(b) is Branch && b.len() < at.len()
            && kid_paths(b, t.node(b)).contains(at)
        &&& branch_led(t, branch->0, ext)
    }
    ||| {
        &&& ext matches Some(e) && t.has_node(e) && t.node(e) is Extension && e.len() < at.len()
            && kid_paths(e, t.node(e)).contains(at)
        &&& branch matches Some(b) ==> b.len() < ext->0.len()
    }
}

/// What is known of the extension above a branch: it leads there, or there is none.
pub open spec fn branch_led(t: TrieModel, branch: Seq<u8>, ext: Option<Seq<u8>>) -> bool {
    match ext {
        Some(e) => {
            &&& t.has_node(e)
            &&& t.node(e) is Extension
            &&& e.len() < branch.len()
            &&& kid_paths(e, t.node(e)).contains(branch)
        },
        None => branch.len() == 0 || exists|c: Seq<u8>| #[trigger]
            t.has_node(c) && c.len() < branch.len() && t.node(c) is Branch && kid_paths(
                c,
                t.node(c),
            ).contains(branch),
    }
}

/// What is known of the extension above a branch does not depend on hashes.
proof fn lemma_branch_led_alike(
    a: TrieModel,
    b: TrieModel,
    branch: Seq<u8>,
    ext: Option<Seq<u8>>,
)
    requires
        alike_tries(a, b),
        branch_led(a, branch, ext),
    ensures
        branch_led(b, branch, ext),
{
    match ext {
        Some(e) => {
            lemma_alike_node(a, b, e);
        },
        None => {
            if branch.len() > 0 {
                let c = choose|c: Seq<u8>| #[trigger]
                    a.has_node(c) && c.len() < branch.len() && a.node(c) is Branch && kid_paths(
                        c,
                        a.node(c),
                    ).contains(branch);
                lemma_alike_node(a, b, c);
                assert(b.has_node(c));
            }
        },
    }
}

/// What a walk knows of the nodes above does not depend on hashes.
proof fn lemma_led_alike(
    a: TrieModel,
    b: TrieModel,
    at: Seq<u8>,
    branch: Option<Seq<u8>>,
    ext: Option<Seq<u8>>,
)
    requires
        alike_tries(a, b),
        led(a, at, branch, ext),
    ensures
        led(b, at, branch, ext),
{
    if branch is Some {
        lemma_alike_node(a, b, branch->0);
        if branch_led(a, branch->0, ext) {
            lemma_branch_led_alike(a, b, branch->0, ext);
        }
    }
    if ext is Some {
        lemma_alike_node(a, b, ext->0);
    }
}

/// What the walk to a leaf knows at its end.
proof fn lemma_walk_led(
    t: TrieModel,
    full: Seq<u8>,
    at: Seq<u8>,
    branch: Option<Seq<u8>>,
    ext: Option<Seq<u8>>,
)
    requires
        t.walk_ok(full, at),
        at.is_prefix_of(full),
        is_path(full),
        led(t, at, branch, ext),
    ensures
        ({
            let walk = t.walk(full, at, branch, ext);
            walk.end matches WalkEnd::Leaf { path, branch: b, ext: e } ==> led(t, path, b, e)
        }),
    decreases full.len() - at.len(),
{
    let node = t.node(at);
    match next_to_leaf(at, node, full) {
        Ok(NextModel::ContinueFrom(next)) => {
            let cleared = t.put_node(at, node.with_hash(None));
            lemma_cleared_shape(t, at);
            lemma_cleared_alike(t, at);
            lemma_alike_symmetric(t, cleared);
            lemma_walk_ok_shape(t, cleared, full, next);
            lemma_prefix_pointwise(at, full);
            lemma_prefix_pointwise(next, full);
            lemma_next_kid(t, at, full);
            let (b, e) = if node is Branch {
                (
                    Some(at),
                    if branch is Some && ext is Some && branch->0.len() > ext->0.len() {
                        None
                    } else {
                        ext
                    },
                )
            } else {
                (branch, Some(at))
            };
            assert(led(t, next, b, e));
            lemma_led_alike(t, cleared, next, b, e);
            lemma_walk_led(cleared, full, next, b, e);
            let walk = cleared.walk(full, next, b, e);
            match walk.end {
                WalkEnd::Leaf { path, branch: x, ext: y } => {
                    lemma_led_alike(cleared, t, path, x, y);
                },
                _ => {},
            }
        },
        _ => {},
    }
}

/// Being the same but for hashing goes both ways.
proof fn lemma_alike_symmetric(a: TrieModel, b: TrieModel)
    requires
        alike_tries(a, b),
    ensures
        alike_tries(b, a),
{
    assert forall|q: Seq<u8>| #[trigger] b.upper.nodes.contains_key(q)
        == a.upper.nodes.contains_key(q) && (b.upper.nodes.contains_key(q) ==> alike(
        b.upper.nodes[q],
        a.upper.nodes[q],
    )) by {
        assert(a.upper.nodes.contains_key(q) == b.upper.nodes.contains_key(q));
    }
    assert forall|i: int| 0 <= i < b.lower.len() implies match #[trigger] b.lower[i] {
        Some(subtrie) => a.lower[i] is Some && alike_subtries(subtrie, a.lower[i]->0),
        None => a.lower[i] is None,
    } by {
        assert(a.lower[i] is Some == b.lower[i] is Some);
        if b.lower[i] is Some {
            let x = b.lower[i]->0;
            let y = a.lower[i]->0;
            assert forall|q: Seq<u8>| #[trigger] x.nodes.contains_key(q) == y.nodes.contains_key(q)
                && (x.nodes.contains_key(q) ==> alike(x.nodes[q], y.nodes[q])) by {
                assert(y.nodes.contains_key(q) == x.nodes.contains_key(q));
            }
        }
    }
}

/// The normal form does not depend on what nodes keep of hashing.
pub proof fn lemma_alike_normal(a: TrieModel, b: TrieModel)
    requires
        alike_tries(a, b),
        a.normal(),
    ensures
        b.normal(),
{
    assert forall|p: Seq<u8>| #[trigger] b.tidy(p) by {
        lemma_alike_node(a, b, p);
        assert(a.tidy(p));
        if b.has_node(p) {
            if let NodeModel::Extension { key, .. } = a.node(p) {
                lemma_alike_node(a, b, p + key);
            }
            assert forall|i: int| 0 <= i < kid_paths(p, b.node(p)).len() implies b.has_node(
                #[trigger] kid_paths(p, b.node(p))[i],
            ) by {
                let kid = kid_paths(p, a.node(p))[i];
                assert(a.has_node(kid));
                lemma_alike_node(a, b, kid);
            }
        }
    }
}

/// A leaf that is there has its value.
pub proof fn lemma_leaf_value(t: TrieModel, p: Seq<u8>)
    requires
        t.valued(),
        t.has_node(p),
        t.node(p) is Leaf,
    ensures
        t.source_at(p).values.contains_key(p + t.node(p)->Leaf_key),
{
    if !is_upper(p) {
        let i = lower_index_of(p);
        assert(t.lower[i] is Some);
        assert(t.lower[i]->0.valued());
        assert(t.lower[i]->0.nodes.contains_key(p));
    } else {
        assert(t.upper.nodes.contains_key(p));
    }
}

/// What the walk to a leaf knows at its end, in a trie in normal form: the leaf is the root, or a
/// child of the last branch, and an extension leads to that branch or there is none above it.
pub proof fn lemma_normal_led(t: TrieModel, full: Seq<u8>)
    requires
        t.normal(),
        t.has_node(Seq::empty()),
        is_path(full),
    ensures
        ({
            let walk = t.walk(full, Seq::empty(), None, None);
            &&& t.walk_ok(full, Seq::empty())
            &&& walk.end matches WalkEnd::Leaf { path, branch, ext } ==> path.len() > 0 ==> {
                &&& t.has_node(path)
                &&& t.node(path) is Leaf
                &&& branch is Some
                &&& t.has_node(branch->0)
                &&& t.node(branch->0) is Branch
                &&& kid_paths(branch->0, t.node(branch->0)).contains(path)
                &&& branch_led(t, branch->0, ext)
            }
        }),
{
    let root = Seq::<u8>::empty();
    let walk = t.walk(full, root, None, None);
    lemma_prefix_pointwise(root, full);
    lemma_normal_walk_ok(t, full, root);
    assert(led(t, root, None, None));
    lemma_walk_led(t, full, root, None, None);
    lemma_walk(t, full, root, None, None);
    match walk.end {
        WalkEnd::Leaf { path, branch, ext } => {
            lemma_passes_below(t, full, root, path);
            if path.len() > 0 && ext is Some && t.has_node(ext->0) && t.node(ext->0) is Extension
                && kid_paths(ext->0, t.node(ext->0)).contains(path) {
                assert(t.tidy(ext->0));
                assert(ext->0 + t.node(ext->0)->Extension_key == path);
            }
        },
        _ => {},
    }
}

/// In a trie that is sound and in normal form, every leaf can be removed.
pub proof fn lemma_whole_removable(t: TrieModel, full: Seq<u8>)
    requires
        t.whole(),
        is_path(full),
    ensures
        t.removable(full),
{
    let root = Seq::<u8>::empty();
    let walk = t.walk(full, root, None, None);
    let w = walk.trie;
    lemma_normal_led(t, full);
    lemma_walk_alike(t, full, root, None, None);
    match walk.end {
        WalkEnd::Leaf { path, branch, ext } => {
            if path.len() > 0 {
                let b = branch->0;
                lemma_alike_node(t, w, b);
                if ext is Some {
                    lemma_alike_node(t, w, ext->0);
                    assert(ext->0 + w.node(ext->0)->Extension_key == b);
                }
                let mask = w.mask_without(b, path);
                if child_nibbles(mask).len() == 1 {
                    let child = TrieModel::only_child(b, mask);
                    let all = t.node(b)->Branch_mask;
                    let n = child_nibbles(mask)[0];
                    lemma_nibbles_below(mask, 16);
                    lemma_nibbles_below(all, 16);
                    assert(mask.contains(n));
                    assert(all.contains(n));
                    assert(child_nibbles(all).contains(n));
                    let i = child_nibbles(all).index_of(n);
                    assert(t.tidy(b));
                    assert(kid_paths(b, t.node(b))[i] == child);
                    assert(t.has_node(child));
                    assert(t.tidy(child));
                    lemma_alike_node(t, w, child);
                    if t.node(child) is Leaf {
                        lemma_leaf_value(t, child);
                    }
                }
            }
        },
        _ => {},
    }
}

// Removing a leaf.

/// All nodes are in normal form and have their children, but for the one at a path.
pub open spec fn normal_but(t: TrieModel, open: Option<Seq<u8>>) -> bool {
    forall|p: Seq<u8>| Some(p) != open ==> #[trigger] t.tidy(p)
}

/// A mask without one of its nibbles has one nibble fewer.
pub proof fn lemma_one_fewer(mask: Set<u8>, n: u8, bound: int)
    requires
        0 <= bound <= 16,
        mask.contains(n),
    ensures
        nibbles_below(mask, bound).len() == nibbles_below(mask.remove(n), bound).len() + (if n
            < bound {
            1int
        } else {
            0
        }),
    decreases bound,
{
    if bound > 0 {
        lemma_one_fewer(mask, n, bound - 1);
    }
}

/// Whether a node is in normal form, and stays so when the node at `from` is dropped and that at `to`
/// replaced.
spec fn undisturbed(
    t: TrieModel,
    from: Option<Seq<u8>>,
    to: Seq<u8>,
    new: NodeModel,
    p: Seq<u8>,
) -> bool {
    t.has_node(p) ==> {
        &&& t.node_normal(p)
        &&& t.kids_there(p)
        &&& from matches Some(f) ==> !kid_paths(p, t.node(p)).contains(f)
        &&& t.node(p) is Extension && p + t.node(p)->Extension_key == to ==> new is Branch
            || new is Hash
    }
}

/// Relocation keeps the normal form, if the new node is in normal form, and no other node but one
/// that does not count has the dropped node as its child, or is an extension that leads to the new
/// one.
proof fn lemma_relocated_normal(
    t: TrieModel,
    r: TrieModel,
    from: Option<Seq<u8>>,
    to: Seq<u8>,
    new: NodeModel,
    open: Option<Seq<u8>>,
)
    requires
        may_relocate(t, from, to, new),
        relocated(t, r, from, to, new),
        forall|p: Seq<u8>|
            p != to && Some(p) != from && Some(p) != open ==> #[trigger] undisturbed(
                t,
                from,
                to,
                new,
                p,
            ),
        r.tidy(to),
    ensures
        normal_but(r, open),
{
    assert forall|p: Seq<u8>| Some(p) != open implies #[trigger] r.tidy(p) by {
        lemma_relocated_node(t, r, from, to, new, p);
        if p != to && r.has_node(p) {
            assert(undisturbed(t, from, to, new, p));
            if let NodeModel::Extension { key, .. } = t.node(p) {
                lemma_relocated_node(t, r, from, to, new, p + key);
            }
            assert forall|i: int| 0 <= i < kid_paths(p, r.node(p)).len() implies r.has_node(
                #[trigger] kid_paths(p, r.node(p))[i],
            ) by {
                let kid = kid_paths(p, t.node(p))[i];
                assert(t.has_node(kid));
                assert(kid_paths(p, t.node(p)).contains(kid));
                lemma_relocated_node(t, r, from, to, new, kid);
            }
        }
    }
}

/// Once a leaf was taken out, all nodes but the branch above it are in normal form.
proof fn lemma_unlinked_normal(w: TrieModel, full: Seq<u8>, path: Seq<u8>, branch: Seq<u8>)
    requires
        w.linked(),
        w.normal(),
        w.has_node(path),
        w.node(path) is Leaf,
        path.len() > 0,
        w.has_node(branch),
        branch.len() < path.len(),
        kid_paths(branch, w.node(branch)).contains(path),
    ensures
        normal_but(w.unlinked(full, path), Some(branch)),
{
    let u = w.unlinked(full, path);
    assert forall|p: Seq<u8>| Some(p) != Some(branch) implies #[trigger] u.tidy(p) by {
        lemma_unlinked(w, full, path, p);
        assert(w.tidy(p));
        if u.has_node(p) {
            if let NodeModel::Extension { key, .. } = w.node(p) {
                lemma_unlinked(w, full, path, p + key);
            }
            assert forall|i: int| 0 <= i < kid_paths(p, u.node(p)).len() implies u.has_node(
                #[trigger] kid_paths(p, u.node(p))[i],
            ) by {
                let kid = kid_paths(p, w.node(p))[i];
                assert(w.has_node(kid));
                assert(kid_paths(p, w.node(p)).contains(kid));
                lemma_unlinked(w, full, path, kid);
                if kid == path {
                    lemma_kid_longer(w, p, i);
                    lemma_one_parent(w, p, branch, path);
                }
            }
        }
    }
}

/// In normal form, the path of a child is longer than that of its parent.
pub proof fn lemma_kid_longer(t: TrieModel, p: Seq<u8>, i: int)
    requires
        t.node_normal(p),
        0 <= i < kid_paths(p, t.node(p)).len(),
    ensures
        p.len() < kid_paths(p, t.node(p))[i].len() <= MAX_PATH_LEN,
{
}

/// Whether the only child that is left of the branch above a leaf, once the leaf was taken out and
/// the child is known, and all other nodes but the branch, are in normal form.
proof fn lemma_known_normal(
    t: TrieModel,
    w: TrieModel,
    full: Seq<u8>,
    path: Seq<u8>,
    branch: Seq<u8>,
    ext: Option<Seq<u8>>,
    child: Seq<u8>,
    reply: Result<Option<RevealedModel>, ErrorModel>,
)
    requires
        t.sound(),
        w.sound(),
        alike_tries(t, w),
        normal_but(w.unlinked(full, path), Some(branch)),
        leaf_place(w, full, path, branch, ext),
        child.len() == branch.len() + 1,
        child.last() < 16,
        branch.is_prefix_of(child),
        child[branch.len() as int] != full[branch.len() as int],
        kid_paths(branch, w.node(branch)).contains(child),
        w.has_node(child),
        w.node(child) !is Empty,
        w.child_fits(branch, ext, child),
        child_known(w.unlinked(full, path), child, reply).result is Ok,
        w.node(child) is Hash ==> t.reveal_reply(child, reply).trie.normal(),
    ensures
        normal_but(child_known(w.unlinked(full, path), child, reply).trie, Some(branch)),
{
    let u = w.unlinked(full, path);
    let v = child_known(u, child, reply).trie;
    lemma_unlinked(w, full, path, child);
    lemma_unlinked(w, full, path, branch);
    lemma_prefix_pointwise(branch, full);
    lemma_prefix_pointwise(child, full);
    lemma_prefix_pointwise(branch, child);
    assert(path[branch.len() as int] == full[branch.len() as int]);
    if w.node(child) is Hash {
        let r = t.reveal_reply(child, reply).trie;
        lemma_unlinked_sound(w, full, path);
        lemma_child_known(w, full, path, branch, ext, child, reply);
        lemma_child_path(full, branch, child);
        lemma_reply_same(t, w, full, path, child, reply);
        assert(same_below(v, r, child));
        assert forall|q: Seq<u8>| !child.is_prefix_of(q) implies #[trigger] v.has_node(q)
            == u.has_node(q) && (u.has_node(q) ==> v.node(q) == u.node(q)) by {
            lemma_unlinked(w, full, path, q);
        }
        lemma_prefix_pointwise(child, child);
        assert forall|p: Seq<u8>| Some(p) != Some(branch) implies #[trigger] v.tidy(p) by {
            if v.has_node(p) {
                if child.is_prefix_of(p) {
                    lemma_same_normal(v, r, child, p);
                } else {
                    assert(u.has_node(p) == v.has_node(p));
                    assert(u.tidy(p));
                    lemma_off_normal(u, v, branch, child, p);
                }
            }
        }
    }
}

/// Below a path where two tries are the same, a node is in normal form in both.
proof fn lemma_same_normal(v: TrieModel, r: TrieModel, child: Seq<u8>, p: Seq<u8>)
    requires
        same_below(v, r, child),
        child.is_prefix_of(p),
        v.has_node(p),
        r.normal(),
    ensures
        v.node_normal(p),
        v.kids_there(p),
{
    assert(v.has_node(p) == r.has_node(p));
    assert(r.tidy(p));
    assert(kid_paths(p, v.node(p)) == kid_paths(p, r.node(p)));
    lemma_kid_paths(p, v.node(p));
    if let NodeModel::Extension { key, .. } = v.node(p) {
        assert(kid_paths(p, v.node(p))[0] == p + key);
        lemma_prefix_transitive(child, p, p + key);
        assert(v.has_node(p + key) == r.has_node(p + key));
    }
    assert forall|i: int| 0 <= i < kid_paths(p, v.node(p)).len() implies v.has_node(
        #[trigger] kid_paths(p, v.node(p))[i],
    ) by {
        let kid = kid_paths(p, r.node(p))[i];
        assert(r.has_node(kid));
        lemma_prefix_transitive(child, p, kid);
        assert(v.has_node(kid) == r.has_node(kid));
    }
}

/// Off a blinded node that was revealed, nodes stay in normal form.
proof fn lemma_off_normal(u: TrieModel, v: TrieModel, branch: Seq<u8>, child: Seq<u8>, p: Seq<u8>)
    requires
        u.linked(),
        u.has_node(branch),
        branch.len() < child.len(),
        kid_paths(branch, u.node(branch)).contains(child),
        u.has_node(child),
        u.node(child) is Hash,
        forall|q: Seq<u8>|
            !child.is_prefix_of(q) ==> #[trigger] v.has_node(q) == u.has_node(q) && (u.has_node(q)
                ==> v.node(q) == u.node(q)),
        v.has_node(child),
        u.has_node(p),
        p != branch,
        v.node(p) == u.node(p),
        u.node_normal(p),
        u.kids_there(p),
    ensures
        v.node_normal(p),
        v.kids_there(p),
{
    let kids = kid_paths(p, u.node(p));
    assert forall|i: int| 0 <= i < kids.len() implies v.has_node(#[trigger] kids[i]) && v.node(
        kids[i],
    ) == u.node(kids[i]) by {
        let kid = kids[i];
        assert(u.has_node(kid));
        lemma_kid_longer(u, p, i);
        if child.is_prefix_of(kid) {
            lemma_blind_bottom(u, child, kid);
            assert(kids.contains(child));
            lemma_one_parent(u, p, branch, child);
        }
        assert(v.has_node(kid) == u.has_node(kid));
    }
    if let NodeModel::Extension { key, .. } = u.node(p) {
        assert(kids[0] == p + key);
    }
}

/// What a branch with one child left becomes is in normal form.
proof fn lemma_merged_tidy(v: TrieModel, branch: Seq<u8>, child: Seq<u8>)
    requires
        child.len() == branch.len() + 1,
        branch.is_prefix_of(child),
        v.has_node(branch),
        v.has_node(child),
        v.node(branch) is Branch,
        v.node(child) is Leaf || v.node(child) is Extension || v.node(child) is Branch,
        v.tidy(child),
    ensures
        ({
            let from = if takes_child(v.node(child)) {
                Some(child)
            } else {
                None
            };
            let new = merged_branch(child.last(), v.node(child));
            let m = v.merged(branch, child);
            &&& relocated(v, m, from, branch, new)
            &&& may_relocate(v, from, branch, new)
            &&& m.tidy(branch)
        }),
{
    let node = v.node(child);
    let new = merged_branch(child.last(), node);
    let from = if takes_child(node) {
        Some(child)
    } else {
        None
    };
    let m = v.merged(branch, child);
    lemma_prefix_pointwise(branch, child);
    assert(branch.push(child.last()) =~= child);
    assert(is_path(branch)) by {
        assert forall|i: int| 0 <= i < branch.len() implies (#[trigger] branch[i]) < 16 by {
            assert(branch[i] == child[i]);
        }
    }
    lemma_merged_relocated(v, branch, child);
    match node {
        NodeModel::Leaf { key, .. } => {
            assert(branch + (seq![child.last()] + key) =~= child + key);
            assert(may_relocate(v, from, branch, new));
            lemma_relocated_node(v, m, from, branch, new, branch);
        },
        NodeModel::Extension { key, .. } => {
            assert(branch + (seq![child.last()] + key) =~= child + key);
            assert(may_relocate(v, from, branch, new));
            assert(kid_paths(child, node)[0] == child + key);
            assert(v.has_node(child + key));
            lemma_relocated_node(v, m, from, branch, new, child + key);
            assert(kid_paths(branch, new) =~= seq![child + key]);
        },
        _ => {
            assert(branch + seq![child.last()] =~= child);
            assert(may_relocate(v, from, branch, new));
            lemma_relocated_node(v, m, from, branch, new, child);
            assert(kid_paths(branch, new) =~= seq![child]);
        },
    }
}

/// No extension but the one that is known leads to a branch.
pub proof fn lemma_no_other_ext(v: TrieModel, branch: Seq<u8>, ext: Option<Seq<u8>>, p: Seq<u8>)
    requires
        v.linked(),
        branch_led(v, branch, ext),
        v.has_node(p),
        v.node_normal(p),
        v.node(p) is Extension,
        p + v.node(p)->Extension_key == branch,
    ensures
        Some(p) == ext,
{
    assert(kid_paths(p, v.node(p))[0] == branch);
    assert(kid_paths(p, v.node(p)).contains(branch));
    lemma_kid_longer(v, p, 0);
    match ext {
        Some(e) => {
            lemma_one_parent(v, p, e, branch);
        },
        None => {
            let c = choose|c: Seq<u8>| #[trigger]
                v.has_node(c) && c.len() < branch.len() && v.node(c) is Branch && kid_paths(
                    c,
                    v.node(c),
                ).contains(branch);
            lemma_one_parent(v, p, c, branch);
        },
    }
}

/// After a branch was merged with its only child, all nodes but the extension above it are in
/// normal form.
proof fn lemma_merge_normal(v: TrieModel, branch: Seq<u8>, child: Seq<u8>, ext: Option<Seq<u8>>)
    requires
        v.linked(),
        collapsible(v, branch, child, ext),
        v.node(branch) is Branch,
        kid_paths(branch, v.node(branch)).contains(child),
        branch_led(v, branch, ext),
        normal_but(v, Some(branch)),
    ensures
        normal_but(v.merged(branch, child), ext),
{
    let new = merged_branch(child.last(), v.node(child));
    let from = if takes_child(v.node(child)) {
        Some(child)
    } else {
        None
    };
    assert(v.tidy(child));
    lemma_merged_tidy(v, branch, child);
    assert forall|p: Seq<u8>|
        p != branch && Some(p) != from && Some(p) != ext implies #[trigger] undisturbed(
        v,
        from,
        branch,
        new,
        p,
    ) by {
        assert(v.tidy(p));
        if v.has_node(p) && kid_paths(p, v.node(p)).contains(child) {
            lemma_kid_longer(v, p, kid_paths(p, v.node(p)).index_of(child));
            lemma_one_parent(v, p, branch, child);
        }
        if v.has_node(p) && v.node(p) is Extension && p + v.node(p)->Extension_key == branch {
            lemma_no_other_ext(v, branch, ext, p);
        }
    }
    lemma_relocated_normal(v, v.merged(branch, child), from, branch, new, ext);
}

/// What an extension and what became of the branch below it are merged to is in normal form.
proof fn lemma_joined_tidy(m: TrieModel, branch: Seq<u8>, above: Seq<u8>)
    requires
        m.has_node(branch),
        m.node(branch) is Leaf || m.node(branch) is Extension,
        m.tidy(branch),
        above.len() < branch.len(),
        m.has_node(above),
        m.node(above) is Extension,
        above + m.node(above)->Extension_key == branch,
    ensures
        ({
            let new = merged_ext(m.node(above)->Extension_key, m.node(branch))->0;
            let r = m.ext_merged(Some(above), branch);
            &&& relocated(m, r, Some(branch), above, new)
            &&& may_relocate(m, Some(branch), above, new)
            &&& r.tidy(above)
        }),
{
    let key = m.node(above)->Extension_key;
    let new = merged_ext(key, m.node(branch))->0;
    let r = m.ext_merged(Some(above), branch);
    let rest = match m.node(branch) {
        NodeModel::Leaf { key: rest, .. } => rest,
        _ => m.node(branch)->Extension_key,
    };
    lemma_prefix_pointwise(above, branch);
    lemma_ext_relocated(m, above, branch);
    assert(above + (key + rest) =~= branch + rest);
    assert(may_relocate(m, Some(branch), above, new));
    lemma_relocated_node(m, r, Some(branch), above, new, branch + rest);
    assert(is_path(above)) by {
        assert forall|i: int| 0 <= i < above.len() implies (#[trigger] above[i]) < 16 by {
            assert(above[i] == branch[i]);
        }
    }
    if m.node(branch) is Extension {
        assert(kid_paths(branch, m.node(branch))[0] == branch + rest);
        assert(m.has_node(branch + rest));
        assert(kid_paths(above, new) =~= seq![branch + rest]);
    }
}

/// After the extension was merged too, all nodes are in normal form.
proof fn lemma_ext_normal(m: TrieModel, branch: Seq<u8>, ext: Option<Seq<u8>>)
    requires
        m.linked(),
        m.has_node(branch),
        m.node(branch) is Leaf || m.node(branch) is Extension,
        ext matches Some(above) ==> {
            &&& above.len() < branch.len()
            &&& m.has_node(above)
            &&& m.node(above) is Extension
            &&& above + m.node(above)->Extension_key == branch
        },
        normal_but(m, ext),
    ensures
        m.ext_merged(ext, branch).normal(),
{
    match ext {
        Some(above) => {
            let new = merged_ext(m.node(above)->Extension_key, m.node(branch))->0;
            let r = m.ext_merged(ext, branch);
            assert(m.tidy(branch));
            lemma_joined_tidy(m, branch, above);
            assert(kid_paths(above, m.node(above))[0] == branch);
            assert(kid_paths(above, m.node(above)).contains(branch));
            assert forall|p: Seq<u8>|
                p != above && Some(p) != Some(branch) implies #[trigger] undisturbed(
                m,
                Some(branch),
                above,
                new,
                p,
            ) by {
                assert(m.tidy(p));
                if m.has_node(p) && kid_paths(p, m.node(p)).contains(branch) {
                    lemma_kid_longer(m, p, kid_paths(p, m.node(p)).index_of(branch));
                    lemma_one_parent(m, p, above, branch);
                }
            }
            lemma_relocated_normal(m, r, Some(branch), above, new, None);
            assert(normal_but(r, None));
            assert forall|p: Seq<u8>| #[trigger] r.tidy(p) by {}
        },
        None => {
            assert forall|p: Seq<u8>| #[trigger] m.tidy(p) by {}
        },
    }
}

/// Merging with the only child that is left, once it is known, gives a trie in normal form.
proof fn lemma_collapse_normal(
    t: TrieModel,
    w: TrieModel,
    full: Seq<u8>,
    path: Seq<u8>,
    branch: Seq<u8>,
    ext: Option<Seq<u8>>,
    reply: Result<Option<RevealedModel>, ErrorModel>,
)
    requires
        t.sound(),
        w.sound(),
        alike_tries(t, w),
        normal_but(w.unlinked(full, path), Some(branch)),
        leaf_place(w, full, path, branch, ext),
        branch_led(w, branch, ext),
        ({
            let mask = w.mask_without(branch, path);
            let child = TrieModel::only_child(branch, mask);
            &&& child_nibbles(mask).len() == 1
            &&& w.has_node(child)
            &&& w.node(child) !is Empty
            &&& w.child_fits(branch, ext, child)
            &&& child_known(w.unlinked(full, path), child, reply).result is Ok
            &&& w.node(child) is Hash ==> t.reveal_reply(child, reply).trie.normal()
        }),
    ensures
        ({
            let child = TrieModel::only_child(branch, w.mask_without(branch, path));
            w.unlinked(full, path).child_left(branch, child, ext, reply).trie.normal()
        }),
{
    let all = w.node(branch)->Branch_mask;
    let mask = w.mask_without(branch, path);
    let child = TrieModel::only_child(branch, mask);
    let u = w.unlinked(full, path);
    lemma_unlinked_sound(w, full, path);
    lemma_unlinked_child(w, full, path, branch, ext, child);
    lemma_unlinked(w, full, path, child);
    lemma_prefix_pointwise(branch, child);
    lemma_prefix_pointwise(branch, full);
    lemma_nibbles_below(mask, 16);
    lemma_nibbles_below(all, 16);
    let n = child_nibbles(mask)[0];
    assert(mask.contains(n));
    assert(child_nibbles(all).contains(n));
    let i = child_nibbles(all).index_of(n);
    assert(kid_paths(branch, w.node(branch))[i] == child);
    assert(kid_paths(branch, w.node(branch)).contains(child));
    assert(path[branch.len() as int] == full[branch.len() as int]);
    assert(child[branch.len() as int] != full[branch.len() as int]);
    lemma_known_normal(t, w, full, path, branch, ext, child, reply);
    lemma_child_path(full, branch, child);
    lemma_known_sound(u, child, reply);
    lemma_child_known(w, full, path, branch, ext, child, reply);
    let v = child_known(u, child, reply).trie;
    lemma_prefix_pointwise(child, branch);
    assert(v.has_node(branch) == w.has_node(branch));
    assert forall|q: Seq<u8>| #[trigger]
        v.has_node(q) && kid_paths(branch, v.node(branch)).contains(q) implies q == child by {
        lemma_only_kid(w, full, path, branch, ext, q);
    }
    lemma_known_led(w, v, path, branch, ext, child);
    lemma_merge_normal(v, branch, child, ext);
    lemma_merged_sound(v, branch, child, ext);
    lemma_merged_all(v, branch, child, ext);
    let m = v.merged(branch, child);
    if ext is Some {
        lemma_prefix_pointwise(ext->0, branch);
        assert(m.has_node(ext->0) == v.has_node(ext->0));
    }
    lemma_ext_normal(m, branch, ext);
}

/// What is known of the extension above a branch stays so while something below the branch changes.
proof fn lemma_known_led(
    w: TrieModel,
    v: TrieModel,
    path: Seq<u8>,
    branch: Seq<u8>,
    ext: Option<Seq<u8>>,
    child: Seq<u8>,
)
    requires
        branch_led(w, branch, ext),
        branch.len() < path.len(),
        branch.len() < child.len(),
        forall|p: Seq<u8>|
            p != path && !child.is_prefix_of(p) ==> #[trigger] v.has_node(p) == w.has_node(p) && (
            w.has_node(p) ==> v.node(p) == w.node(p)),
    ensures
        branch_led(v, branch, ext),
{
    match ext {
        Some(e) => {
            lemma_prefix_pointwise(child, e);
            assert(v.has_node(e) == w.has_node(e));
        },
        None => {
            if branch.len() > 0 {
                let c = choose|c: Seq<u8>| #[trigger]
                    w.has_node(c) && c.len() < branch.len() && w.node(c) is Branch && kid_paths(
                        c,
                        w.node(c),
                    ).contains(branch);
                lemma_prefix_pointwise(child, c);
                assert(v.has_node(c) == w.has_node(c));
            }
        },
    }
}

/// Revealing the only child that is left of a branch, from a reply in normal form, keeps the normal
/// form.
proof fn lemma_reply_normal(
    t: TrieModel,
    branch: Seq<u8>,
    child: Seq<u8>,
    reply: Result<Option<RevealedModel>, ErrorModel>,
)
    requires
        t.sound(),
        t.normal(),
        t.has_node(branch),
        t.node(branch) is Branch,
        branch.len() < child.len(),
        kid_paths(branch, t.node(branch)).contains(child),
        t.has_node(child),
        t.node(child) is Hash,
        t.reveal_reply(child, reply).result is Ok,
        reply_in_form(reply),
    ensures
        t.reveal_reply(child, reply).trie.normal(),
{
    let node = decoded_node(reply->Ok_0->Some_0.node)->Ok_0;
    assert forall|p: Seq<u8>| #[trigger]
        t.has_node(p) && (t.node(p) matches NodeModel::Extension { key, .. } && p + key == child) implies node is Branch by {
        assert(t.tidy(p));
        assert(kid_paths(p, t.node(p))[0] == child);
        assert(kid_paths(p, t.node(p)).contains(child));
        lemma_one_parent(t, p, branch, child);
    }
    lemma_reveal_normal(t, child, node, reply->Ok_0->Some_0.masks);
}

/// Removing a leaf from a trie that is sound and in normal form leaves it so.
///
/// Where that needs a blinded node, what the provider answers must be in normal form.
pub proof fn lemma_removed_whole(
    t: TrieModel,
    full: Seq<u8>,
    reply: Result<Option<RevealedModel>, ErrorModel>,
)
    requires
        t.whole(),
        is_path(full),
        t.leaf_removed(full, reply).result is Ok,
        t.asks(full) is Some ==> reply_in_form(reply),
    ensures
        t.leaf_removed(full, reply).trie.whole(),
{
    let root = Seq::<u8>::empty();
    let walk = t.walk(full, root, None, None);
    let w = walk.trie;
    let r = t.leaf_removed(full, reply).trie;
    lemma_whole_removable(t, full);
    lemma_removed_sound(t, full, reply);
    lemma_normal_led(t, full);
    lemma_walk_alike(t, full, root, None, None);
    lemma_alike_sound(t, w);
    lemma_alike_normal(t, w);
    lemma_alike_node(t, w, root);
    lemma_prefix_pointwise(root, full);
    lemma_walk(t, full, root, None, None);
    lemma_removed_root(t, full, reply);
    match walk.end {
        WalkEnd::Leaf { path, branch, ext } => {
            let u = w.unlinked(full, path);
            lemma_leaf_place(t, full);
            lemma_alike_node(t, w, path);
            lemma_unlinked_sound(w, full, path);
            lemma_unlinked(w, full, path, path);
            if path.len() == 0 {
                assert(path =~= root);
                lemma_rootless_normal(w, full, r);
            } else {
                let b = branch->0;
                let mask = w.mask_without(b, path);
                lemma_alike_node(t, w, b);
                lemma_branch_led_alike(t, w, b, ext);
                lemma_unlinked_normal(w, full, path, b);
                if child_nibbles(mask).len() == 1 {
                    lemma_unlinked_child(
                        w,
                        full,
                        path,
                        b,
                        ext,
                        TrieModel::only_child(b, mask),
                    );
                    let child = TrieModel::only_child(b, mask);
                    if w.node(child) is Hash {
                        lemma_asked_normal(t, w, full, path, b, ext, reply);
                    }
                    lemma_collapse_normal(t, w, full, path, b, ext, reply);
                } else {
                    lemma_shrink_normal(w, full, path, b, ext, r);
                }
            }
        },
        _ => {},
    }
}

/// Where removing a leaf needs a blinded node, revealing that from a reply in normal form keeps the
/// normal form.
pub proof fn lemma_asked_revealed(
    t: TrieModel,
    full: Seq<u8>,
    reply: Result<Option<RevealedModel>, ErrorModel>,
)
    requires
        t.whole(),
        is_path(full),
        t.asks(full) is Some,
        t.leaf_removed(full, reply).result is Ok,
        reply_in_form(reply),
    ensures
        t.has_node(t.asks(full)->0),
        t.node(t.asks(full)->0) is Hash,
        t.reveal_reply(t.asks(full)->0, reply).trie.has_node(t.asks(full)->0),
        t.reveal_reply(t.asks(full)->0, reply).trie.normal(),
{
    let root = Seq::<u8>::empty();
    let walk = t.walk(full, root, None, None);
    let w = walk.trie;
    lemma_whole_removable(t, full);
    lemma_walk_alike(t, full, root, None, None);
    lemma_alike_sound(t, w);
    lemma_prefix_pointwise(root, full);
    lemma_walk(t, full, root, None, None);
    lemma_leaf_place(t, full);
    match walk.end {
        WalkEnd::Leaf { path, branch, ext } => {
            let b = branch->0;
            let mask = w.mask_without(b, path);
            let child = TrieModel::only_child(b, mask);
            lemma_alike_node(t, w, path);
            lemma_alike_node(t, w, child);
            lemma_unlinked_child(w, full, path, b, ext, child);
            lemma_asked_normal(t, w, full, path, b, ext, reply);
            lemma_nibbles_below(mask, 16);
            assert(mask.contains(child_nibbles(mask)[0]));
            lemma_prefix_pointwise(b, full);
            lemma_prefix_pointwise(b, child);
            lemma_prefix_pointwise(child, full);
            assert(path[b.len() as int] == full[b.len() as int]);
            assert(!child.is_prefix_of(full));
            lemma_child_path(full, b, child);
            lemma_reply_same(t, w, full, path, child, reply);
            lemma_trie_unblinded(
                t,
                child,
                decoded_node(reply->Ok_0->Some_0.node)->Ok_0,
                reply->Ok_0->Some_0.masks,
            );
        },
        _ => {},
    }
}

/// Revealing the only child that is left of the branch above a leaf, from a reply in normal form,
/// keeps the normal form of the trie with the leaf.
proof fn lemma_asked_normal(
    t: TrieModel,
    w: TrieModel,
    full: Seq<u8>,
    path: Seq<u8>,
    branch: Seq<u8>,
    ext: Option<Seq<u8>>,
    reply: Result<Option<RevealedModel>, ErrorModel>,
)
    requires
        t.sound(),
        t.normal(),
        w.sound(),
        alike_tries(t, w),
        leaf_place(w, full, path, branch, ext),
        reply_in_form(reply),
        ({
            let mask = w.mask_without(branch, path);
            let child = TrieModel::only_child(branch, mask);
            &&& child_nibbles(mask).len() == 1
            &&& w.has_node(child)
            &&& w.node(child) is Hash
            &&& w.unlinked(full, path).reveal_reply(child, reply).result is Ok
        }),
    ensures
        t.reveal_reply(
            TrieModel::only_child(branch, w.mask_without(branch, path)),
            reply,
        ).trie.normal(),
{
    let all = w.node(branch)->Branch_mask;
    let mask = w.mask_without(branch, path);
    let child = TrieModel::only_child(branch, mask);
    lemma_prefix_pointwise(branch, full);
    lemma_prefix_pointwise(branch, child);
    lemma_prefix_pointwise(child, full);
    lemma_nibbles_below(mask, 16);
    lemma_nibbles_below(all, 16);
    let n = child_nibbles(mask)[0];
    assert(mask.contains(n));
    assert(child_nibbles(all).contains(n));
    let i = child_nibbles(all).index_of(n);
    assert(kid_paths(branch, w.node(branch))[i] == child);
    assert(kid_paths(branch, w.node(branch)).contains(child));
    assert(path[branch.len() as int] == full[branch.len() as int]);
    assert(!child.is_prefix_of(full));
    lemma_child_path(full, branch, child);
    lemma_reply_same(t, w, full, path, child, reply);
    lemma_alike_node(t, w, branch);
    lemma_alike_node(t, w, child);
    lemma_reply_normal(t, branch, child, reply);
}

/// Removing a leaf for which no blinded node has to be revealed keeps the normal form, where each node
/// but the root is a child of another one.
pub proof fn lemma_removed_normal(
    t: TrieModel,
    full: Seq<u8>,
    reply: Result<Option<RevealedModel>, ErrorModel>,
)
    requires
        t.lower.len() == NUM_LOWER_SUBTRIES,
        t.linked(),
        t.normal(),
        t.removable(full),
        is_path(full),
        t.asks(full) is None,
        t.leaf_removed(full, reply).result is Ok,
    ensures
        t.leaf_removed(full, reply).trie.normal(),
        t.leaf_removed(full, reply).trie.linked(),
{
    let root = Seq::<u8>::empty();
    let walk = t.walk(full, root, None, None);
    let w = walk.trie;
    let r = t.leaf_removed(full, reply).trie;
    lemma_normal_led(t, full);
    lemma_walk_alike(t, full, root, None, None);
    lemma_alike_linked(t, w);
    lemma_alike_normal(t, w);
    lemma_alike_node(t, w, root);
    lemma_prefix_pointwise(root, full);
    lemma_walk(t, full, root, None, None);
    match walk.end {
        WalkEnd::Leaf { path, branch, ext } => {
            let u = w.unlinked(full, path);
            lemma_leaf_place(t, full);
            lemma_alike_node(t, w, path);
            lemma_unlinked(w, full, path, path);
            lemma_unlinked_linked(w, full, path);
            if path.len() == 0 {
                assert(path =~= root);
                lemma_rootless_normal(w, full, r);
                lemma_put_linked(u, root, NodeModel::Empty);
            } else {
                let b = branch->0;
                let mask = w.mask_without(b, path);
                lemma_alike_node(t, w, b);
                lemma_branch_led_alike(t, w, b, ext);
                lemma_unlinked_normal(w, full, path, b);
                if child_nibbles(mask).len() == 1 {
                    let child = TrieModel::only_child(b, mask);
                    lemma_unlinked_child(w, full, path, b, ext, child);
                    lemma_plain_collapse(w, full, path, b, ext, reply);
                } else {
                    let new = NodeModel::new_branch(mask);
                    lemma_shrink_normal(w, full, path, b, ext, r);
                    lemma_unlinked(w, full, path, b);
                    assert forall|q: Seq<u8>| #[trigger]
                        u.has_node(q) && kid_paths(b, u.node(b)).contains(q) implies kid_paths(
                        b,
                        new,
                    ).contains(q) by {
                        lemma_only_kid(w, full, path, b, ext, q);
                    }
                    lemma_put_linked(u, b, new);
                    lemma_put_node(u, b, new, b);
                    assert(r == u.put_node(b, new));
                }
            }
        },
        _ => {},
    }
}

/// Merging with the only child that is left, which is not blinded, gives a trie in normal form.
proof fn lemma_plain_collapse(
    w: TrieModel,
    full: Seq<u8>,
    path: Seq<u8>,
    branch: Seq<u8>,
    ext: Option<Seq<u8>>,
    reply: Result<Option<RevealedModel>, ErrorModel>,
)
    requires
        w.linked(),
        normal_but(w.unlinked(full, path), Some(branch)),
        leaf_place(w, full, path, branch, ext),
        branch_led(w, branch, ext),
        ({
            let mask = w.mask_without(branch, path);
            let child = TrieModel::only_child(branch, mask);
            &&& child_nibbles(mask).len() == 1
            &&& w.has_node(child)
            &&& w.node(child) !is Empty
            &&& w.node(child) !is Hash
            &&& w.child_fits(branch, ext, child)
        }),
    ensures
        ({
            let child = TrieModel::only_child(branch, w.mask_without(branch, path));
            let r = w.unlinked(full, path).child_left(branch, child, ext, reply).trie;
            r.normal() && r.linked()
        }),
{
    let all = w.node(branch)->Branch_mask;
    let mask = w.mask_without(branch, path);
    let child = TrieModel::only_child(branch, mask);
    let u = w.unlinked(full, path);
    lemma_unlinked_linked(w, full, path);
    lemma_unlinked_child(w, full, path, branch, ext, child);
    lemma_unlinked(w, full, path, child);
    lemma_prefix_pointwise(branch, child);
    lemma_prefix_pointwise(branch, full);
    lemma_nibbles_below(mask, 16);
    lemma_nibbles_below(all, 16);
    let n = child_nibbles(mask)[0];
    assert(mask.contains(n));
    assert(child_nibbles(all).contains(n));
    let i = child_nibbles(all).index_of(n);
    assert(kid_paths(branch, w.node(branch))[i] == child);
    assert(kid_paths(branch, w.node(branch)).contains(child));
    assert(path[branch.len() as int] == full[branch.len() as int]);
    assert(child[branch.len() as int] != full[branch.len() as int]);
    lemma_child_known(w, full, path, branch, ext, child, reply);
    assert(child_known(u, child, reply).trie == u);
    assert(u.has_node(branch) == w.has_node(branch));
    assert forall|q: Seq<u8>| #[trigger]
        u.has_node(q) && kid_paths(branch, u.node(branch)).contains(q) implies q == child by {
        lemma_only_kid(w, full, path, branch, ext, q);
    }
    lemma_known_led(w, u, path, branch, ext, child);
    lemma_merge_normal(u, branch, child, ext);
    lemma_merged_linked(u, branch, child, ext);
    lemma_merged_all(u, branch, child, ext);
    let m = u.merged(branch, child);
    if ext is Some {
        lemma_prefix_pointwise(ext->0, branch);
        assert(m.has_node(ext->0) == u.has_node(ext->0));
    }
    lemma_ext_normal(m, branch, ext);
    lemma_ext_linked(m, ext, branch);
}

/// That a trie is sound and in normal form does not depend on what nodes keep of hashing.
pub proof fn lemma_alike_whole(a: TrieModel, b: TrieModel)
    requires
        alike_tries(a, b),
        a.whole(),
    ensures
        b.whole(),
{
    lemma_alike_sound(a, b);
    lemma_alike_normal(a, b);
    lemma_alike_node(a, b, Seq::empty());
}

/// All nodes right below a branch are its children.
pub proof fn lemma_branch_kids(t: TrieModel, p: Seq<u8>, n: u8)
    requires
        t.linked(),
        t.has_node(p),
        t.node(p) is Branch,
        t.has_node(p.push(n)),
    ensures
        t.node(p)->Branch_mask.contains(n),
{
    let root = Seq::<u8>::empty();
    let q = p.push(n);
    lemma_prefix_pointwise(p, q);
    lemma_prefix_pointwise(q, q);
    lemma_prefix_pointwise(root, q);
    lemma_linked_passes(t, q, p);
    lemma_linked_passes(t, q, q);
    lemma_passes_apart(t, q, root, p, q);
}

/// A branch that has at least two children left without a leaf stays a branch, and nothing is recorded.
pub proof fn lemma_wide_branch(
    t: TrieModel,
    full: Seq<u8>,
    reply: Result<Option<RevealedModel>, ErrorModel>,
    branch: Seq<u8>,
)
    requires
        t.lower.len() == NUM_LOWER_SUBTRIES,
        t.removable(full),
        is_path(full),
        t.has_node(branch),
        t.node(branch) is Branch,
        child_nibbles(t.node(branch)->Branch_mask).len() > 2,
        branch.len() < full.len(),
        t.lookup(full) == Lookup::At(branch.push(full[branch.len() as int])),
    ensures
        ({
            let removed = t.leaf_removed(full, reply);
            let mask = t.node(branch)->Branch_mask.remove(full[branch.len() as int]);
            &&& removed.result is Ok
            &&& removed.trie.has_node(branch)
            &&& removed.trie.node(branch) == NodeModel::new_branch(mask)
            &&& removed.trie.updates == t.updates
        }),
{
    let root = Seq::<u8>::empty();
    let walk = t.walk(full, root, None, None);
    let w = walk.trie;
    lemma_prefix_pointwise(root, full);
    lemma_walk(t, full, root, None, None);
    lemma_walk_prefix(t, full, root, None, None);
    lemma_walk_alike(t, full, root, None, None);
    lemma_leaf_place(t, full);
    lemma_alike_node(t, w, branch);
    match walk.end {
        WalkEnd::Leaf { path, branch: above, ext } => {
            let b = above->0;
            assert(path.drop_last() =~= branch);
            assert(path.drop_last() =~= b);
            let all = w.node(branch)->Branch_mask;
            let n = full[branch.len() as int];
            assert(path[branch.len() as int] == n);
            lemma_one_fewer(all, n, 16);
            let mask = w.mask_without(branch, path);
            let u = w.unlinked(full, path);
            lemma_unlinked(w, full, path, branch);
            lemma_put_node(u, branch, NodeModel::new_branch(mask), branch);
            assert(t.leaf_removed(full, reply).trie == u.put_node(
                branch,
                NodeModel::new_branch(mask),
            ));
        },
        _ => {},
    }
}

/// There is a root after a leaf was removed.
proof fn lemma_removed_root(
    t: TrieModel,
    full: Seq<u8>,
    reply: Result<Option<RevealedModel>, ErrorModel>,
)
    requires
        t.sound(),
        t.removable(full),
        t.has_node(Seq::empty()),
        is_path(full),
        t.leaf_removed(full, reply).result is Ok,
    ensures
        t.leaf_removed(full, reply).trie.has_node(Seq::empty()),
{
    let root = Seq::<u8>::empty();
    let walk = t.walk(full, root, None, None);
    let w = walk.trie;
    let r = t.leaf_removed(full, reply).trie;
    lemma_removed_sound(t, full, reply);
    lemma_walk_alike(t, full, root, None, None);
    lemma_alike_node(t, w, root);
    lemma_prefix_pointwise(root, full);
    lemma_leaf_place(t, full);
    lemma_walk(t, full, root, None, None);
    match walk.end {
        WalkEnd::Leaf { path, branch, ext } => {
            let u = w.unlinked(full, path);
            lemma_alike_node(t, w, path);
            if path.len() == 0 {
                assert(path =~= root);
                lemma_put_node(u, root, NodeModel::Empty, root);
            } else {
                let b = branch->0;
                let mask = w.mask_without(b, path);
                lemma_unlinked(w, full, path, root);
                lemma_unlinked(w, full, path, b);
                if child_nibbles(mask).len() == 1 {
                    let child = TrieModel::only_child(b, mask);
                    lemma_unlinked_child(w, full, path, b, ext, child);
                    lemma_prefix_pointwise(b, child);
                    lemma_prefix_pointwise(b, full);
                    lemma_prefix_pointwise(child, root);
                    lemma_nibbles_below(mask, 16);
                    assert(mask.contains(child_nibbles(mask)[0]));
                    assert(path[b.len() as int] == full[b.len() as int]);
                    assert(child[b.len() as int] != full[b.len() as int]);
                    lemma_child_known(w, full, path, b, ext, child, reply);
                    let v = child_known(u, child, reply).trie;
                    assert(v.has_node(root) == w.has_node(root));
                    lemma_merged_all(v, b, child, ext);
                    let m = v.merged(b, child);
                    assert(root != b ==> m.has_node(root) == v.has_node(root));
                    if ext is Some {
                        lemma_prefix_pointwise(ext->0, b);
                        assert(m.has_node(ext->0) == v.has_node(ext->0));
                        lemma_ext_all(m, ext, b);
                        assert(root != b && root != ext->0 ==> r.has_node(root) == m.has_node(root));
                    }
                } else {
                    let new = NodeModel::new_branch(mask);
                    lemma_put_node(u, b, new, root);
                    lemma_put_node(u, b, new, b);
                    if ext is Some {
                        lemma_unlinked(w, full, path, ext->0);
                        lemma_put_node(u, b, new, ext->0);
                    }
                    assert(r == u.put_node(b, new));
                }
            }
        },
        _ => {},
    }
}

/// A trie whose root was its only leaf is in normal form without it.
proof fn lemma_rootless_normal(w: TrieModel, full: Seq<u8>, r: TrieModel)
    requires
        w.linked(),
        w.normal(),
        w.has_node(Seq::empty()),
        w.node(Seq::empty()) is Leaf,
        Seq::<u8>::empty() + w.node(Seq::empty())->Leaf_key == full,
        r == w.unlinked(full, Seq::empty()).put_node(Seq::empty(), NodeModel::Empty),
    ensures
        r.normal(),
{
    let root = Seq::<u8>::empty();
    let u = w.unlinked(full, root);
    lemma_put_node(u, root, NodeModel::Empty, root);
    assert forall|p: Seq<u8>| #[trigger] r.tidy(p) by {
        if p != root && r.has_node(p) {
            lemma_put_node(u, root, NodeModel::Empty, p);
            lemma_unlinked(w, full, root, p);
            lemma_prefix_pointwise(root, p);
            lemma_way_leads_on(w, p, root);
        }
    }
}

/// A branch that keeps at least two children is in normal form.
proof fn lemma_shrink_normal(
    w: TrieModel,
    full: Seq<u8>,
    path: Seq<u8>,
    branch: Seq<u8>,
    ext: Option<Seq<u8>>,
    r: TrieModel,
)
    requires
        w.normal(),
        leaf_place(w, full, path, branch, ext),
        normal_but(w.unlinked(full, path), Some(branch)),
        child_nibbles(w.mask_without(branch, path)).len() != 1,
        r == w.unlinked(full, path).put_node(
            branch,
            NodeModel::new_branch(w.mask_without(branch, path)),
        ).ext_merged(ext, branch),
        full[branch.len() as int] < 16,
    ensures
        r.normal(),
{
    let u = w.unlinked(full, path);
    let all = w.node(branch)->Branch_mask;
    let mask = w.mask_without(branch, path);
    let new = NodeModel::new_branch(mask);
    let put = u.put_node(branch, new);
    let n = full[branch.len() as int];
    lemma_prefix_pointwise(branch, full);
    assert(path[branch.len() as int] == n);
    lemma_unlinked(w, full, path, branch);
    lemma_put_node(u, branch, new, branch);
    if ext is Some {
        lemma_unlinked(w, full, path, ext->0);
        lemma_prefix_pointwise(ext->0, branch);
        lemma_put_node(u, branch, new, ext->0);
    }
    assert(r == put);
    assert(w.tidy(branch));
    lemma_one_fewer(all, n, 16);
    lemma_nibbles_below(all, 16);
    lemma_nibbles_below(mask, 16);
    lemma_put_relocated(u, branch, new);
    assert(r.kids_there(branch)) by {
        assert forall|i: int| 0 <= i < kid_paths(branch, new).len() implies r.has_node(
            #[trigger] kid_paths(branch, new)[i],
        ) by {
            let m = child_nibbles(mask)[i];
            let kid = branch.push(m);
            assert(kid_paths(branch, new)[i] == kid);
            assert(mask.contains(m));
            assert(child_nibbles(all).contains(m));
            let j = child_nibbles(all).index_of(m);
            assert(kid_paths(branch, w.node(branch))[j] == kid);
            assert(w.has_node(kid));
            assert(kid != path) by {
                assert(kid[branch.len() as int] == m);
            }
            lemma_unlinked(w, full, path, kid);
            lemma_put_node(u, branch, new, kid);
        }
    }
    assert forall|p: Seq<u8>| p != branch implies #[trigger] undisturbed(u, None, branch, new, p) by {
        assert(u.tidy(p));
    }
    lemma_relocated_normal(u, r, None, branch, new, None);
}

// Hashing.

/// Where the children of each node are there, hashing finds every node it goes to.
proof fn lemma_visits_there(h: Hashing, from: Seq<u8>, to: Seq<u8>)
    requires
        h.nodes.contains_key(from),
        h.visits(from, to),
        forall|p: Seq<u8>, i: int|
            h.nodes.contains_key(p) && from.is_prefix_of(p) && 0 <= i < kid_paths(
                p,
                h.nodes[p],
            ).len() ==> h.nodes.contains_key(#[trigger] kid_paths(p, h.nodes[p])[i]),
    ensures
        h.nodes.contains_key(to),
    decreases MAX_PATH_LEN - from.len(),
{
    if from != to {
        let i = choose|i: int|
            0 <= i < h.kids(from).len() && deeper(from, #[trigger] h.kids(from)[i]) && h.visits(
                h.kids(from)[i],
                to,
            );
        let kid = h.kids(from)[i];
        lemma_prefix_pointwise(from, from);
        assert(kid == kid_paths(from, h.nodes[from])[i]);
        lemma_kid_paths(from, h.nodes[from]);
        assert(from.is_prefix_of(kid));
        assert forall|p: Seq<u8>, j: int|
            h.nodes.contains_key(p) && kid.is_prefix_of(p) && 0 <= j < kid_paths(
                p,
                h.nodes[p],
            ).len() implies h.nodes.contains_key(#[trigger] kid_paths(p, h.nodes[p])[j]) by {
            lemma_prefix_transitive(from, kid, p);
        }
        lemma_visits_there(h, kid, to);
    }
}

/// A node in normal form fits what hashing needs of it.
proof fn lemma_normal_fits(t: TrieModel, h: Hashing, p: Seq<u8>)
    requires
        t.whole(),
        t.has_node(p),
        h.nodes.contains_key(p),
        h.nodes[p] == t.node(p),
        (h.source)(p) == t.source_at(p),
    ensures
        h.node_ok(p),
{
    assert(t.tidy(p));
    if t.node(p) is Leaf {
        lemma_leaf_value(t, p);
    }
    assert forall|i: int| 0 <= i < h.kids(p).len() implies deeper(p, #[trigger] h.kids(p)[i]) by {
        lemma_kid_longer(t, p, i);
    }
}

/// The root hash of a trie that is sound and in normal form can be computed.
pub proof fn lemma_whole_ready(t: TrieModel)
    requires
        t.whole(),
    ensures
        t.root_ready(),
{
    let prefix = t.prefix.frozen();
    let root = Seq::<u8>::empty();
    assert forall|i: int| #[trigger] t.rehashed(prefix, i) implies t.lower[i]->0.hashable(
        prefix.under(t.lower_root(i)),
    ) by {
        let s = t.lower[i]->0;
        let g = s.hashing(prefix.under(t.lower_root(i)));
        assert forall|q: Seq<u8>| #[trigger] g.visits(s.path, q) implies g.node_ok(q) by {
            assert forall|p: Seq<u8>, j: int|
                g.nodes.contains_key(p) && s.path.is_prefix_of(p) && 0 <= j < kid_paths(
                    p,
                    g.nodes[p],
                ).len() implies g.nodes.contains_key(#[trigger] kid_paths(p, g.nodes[p])[j]) by {
                assert(TrieModel::owns(i, p));
                assert(t.has_node(p));
                assert(t.tidy(p));
                lemma_kid_paths(p, t.node(p));
                lemma_owns_below(i, p, kid_paths(p, g.nodes[p])[j]);
                assert(t.has_node(kid_paths(p, t.node(p))[j]));
            }
            lemma_visits_there(g, s.path, q);
            assert(TrieModel::owns(i, q));
            lemma_normal_fits(t, g, q);
        }
    }
    let h = t.hashing(t.upper_keys());
    assert forall|q: Seq<u8>| #[trigger] h.visits(root, q) implies h.node_ok(q) by {
        assert forall|p: Seq<u8>, j: int|
            h.nodes.contains_key(p) && root.is_prefix_of(p) && 0 <= j < kid_paths(
                p,
                h.nodes[p],
            ).len() implies h.nodes.contains_key(#[trigger] kid_paths(p, h.nodes[p])[j]) by {
            assert(t.tidy(p));
            assert(t.has_node(kid_paths(p, t.node(p))[j]));
        }
        lemma_visits_there(h, root, q);
        lemma_normal_fits(t, h, q);
    }
}

}
