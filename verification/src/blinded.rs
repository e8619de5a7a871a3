//! Tries of which a part is blinded, beside the tries that they are part of.

use crate::canon::lemma_removed_revealed;
use crate::error::ErrorModel;
use crate::hash_run::{lemma_kid_paths, lemma_nibbles_below};
use crate::hashing::{deeper, kid_paths};
use crate::kept_hashes::{
    lemma_blind_bottom, lemma_merkle_same, lemma_relocated_value, lemma_reply_same,
    lemma_trie_unblinded, lemma_way_leads_on, same_below, trie_elsewhere,
};
use crate::lookup::{
    child_known, leaf_place, lemma_child_known, lemma_child_path, lemma_cleared_shape,
    lemma_leaf_place, lemma_merged_all, lemma_unlinked_child, lemma_walk, lemma_walk_ok_shape,
};
use crate::merkle::alike;
use crate::model::{child_nibbles, NodeModel};
use crate::normal::lemma_whole_removable;
use crate::order::{lemma_prefix_pointwise, lemma_prefix_transitive};
use crate::outside::{decoded_node, MAX_PATH_LEN};
use crate::path::{is_path, is_upper, lower_index_of};
use crate::prefix_set::PrefixModel;
use crate::provider::RevealedModel;
use crate::removal::{merged_branch, merged_ext, next_to_leaf, takes_child, NextModel, WalkEnd};
use crate::remove::{lemma_put_node, lemma_unlinked};
use crate::remove_sound::{
    lemma_ext_relocated, lemma_known_sound, lemma_leaf_unique, lemma_merged_linked,
    lemma_merged_sound, lemma_only_kid, lemma_put_relocated, lemma_relocated_node,
    lemma_unlinked_sound, lemma_walk_alike, may_relocate, relocated,
};
use crate::soundness::{alike_tries, lemma_alike_node, lemma_alike_sound};
use crate::trie::TrieModel;
use vstd::prelude::*;

verus! {

/// Whether the node at a path is that of another trie, with its value if it is a leaf, or a blinded
/// one that stands for it.
pub open spec fn shows(t: TrieModel, f: TrieModel, p: Seq<u8>) -> bool {
    &&& f.has_node(p)
    &&& t.node(p) is Hash ==> t.merkle(p) == f.merkle(p)
    &&& t.node(p) !is Hash ==> alike(t.node(p), f.node(p))
    &&& t.node(p) matches NodeModel::Leaf { key, .. } ==> t.source_at(p).values[p + key]
        == f.source_at(p).values[p + key]
}

/// Whether all nodes of a trie are those of another one, or blinded ones that stand for them.
pub open spec fn part_of(t: TrieModel, f: TrieModel) -> bool {
    forall|p: Seq<u8>| #[trigger] t.has_node(p) ==> shows(t, f, p)
}

/// A part of a trie stands for the same as the trie.
pub proof fn lemma_part_merkle(t: TrieModel, f: TrieModel, p: Seq<u8>)
    requires
        t.normal(),
        part_of(t, f),
        t.has_node(p),
    ensures
        t.merkle(p) == f.merkle(p),
    decreases MAX_PATH_LEN - p.len(),
{
    assert(shows(t, f, p));
    if t.node(p) !is Hash {
        let g = t.hashing(PrefixModel::none());
        let h = f.hashing(PrefixModel::none());
        assert(g.nodes[p] == t.node(p) && h.nodes[p] == f.node(p));
        let kids = g.all_kids(p);
        assert(kids == h.all_kids(p));
        assert(t.tidy(p));
        lemma_kid_paths(p, t.node(p));
        assert forall|i: int| 0 <= i < kids.len() implies g.plain_kids(p)[i] == h.plain_kids(
            p,
        )[i] by {
            assert(kids[i] == kid_paths(p, t.node(p))[i]);
            if deeper(p, kids[i]) {
                assert(t.has_node(kids[i]));
                lemma_part_merkle(t, f, kids[i]);
            }
        }
        assert(g.plain_kids(p) =~= h.plain_kids(p));
    }
}

/// Blinded nodes with the same hash stand for the same.
proof fn lemma_hash_merkle(a: TrieModel, b: TrieModel, p: Seq<u8>)
    requires
        a.has_node(p),
        b.has_node(p),
        a.node(p) is Hash,
        a.node(p) == b.node(p),
    ensures
        a.merkle(p) == b.merkle(p),
{
    assert(a.hashing(PrefixModel::none()).nodes[p] == a.node(p));
    assert(b.hashing(PrefixModel::none()).nodes[p] == b.node(p));
}

/// What nodes keep of hashing makes no difference to what a trie stands for.
proof fn lemma_alike_merkle(t: TrieModel, w: TrieModel, p: Seq<u8>)
    requires
        alike_tries(t, w),
    ensures
        t.merkle(p) == w.merkle(p),
{
    assert forall|q: Seq<u8>| p.is_prefix_of(q) implies #[trigger] t.has_node(q) == w.has_node(q)
        && (t.has_node(q) ==> alike(t.node(q), w.node(q)) && (t.node(q) matches NodeModel::Leaf {
        key,
        ..
    } ==> t.source_at(q).values[q + key] == w.source_at(q).values[q + key])) by {
        lemma_alike_node(t, w, q);
    }
    lemma_merkle_same(t, w, p);
}

/// What nodes keep of hashing makes no difference to whether a trie is part of another one.
proof fn lemma_part_alike(t: TrieModel, w: TrieModel, f: TrieModel, g: TrieModel)
    requires
        part_of(t, f),
        alike_tries(t, w),
        alike_tries(f, g),
    ensures
        part_of(w, g),
{
    assert forall|p: Seq<u8>| #[trigger] w.has_node(p) implies shows(w, g, p) by {
        lemma_alike_node(t, w, p);
        lemma_alike_node(f, g, p);
        assert(t.has_node(p));
        assert(shows(t, f, p));
        lemma_alike_merkle(t, w, p);
        lemma_alike_merkle(f, g, p);
    }
}

// Walking to a leaf.

/// Whether all nodes of a trie that are not blinded are those of another one.
spec fn seen(t: TrieModel, f: TrieModel) -> bool {
    forall|p: Seq<u8>| #[trigger]
        t.has_node(p) && t.node(p) !is Hash ==> f.has_node(p) && alike(t.node(p), f.node(p))
}

/// The walk to a leaf that no blinded node blocks ends as it does in the trie of which this is part.
proof fn lemma_walk_together(
    t: TrieModel,
    f: TrieModel,
    full: Seq<u8>,
    at: Seq<u8>,
    branch: Option<Seq<u8>>,
    ext: Option<Seq<u8>>,
)
    requires
        t.walk_ok(full, at),
        f.walk_ok(full, at),
        seen(t, f),
    ensures
        t.walk(full, at, branch, ext).end is Blocked || f.walk(full, at, branch, ext).end == t.walk(
            full,
            at,
            branch,
            ext,
        ).end,
    decreases full.len() - at.len(),
{
    let node = t.node(at);
    assert(t.has_node(at));
    if node !is Hash {
        match next_to_leaf(at, node, full) {
            Ok(NextModel::ContinueFrom(next)) => {
                let a = t.put_node(at, node.with_hash(None));
                let b = f.put_node(at, f.node(at).with_hash(None));
                lemma_cleared_shape(t, at);
                lemma_cleared_shape(f, at);
                lemma_walk_ok_shape(t, a, full, next);
                lemma_walk_ok_shape(f, b, full, next);
                assert forall|p: Seq<u8>| #[trigger]
                    a.has_node(p) && a.node(p) !is Hash implies b.has_node(p) && alike(
                    a.node(p),
                    b.node(p),
                ) by {
                    lemma_put_node(t, at, node.with_hash(None), p);
                    lemma_put_node(f, at, f.node(at).with_hash(None), p);
                    assert(t.has_node(p));
                }
                let (last, leads) = if node is Branch {
                    (
                        Some(at),
                        if branch is Some && ext is Some && branch->0.len() > ext->0.len() {
                            None
                        } else {
                            ext
                        },
                    )
                } else {
                    (branch, Some(at))
                };
                lemma_walk_together(a, b, full, next, last, leads);
            },
            _ => {},
        }
    }
}

// Taking a leaf out.

/// Taking a leaf out leaves the values of the others.
proof fn lemma_unlinked_value(t: TrieModel, full: Seq<u8>, path: Seq<u8>, p: Seq<u8>)
    requires
        t.linked(),
        t.has_node(path),
        t.node(path) is Leaf,
        path + t.node(path)->Leaf_key == full,
        t.has_node(p),
        t.node(p) is Leaf,
        p != path,
    ensures
        ({
            let x = p + t.node(p)->Leaf_key;
            t.unlinked(full, path).source_at(p).values[x] == t.source_at(p).values[x]
        }),
{
    if p + t.node(p)->Leaf_key == full {
        lemma_leaf_unique(t, p, path);
    }
}

/// Taking a leaf out leaves what stands for nodes that are not above it.
proof fn lemma_unlinked_below(t: TrieModel, full: Seq<u8>, path: Seq<u8>, p: Seq<u8>)
    requires
        t.linked(),
        t.has_node(path),
        t.node(path) is Leaf,
        path + t.node(path)->Leaf_key == full,
        !p.is_prefix_of(path),
    ensures
        t.unlinked(full, path).merkle(p) == t.merkle(p),
{
    let u = t.unlinked(full, path);
    assert forall|q: Seq<u8>| p.is_prefix_of(q) implies #[trigger] t.has_node(q) == u.has_node(q)
        && (t.has_node(q) ==> alike(t.node(q), u.node(q)) && (t.node(q) matches NodeModel::Leaf {
        key,
        ..
    } ==> t.source_at(q).values[q + key] == u.source_at(q).values[q + key])) by {
        lemma_unlinked(t, full, path, q);
        if t.has_node(q) && t.node(q) is Leaf {
            lemma_unlinked_value(t, full, path, q);
        }
    }
    lemma_merkle_same(t, u, p);
}

/// Taking the same leaf out of a trie and of a part of it.
proof fn lemma_unlinked_part(w: TrieModel, g: TrieModel, full: Seq<u8>, path: Seq<u8>)
    requires
        w.linked(),
        g.linked(),
        part_of(w, g),
        w.has_node(path),
        w.node(path) is Leaf,
        path + w.node(path)->Leaf_key == full,
    ensures
        part_of(w.unlinked(full, path), g.unlinked(full, path)),
{
    let u = w.unlinked(full, path);
    let v = g.unlinked(full, path);
    assert(shows(w, g, path));
    assert forall|p: Seq<u8>| #[trigger] u.has_node(p) implies shows(u, v, p) by {
        lemma_unlinked(w, full, path, p);
        lemma_unlinked(g, full, path, p);
        assert(w.has_node(p));
        assert(shows(w, g, p));
        match w.node(p) {
            NodeModel::Hash(_) => {
                if p.is_prefix_of(path) {
                    lemma_blind_bottom(w, p, path);
                }
                lemma_unlinked_below(g, full, path, p);
                lemma_hash_merkle(w, u, p);
            },
            NodeModel::Leaf { .. } => {
                lemma_unlinked_value(w, full, path, p);
                lemma_unlinked_value(g, full, path, p);
            },
            _ => {},
        }
    }
}

// Replacing a node.

/// The value of a leaf that takes the place of its parent is that which it had before.
proof fn lemma_moved_value(
    t: TrieModel,
    r: TrieModel,
    from: Seq<u8>,
    to: Seq<u8>,
    new: NodeModel,
)
    requires
        may_relocate(t, Some(from), to, new),
        relocated(t, r, Some(from), to, new),
        new is Leaf,
    ensures
        r.source_at(to).values[to + new->Leaf_key] == t.source_at(from).values[to + new->Leaf_key],
{
    lemma_prefix_pointwise(to, from);
    if !is_upper(from) {
        assert(t.lower[lower_index_of(from)] is Some);
    }
    if !is_upper(to) {
        assert(to[0] == from[0] && to[1] == from[1]);
        assert(lower_index_of(to) == lower_index_of(from));
    }
}

/// Replacing the same node in a trie and in a part of it.
proof fn lemma_relocated_part(
    t: TrieModel,
    r: TrieModel,
    f: TrieModel,
    g: TrieModel,
    from: Option<Seq<u8>>,
    to: Seq<u8>,
    new: NodeModel,
)
    requires
        t.sound(),
        f.sound(),
        part_of(t, f),
        may_relocate(t, from, to, new),
        may_relocate(f, from, to, new),
        relocated(t, r, from, to, new),
        relocated(f, g, from, to, new),
        new !is Hash,
        t.has_node(to) || to.len() == 0,
    ensures
        part_of(r, g),
{
    assert forall|p: Seq<u8>| #[trigger] r.has_node(p) implies shows(r, g, p) by {
        lemma_relocated_node(t, r, from, to, new, p);
        lemma_relocated_node(f, g, from, to, new, p);
        if p == to {
            if new is Leaf {
                assert(t.has_node(from->0));
                assert(shows(t, f, from->0));
                lemma_moved_value(t, r, from->0, to, new);
                lemma_moved_value(f, g, from->0, to, new);
            }
        } else {
            assert(t.has_node(p));
            assert(shows(t, f, p));
            match t.node(p) {
                NodeModel::Hash(_) => {
                    lemma_hash_merkle(t, r, p);
                    lemma_blind_same(t, f, g, from, to, new, p);
                },
                NodeModel::Leaf { .. } => {
                    lemma_relocated_value(t, r, from, to, new, p);
                    lemma_relocated_value(f, g, from, to, new, p);
                },
                _ => {},
            }
        }
    }
}

/// What a blinded node stands for does not change where a node elsewhere is replaced.
proof fn lemma_blind_same(
    t: TrieModel,
    f: TrieModel,
    g: TrieModel,
    from: Option<Seq<u8>>,
    to: Seq<u8>,
    new: NodeModel,
    p: Seq<u8>,
)
    requires
        t.sound(),
        f.sound(),
        may_relocate(t, from, to, new),
        may_relocate(f, from, to, new),
        relocated(f, g, from, to, new),
        t.has_node(to) || to.len() == 0,
        t.has_node(p),
        t.node(p) is Hash,
        p != to,
    ensures
        f.merkle(p) == g.merkle(p),
{
    assert(!p.is_prefix_of(to)) by {
        if p.is_prefix_of(to) {
            lemma_prefix_pointwise(p, to);
            if t.has_node(to) {
                lemma_blind_bottom(t, p, to);
            } else {
                assert(p =~= to);
            }
        }
    }
    if from is Some && p.is_prefix_of(from->0) {
        lemma_blind_bottom(t, p, from->0);
    }
    assert forall|q: Seq<u8>| p.is_prefix_of(q) implies #[trigger] f.has_node(q) == g.has_node(q)
        && (f.has_node(q) ==> alike(f.node(q), g.node(q)) && (f.node(q) matches NodeModel::Leaf {
        key,
        ..
    } ==> f.source_at(q).values[q + key] == g.source_at(q).values[q + key])) by {
        lemma_relocated_node(f, g, from, to, new, q);
        if f.has_node(q) && f.node(q) is Leaf {
            lemma_relocated_value(f, g, from, to, new, q);
        }
    }
    lemma_merkle_same(f, g, p);
}

// Merging a branch with the only child that is left.

/// Once the only child that is left is known, the branch above a leaf can be merged with it, and then
/// the extension above the branch.
proof fn lemma_collapse_ready(
    w: TrieModel,
    full: Seq<u8>,
    path: Seq<u8>,
    branch: Seq<u8>,
    ext: Option<Seq<u8>>,
    reply: Result<Option<RevealedModel>, ErrorModel>,
)
    requires
        w.unlinked(full, path).sound(),
        leaf_place(w, full, path, branch, ext),
        ({
            let mask = w.mask_without(branch, path);
            let child = TrieModel::only_child(branch, mask);
            &&& child_nibbles(mask).len() == 1
            &&& w.has_node(child)
            &&& w.node(child) !is Empty
            &&& w.child_fits(branch, ext, child)
            &&& child_known(w.unlinked(full, path), child, reply).result is Ok
        }),
    ensures
        ({
            let child = TrieModel::only_child(branch, w.mask_without(branch, path));
            let v = child_known(w.unlinked(full, path), child, reply).trie;
            let m = v.merged(branch, child);
            let from = if takes_child(v.node(child)) {
                Some(child)
            } else {
                None
            };
            let new = merged_branch(child.last(), v.node(child));
            &&& v.sound()
            &&& v.has_node(child)
            &&& v.node(child) !is Hash
            &&& v.has_node(branch)
            &&& may_relocate(v, from, branch, new)
            &&& relocated(v, m, from, branch, new)
            &&& m.sound()
            &&& m.has_node(branch)
            &&& m.node(branch) == new
            &&& ext matches Some(above) ==> {
                &&& above.len() < branch.len()
                &&& above.is_prefix_of(branch)
                &&& m.has_node(above)
                &&& m.node(above) is Extension
                &&& above + m.node(above)->Extension_key == branch
            }
        }),
{
    let mask = w.mask_without(branch, path);
    let child = TrieModel::only_child(branch, mask);
    let u = w.unlinked(full, path);
    lemma_unlinked_child(w, full, path, branch, ext, child);
    lemma_unlinked(w, full, path, child);
    lemma_prefix_pointwise(branch, child);
    lemma_prefix_pointwise(branch, full);
    lemma_nibbles_below(mask, 16);
    assert(mask.contains(child_nibbles(mask)[0]));
    assert(path[branch.len() as int] == full[branch.len() as int]);
    assert(child[branch.len() as int] != full[branch.len() as int]);
    let v = child_known(u, child, reply).trie;
    lemma_child_path(full, branch, child);
    lemma_known_sound(u, child, reply);
    lemma_child_known(w, full, path, branch, ext, child, reply);
    lemma_prefix_pointwise(child, branch);
    assert(v.has_node(branch) == w.has_node(branch));
    assert forall|q: Seq<u8>| #[trigger]
        v.has_node(q) && kid_paths(branch, v.node(branch)).contains(q) implies q == child by {
        lemma_only_kid(w, full, path, branch, ext, q);
    }
    lemma_merged_linked(v, branch, child, ext);
    lemma_merged_sound(v, branch, child, ext);
    lemma_merged_all(v, branch, child, ext);
    if ext is Some {
        lemma_prefix_pointwise(ext->0, branch);
        assert(v.merged(branch, child).has_node(ext->0) == v.has_node(ext->0));
    }
}

/// Merging an extension with what became of the branch below it, in a trie and in a part of it.
#[verifier::rlimit(40)]
proof fn lemma_ext_part(
    m: TrieModel,
    n: TrieModel,
    branch: Seq<u8>,
    ext: Option<Seq<u8>>,
)
    requires
        m.sound(),
        n.sound(),
        part_of(m, n),
        m.has_node(branch),
        m.node(branch) is Leaf || m.node(branch) is Extension,
        n.has_node(branch),
        n.node(branch) == m.node(branch),
        ext matches Some(above) ==> {
            &&& above.len() < branch.len()
            &&& above.is_prefix_of(branch)
            &&& m.has_node(above)
            &&& m.node(above) is Extension
            &&& above + m.node(above)->Extension_key == branch
        },
    ensures
        part_of(m.ext_merged(ext, branch), n.ext_merged(ext, branch)),
{
    if ext is Some {
        let above = ext->0;
        assert(shows(m, n, above));
        let key = m.node(above)->Extension_key;
        let joined = merged_ext(key, m.node(branch))->0;
        if let NodeModel::Leaf { key: rest, .. } = m.node(branch) {
            assert(above + (key + rest) =~= branch + rest);
        }
        lemma_ext_relocated(m, above, branch);
        lemma_ext_relocated(n, above, branch);
        lemma_relocated_part(
            m,
            m.ext_merged(ext, branch),
            n,
            n.ext_merged(ext, branch),
            Some(branch),
            above,
            joined,
        );
    }
}

/// Merging the branch above a leaf with the only child that is left, in a trie of which no node is
/// blinded and in a part of it.
proof fn lemma_collapse_part(
    w: TrieModel,
    g: TrieModel,
    full: Seq<u8>,
    path: Seq<u8>,
    branch: Seq<u8>,
    ext: Option<Seq<u8>>,
    reply: Result<Option<RevealedModel>, ErrorModel>,
    other: Result<Option<RevealedModel>, ErrorModel>,
)
    requires
        w.unlinked(full, path).sound(),
        g.unlinked(full, path).sound(),
        leaf_place(w, full, path, branch, ext),
        leaf_place(g, full, path, branch, ext),
        w.mask_without(branch, path) == g.mask_without(branch, path),
        ({
            let mask = w.mask_without(branch, path);
            let child = TrieModel::only_child(branch, mask);
            let known = child_known(w.unlinked(full, path), child, reply);
            &&& child_nibbles(mask).len() == 1
            &&& w.has_node(child)
            &&& w.node(child) !is Empty
            &&& w.child_fits(branch, ext, child)
            &&& known.result is Ok
            &&& part_of(known.trie, g.unlinked(full, path))
            &&& g.has_node(child)
            &&& g.node(child) !is Empty
            &&& g.node(child) !is Hash
            &&& g.child_fits(branch, ext, child)
        }),
    ensures
        ({
            let child = TrieModel::only_child(branch, w.mask_without(branch, path));
            part_of(
                w.unlinked(full, path).child_left(branch, child, ext, reply).trie,
                g.unlinked(full, path).child_left(branch, child, ext, other).trie,
            )
        }),
{
    let child = TrieModel::only_child(branch, w.mask_without(branch, path));
    lemma_unlinked_child(g, full, path, branch, ext, child);
    lemma_collapse_ready(w, full, path, branch, ext, reply);
    lemma_collapse_ready(g, full, path, branch, ext, other);
    let a = child_known(w.unlinked(full, path), child, reply).trie;
    let b = child_known(g.unlinked(full, path), child, other).trie;
    assert(b == g.unlinked(full, path));
    assert(shows(a, b, child));
    let from = if takes_child(a.node(child)) {
        Some(child)
    } else {
        None
    };
    let new = merged_branch(child.last(), a.node(child));
    lemma_relocated_part(
        a,
        a.merged(branch, child),
        b,
        b.merged(branch, child),
        from,
        branch,
        new,
    );
    lemma_ext_part(a.merged(branch, child), b.merged(branch, child), branch, ext);
}

/// Revealing the only child that is left, once the leaf was taken out, gives a part of the trie
/// without the leaf, if revealing it before gives a part of the trie with the leaf.
proof fn lemma_known_part(
    t: TrieModel,
    w: TrieModel,
    f: TrieModel,
    g: TrieModel,
    full: Seq<u8>,
    path: Seq<u8>,
    child: Seq<u8>,
    reply: Result<Option<RevealedModel>, ErrorModel>,
)
    requires
        t.sound(),
        w.sound(),
        g.sound(),
        alike_tries(t, w),
        alike_tries(f, g),
        w.has_node(path),
        w.node(path) is Leaf,
        path + w.node(path)->Leaf_key == full,
        g.has_node(path),
        g.node(path) is Leaf,
        path + g.node(path)->Leaf_key == full,
        w.has_node(child),
        w.node(child) is Hash,
        is_path(child),
        !child.is_prefix_of(full),
        w.unlinked(full, path).reveal_reply(child, reply).result is Ok,
        part_of(w.unlinked(full, path), g.unlinked(full, path)),
        part_of(t.reveal_reply(child, reply).trie, f),
    ensures
        part_of(w.unlinked(full, path).reveal_reply(child, reply).trie, g.unlinked(full, path)),
{
    let u = w.unlinked(full, path);
    let h = g.unlinked(full, path);
    let v = u.reveal_reply(child, reply).trie;
    let r = t.reveal_reply(child, reply).trie;
    let node = decoded_node(reply->Ok_0->Some_0.node)->Ok_0;
    let masks = reply->Ok_0->Some_0.masks;
    lemma_prefix_pointwise(path, full);
    lemma_prefix_pointwise(child, child);
    if path == child {
        lemma_prefix_pointwise(child, full);
    }
    lemma_unlinked(w, full, path, child);
    lemma_unlinked_sound(w, full, path);
    lemma_reply_same(t, w, full, path, child, reply);
    lemma_trie_unblinded(u, child, node, masks);
    assert(trie_elsewhere(u, v, child));
    assert(same_below(v, r, child));
    assert forall|p: Seq<u8>| #[trigger] v.has_node(p) implies shows(v, h, p) by {
        if child.is_prefix_of(p) {
            assert(v.has_node(p) == r.has_node(p));
            assert(r.has_node(p));
            assert(shows(r, f, p));
            if p.is_prefix_of(path) {
                lemma_prefix_transitive(child, p, path);
                lemma_prefix_transitive(child, path, full);
            }
            lemma_prefix_pointwise(p, p);
            lemma_alike_node(f, g, p);
            lemma_unlinked(g, full, path, p);
            match v.node(p) {
                NodeModel::Hash(_) => {
                    lemma_hash_merkle(v, r, p);
                    lemma_alike_merkle(f, g, p);
                    lemma_unlinked_below(g, full, path, p);
                },
                NodeModel::Leaf { .. } => {
                    lemma_unlinked_value(g, full, path, p);
                },
                _ => {},
            }
        } else {
            assert(u.has_node(p) == v.has_node(p));
            assert(u.has_node(p));
            assert(shows(u, h, p));
            match v.node(p) {
                NodeModel::Hash(_) => {
                    lemma_hash_merkle(u, v, p);
                },
                NodeModel::Leaf { key, .. } => {
                    lemma_off_child(u, p, child);
                    let x = p + key;
                    assert(u.source_at(p).values[x] == v.source_at(p).values[x]);
                },
                _ => {},
            }
        }
    }
}

/// The full path of a leaf that is not below a node is not below it.
proof fn lemma_off_child(u: TrieModel, p: Seq<u8>, child: Seq<u8>)
    requires
        u.linked(),
        u.has_node(p),
        u.node(p) is Leaf,
        u.has_node(child),
        !child.is_prefix_of(p),
    ensures
        !child.is_prefix_of(p + u.node(p)->Leaf_key),
{
    let x = p + u.node(p)->Leaf_key;
    lemma_prefix_pointwise(child, x);
    lemma_prefix_pointwise(child, p);
    lemma_prefix_pointwise(p, child);
    if child.is_prefix_of(x) {
        if child.len() <= p.len() {
            assert forall|i: int| 0 <= i < child.len() implies child[i] == p[i] by {
                assert(x[i] == p[i]);
            }
        } else {
            assert forall|i: int| 0 <= i < p.len() implies p[i] == child[i] by {
                assert(x[i] == p[i]);
            }
            lemma_way_leads_on(u, child, p);
        }
    }
}

/// Removing the same leaf from a trie of which no node is blinded, and from a part of it.
pub proof fn lemma_part_removed(
    t: TrieModel,
    f: TrieModel,
    full: Seq<u8>,
    reply: Result<Option<RevealedModel>, ErrorModel>,
    other: Result<Option<RevealedModel>, ErrorModel>,
)
    requires
        t.whole(),
        f.whole(),
        f.all_revealed(),
        part_of(t, f),
        is_path(full),
        t.leaf_removed(full, reply).result is Ok,
        t.asks(full) matches Some(child) ==> part_of(t.reveal_reply(child, reply).trie, f),
    ensures
        f.leaf_removed(full, other).result is Ok,
        part_of(t.leaf_removed(full, reply).trie, f.leaf_removed(full, other).trie),
{
    let root = Seq::<u8>::empty();
    let w = t.walk(full, root, None, None).trie;
    let g = f.walk(full, root, None, None).trie;
    let end = t.walk(full, root, None, None).end;
    lemma_removed_revealed(f, full, other);
    lemma_whole_removable(t, full);
    lemma_whole_removable(f, full);
    assert(seen(t, f)) by {
        assert forall|p: Seq<u8>| #[trigger]
            t.has_node(p) && t.node(p) !is Hash implies f.has_node(p) && alike(
            t.node(p),
            f.node(p),
        ) by {
            assert(shows(t, f, p));
        }
    }
    lemma_walk_together(t, f, full, root, None, None);
    lemma_walk_alike(t, full, root, None, None);
    lemma_walk_alike(f, full, root, None, None);
    lemma_alike_sound(t, w);
    lemma_alike_sound(f, g);
    lemma_part_alike(t, w, f, g);
    lemma_prefix_pointwise(root, full);
    lemma_walk(t, full, root, None, None);
    lemma_walk(f, full, root, None, None);
    match end {
        WalkEnd::Leaf { path, branch, ext } => {
            lemma_leaf_place(t, full);
            lemma_leaf_place(f, full);
            lemma_alike_node(t, w, path);
            lemma_alike_node(f, g, path);
            lemma_unlinked_part(w, g, full, path);
            lemma_unlinked_sound(w, full, path);
            lemma_unlinked_sound(g, full, path);
            lemma_found_removed(t, f, w, g, full, path, branch, ext, reply, other);
        },
        _ => {},
    }
}

/// What follows once the leaf was taken out.
proof fn lemma_found_removed(
    t: TrieModel,
    f: TrieModel,
    w: TrieModel,
    g: TrieModel,
    full: Seq<u8>,
    path: Seq<u8>,
    branch: Option<Seq<u8>>,
    ext: Option<Seq<u8>>,
    reply: Result<Option<RevealedModel>, ErrorModel>,
    other: Result<Option<RevealedModel>, ErrorModel>,
)
    requires
        t.sound(),
        t.removable(full),
        f.removable(full),
        f.all_revealed(),
        w.sound(),
        g.sound(),
        alike_tries(t, w),
        alike_tries(f, g),
        part_of(w, g),
        part_of(w.unlinked(full, path), g.unlinked(full, path)),
        w.unlinked(full, path).sound(),
        g.unlinked(full, path).sound(),
        t.walk(full, Seq::empty(), None, None).trie == w,
        f.walk(full, Seq::empty(), None, None).trie == g,
        t.walk(full, Seq::empty(), None, None).end == (WalkEnd::Leaf { path, branch, ext }),
        f.walk(full, Seq::empty(), None, None).end == (WalkEnd::Leaf { path, branch, ext }),
        w.has_node(path),
        w.node(path) is Leaf,
        path + w.node(path)->Leaf_key == full,
        path.len() > 0 ==> leaf_place(w, full, path, branch->0, ext) && leaf_place(
            g,
            full,
            path,
            branch->0,
            ext,
        ),
        t.leaf_removed(full, reply).result is Ok,
        t.asks(full) matches Some(child) ==> part_of(t.reveal_reply(child, reply).trie, f),
    ensures
        part_of(t.leaf_removed(full, reply).trie, f.leaf_removed(full, other).trie),
{
    let root = Seq::<u8>::empty();
    let u = w.unlinked(full, path);
    let h = g.unlinked(full, path);
    let r = t.leaf_removed(full, reply).trie;
    let s = f.leaf_removed(full, other).trie;
    assert(shows(w, g, path));
    lemma_unlinked(w, full, path, path);
    lemma_unlinked(g, full, path, path);
    if path.len() == 0 {
        assert(path =~= root);
        lemma_put_relocated(u, root, NodeModel::Empty);
        lemma_put_relocated(h, root, NodeModel::Empty);
        lemma_relocated_part(u, r, h, s, None, root, NodeModel::Empty);
    } else {
        let b = branch->0;
        let mask = w.mask_without(b, path);
        assert(shows(w, g, b));
        lemma_unlinked(w, full, path, b);
        lemma_unlinked(g, full, path, b);
        assert(g.mask_without(b, path) == mask);
        if child_nibbles(mask).len() == 1 {
            let child = TrieModel::only_child(b, mask);
            lemma_unlinked_child(w, full, path, b, ext, child);
            lemma_unlinked_child(g, full, path, b, ext, child);
            lemma_alike_node(f, g, child);
            if w.node(child) is Hash {
                lemma_prefix_pointwise(b, full);
                lemma_prefix_pointwise(b, child);
                lemma_nibbles_below(mask, 16);
                assert(mask.contains(child_nibbles(mask)[0]));
                lemma_prefix_pointwise(child, full);
                assert(!child.is_prefix_of(full)) by {
                    assert(path[b.len() as int] == full[b.len() as int]);
                    assert(child[b.len() as int] != full[b.len() as int]);
                }
                lemma_child_path(full, b, child);
                lemma_known_part(t, w, f, g, full, path, child, reply);
            }
            lemma_collapse_part(w, g, full, path, b, ext, reply, other);
        } else {
            let new = NodeModel::new_branch(mask);
            lemma_put_relocated(u, b, new);
            lemma_put_relocated(h, b, new);
            lemma_put_node(u, b, new, b);
            lemma_put_node(h, b, new, b);
            assert(r == u.put_node(b, new));
            assert(s == h.put_node(b, new));
            lemma_relocated_part(u, r, h, s, None, b, new);
        }
    }
}

}
