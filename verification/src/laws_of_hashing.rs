//! What holds of hashing: what a node is encoded as, whose hashes are used, and which are kept.

use crate::described::{hashed_kids, lemma_described, trees};
use crate::due::{key_below, key_touches, lemma_right_but_touched, lemma_touched_due};
use crate::hash_run::lemma_nibbles_below;
use crate::hashing::{
    asked, deeper, fresh, fresh_kids, kid_paths, kid_rlps, latest, ready, rlp_step, Encoded,
    PathItem, RlpItem, Source, StepState,
};
use crate::laws_of_recording::{branch_noted, lemma_known_before};
use crate::merkle::{lemma_encoded_plain, lemma_lower_encoded, lemma_root_encoded, relies_on_right};
use crate::model::{child_nibbles, NodeModel};
use crate::node::SparseNodeType;
use crate::normal::lemma_whole_ready;
use crate::outside::{
    branch_node_rlp, empty_root_bytes, extension_node_rlp, keccak, leaf_node_rlp, MAX_PATH_LEN,
};
use crate::path::{is_upper, lower_index_of, NUM_LOWER_SUBTRIES};
use crate::prefix_set::PrefixModel;
use crate::recorded::same_record;
use crate::root::{lemma_upper_hashable, lower_run};
use crate::soundness::{lemma_alike_node, lemma_rooted_alike};
use crate::subtrie::SubtrieModel;
use crate::trie::TrieModel;
use vstd::prelude::*;

verus! {

// What a node is encoded as.

/// The nibbles of a mask are in ascending order, and are just those of the mask.
pub proof fn law_child_nibbles(mask: Set<u8>)
    ensures
        forall|i: int, j: int|
            0 <= i < j < child_nibbles(mask).len() ==> #[trigger] child_nibbles(mask)[i]
                < #[trigger] child_nibbles(mask)[j],
        forall|n: u8| #[trigger] child_nibbles(mask).contains(n) == (n < 16 && mask.contains(n)),
{
    lemma_nibbles_below(mask, 16);
    assert forall|n: u8| #[trigger] child_nibbles(mask).contains(n) implies n < 16 && mask.contains(
        n,
    ) by {
        let i = child_nibbles(mask).index_of(n);
        assert(child_nibbles(mask)[i] == n);
    }
}

/// A leaf stands for the RLP of its key and of its value, whatever hash it keeps.
pub proof fn law_leaf_stands_for(t: TrieModel, p: Seq<u8>, key: Seq<u8>, hash: Option<Seq<u8>>)
    requires
        t.has_node(p),
        t.node(p) == (NodeModel::Leaf { key, hash }),
    ensures
        t.merkle(p) == leaf_node_rlp(key, t.subtrie_at(p).src.values[p + key]),
{
}

/// An extension stands for the RLP of its key and of what its child stands for, whatever hash it keeps.
pub proof fn law_extension_stands_for(t: TrieModel, p: Seq<u8>)
    requires
        t.has_node(p),
        t.node(p) is Extension,
        0 < t.node(p)->Extension_key.len() <= MAX_PATH_LEN - p.len(),
    ensures
        t.merkle(p) == extension_node_rlp(
            t.node(p)->Extension_key,
            t.merkle(p + t.node(p)->Extension_key),
        ),
{
    let h = t.hashing(PrefixModel::none());
    assert(h.all_kids(p)[0] == p + t.node(p)->Extension_key);
    assert(deeper(p, p + t.node(p)->Extension_key));
}

/// A branch stands for the RLP of what its children stand for, in ascending order of their nibbles,
/// whatever hash it keeps.
pub proof fn law_branch_stands_for(t: TrieModel, p: Seq<u8>, kids: Seq<Seq<u8>>)
    requires
        t.has_node(p),
        t.node(p) is Branch,
        p.len() < MAX_PATH_LEN,
        kids.len() == child_nibbles(t.node(p)->Branch_mask).len(),
        forall|i: int|
            0 <= i < kids.len() ==> #[trigger] kids[i] == t.merkle(
                p.push(child_nibbles(t.node(p)->Branch_mask)[i]),
            ),
    ensures
        t.merkle(p) == branch_node_rlp(kids, t.node(p)->Branch_mask),
{
    let h = t.hashing(PrefixModel::none());
    assert forall|i: int| 0 <= i < kids.len() implies #[trigger] h.plain_kids(p)[i] == kids[i] by {
        assert(h.all_kids(p)[i] == p.push(child_nibbles(t.node(p)->Branch_mask)[i]));
        assert(deeper(p, h.all_kids(p)[i]));
    }
    assert(h.plain_kids(p) =~= kids);
}

/// A blinded node stands for the RLP of its hash, and an empty root for that of the hash of nothing.
pub proof fn law_blinded_stands_for(t: TrieModel, p: Seq<u8>)
    requires
        t.has_node(p),
    ensures
        t.node(p) matches NodeModel::Hash(hash) ==> t.merkle(p) == seq![0xa0u8] + hash,
        t.node(p) is Empty ==> t.merkle(p) == seq![0xa0u8] + empty_root_bytes(),
{
}

/// The Merkle root is the hash that the root stands for, or the hash of its RLP where that is no hash.
pub proof fn law_merkle_root(t: TrieModel)
    ensures
        t.merkle(Seq::empty()).len() == 33 ==> t.merkle_root() == t.merkle(Seq::empty()).skip(1),
        t.merkle(Seq::empty()).len() != 33 ==> t.merkle_root() == keccak(t.merkle(Seq::empty())),
{
}

/// What a subtrie stands for at a path is what a trie stands for there that has it as the subtrie which
/// the path belongs to.
pub proof fn law_subtrie_stands_for(t: TrieModel, s: SubtrieModel, p: Seq<u8>, prefix: PrefixModel)
    requires
        s == t.subtrie_at(p),
        t.has_node(p),
    ensures
        s.nodes.contains_key(p),
        s.nodes[p] == t.node(p),
        s.nodes[p] matches NodeModel::Leaf { key, .. } ==> s.hashing(prefix).plain(p)
            == leaf_node_rlp(key, s.src.values[p + key]),
        s.nodes[p] matches NodeModel::Hash(hash) ==> s.hashing(prefix).plain(p) == seq![0xa0u8]
            + hash,
{
}

// Whose hashes are used.

/// A path counts as changed if some changed key starts with it, or if all keys have changed.
pub proof fn law_changed_paths(prefix: PrefixModel, path: Seq<u8>)
    ensures
        prefix.touches(path) == key_below(prefix, path),
        prefix.frozen().touches(path) == key_below(prefix, path),
        prefix.all ==> prefix.touches(path),
        forall|key: Seq<u8>| #[trigger]
            prefix.keys.contains(key) && path.is_prefix_of(key) ==> prefix.touches(path),
        PrefixModel::every().touches(path),
        !PrefixModel::none().touches(path),
{
}

/// If every hash that a subtrie keeps is right, unless a changed key touches its node, the root of the
/// subtrie is encoded as its nodes and values say.
pub proof fn law_subtrie_root(s: SubtrieModel, prefix: PrefixModel)
    requires
        s.hashable(prefix),
        forall|p: Seq<u8>| #[trigger]
            s.nodes.contains_key(p) ==> s.hashing(prefix).kept_right(p) || key_touches(
                prefix,
                p,
                s.nodes[p],
            ),
    ensures
        s.root_rlp(prefix) == s.hashing(prefix).plain(s.path),
{
    let h = s.hashing(prefix);
    assert(relies_on_right(h, s.path)) by {
        assert forall|p: Seq<u8>| #[trigger] h.visits(s.path, p) && !h.opens(p) implies h.kept_right(
            p,
        ) by {
            assert(h.node_ok(p));
            assert(s.nodes.contains_key(p));
        }
    }
    assert(h.visits(s.path, s.path));
    lemma_encoded_plain(h, s.path, s.path);
}

/// If every hash that the nodes of a trie keep is right, unless a changed key touches the node, the root
/// hash is the Merkle root. All encodings of 33 bytes are those of hashes.
pub proof fn law_root_is_merkle_root(t: TrieModel)
    requires
        t.whole(),
        t.right_but_touched(),
        t.lower_headed(),
    ensures
        t.root_ready(),
        t.root_hash() == t.merkle_root(),
{
    lemma_whole_ready(t);
    lemma_right_but_touched(t);
    lemma_upper_hashable(t);
    assert(t.root_visits(Seq::empty()));
    lemma_root_encoded(t, Seq::empty());
}

/// A leaf of a subtrie whose full path a changed key touches has, after hashing that goes through it,
/// the hash of the RLP of its key and value, whatever hash it kept.
pub proof fn law_touched_leaf_in_subtrie(
    s: SubtrieModel,
    prefix: PrefixModel,
    p: Seq<u8>,
    key: Seq<u8>,
    hash: Option<Seq<u8>>,
)
    requires
        s.hashing(prefix).visits(s.path, p),
        s.nodes.contains_key(p),
        s.nodes[p] == (NodeModel::Leaf { key, hash }),
        key_below(prefix, p + key),
    ensures
        ({
            let rlp = leaf_node_rlp(key, s.src.values[p + key]);
            &&& s.hashed(prefix).nodes.contains_key(p)
            &&& s.hashed(prefix).nodes[p] == (NodeModel::Leaf {
                key,
                hash: if rlp.len() == 33 {
                    Some(rlp.skip(1))
                } else {
                    None
                },
            })
            &&& p == s.path ==> s.root_rlp(prefix) == rlp
        }),
{
    let h = s.hashing(prefix);
    assert(h.opens(p));
}

/// A leaf of a trie whose full path a changed key touches has, once the root hash was computed, the hash
/// of the RLP of its key and value, whatever hash it kept.
pub proof fn law_touched_leaf(t: TrieModel, p: Seq<u8>, key: Seq<u8>, hash: Option<Seq<u8>>)
    requires
        t.sound(),
        p.len() <= MAX_PATH_LEN,
        t.has_node(p),
        t.node(p) == (NodeModel::Leaf { key, hash }),
        key_below(t.prefix, p + key),
    ensures
        ({
            let rlp = leaf_node_rlp(key, t.subtrie_at(p).src.values[p + key]);
            &&& t.rooted().has_node(p)
            &&& t.rooted().node(p) == (NodeModel::Leaf {
                key,
                hash: if rlp.len() == 33 {
                    Some(rlp.skip(1))
                } else {
                    None
                },
            })
        }),
{
    let lower = t.lower_hashed();
    let h = lower.hashing(t.upper_keys());
    let root = Seq::<u8>::empty();
    let r = t.rooted();
    lemma_touched_due(t, p);
    assert(lower.has_node(p));
    assert(lower.source_at(p) == t.source_at(p));
    assert(lower.placed());
    if !is_upper(p) {
        let i = lower_index_of(p);
        assert(lower.node(p) == lower_run(t, i).hashed_node(t.lower_root(i), p));
    }
    assert(r.has_node(p));
    assert(r.node(p) == h.hashed_node(root, p));
}

/// Where every hash that nodes keep is right, unless a changed key touches the node, each node that a
/// changed key touches keeps the hash that it stands for, once the root hash was computed. All encodings
/// of 33 bytes are those of hashes.
pub proof fn law_touched_nodes_keep_hashes(t: TrieModel, p: Seq<u8>)
    requires
        t.whole(),
        t.right_but_touched(),
        t.lower_headed(),
        t.has_node(p),
        t.touched(p),
        t.node(p) !is Empty,
        t.node(p) !is Hash,
    ensures
        t.rooted().has_node(p),
        t.rooted().node(p).known_hash() == if t.merkle(p).len() == 33 {
            Some(t.merkle(p).skip(1))
        } else {
            None
        },
{
    let lower = t.lower_hashed();
    let h = lower.hashing(t.upper_keys());
    let root = Seq::<u8>::empty();
    let r = t.rooted();
    assert(t.tidy(p));
    lemma_whole_ready(t);
    lemma_right_but_touched(t);
    lemma_upper_hashable(t);
    lemma_touched_due(t, p);
    assert(lower.has_node(p));
    assert(lower.placed());
    assert(r.has_node(p));
    assert(r.node(p) == h.hashed_node(root, p));
    if !is_upper(p) {
        let i = lower_index_of(p);
        assert(lower.node(p) == lower_run(t, i).hashed_node(t.lower_root(i), p));
        lemma_lower_encoded(t, i, p);
    }
    if h.visits(root, p) && h.opens(p) {
        lemma_root_encoded(t, p);
    }
}

/// A node that keeps a hash, and what became of it in the database, is answered with that hash, and stays
/// as it is with all that it keeps, if no changed key touches it. A leaf needs the hash alone.
pub proof fn law_kept_hash_is_used(s: SubtrieModel, prefix: PrefixModel, p: Seq<u8>, hash: Seq<u8>)
    requires
        s.nodes.contains_key(p),
        !key_touches(prefix, p, s.nodes[p]),
        match s.nodes[p] {
            NodeModel::Leaf { hash: kept, .. } => kept == Some(hash),
            NodeModel::Extension { hash: kept, store, .. } => kept == Some(hash) && store is Some,
            NodeModel::Branch { hash: kept, store, .. } => kept == Some(hash) && store is Some,
            _ => false,
        },
    ensures
        s.hashed(prefix).nodes.contains_key(p),
        s.hashed(prefix).nodes[p] == s.nodes[p],
        s.hashing(prefix).encoded(p).rlp == seq![0xa0u8] + hash,
        s.path == p ==> s.root_rlp(prefix) == seq![0xa0u8] + hash && s.hashed(prefix) == s,
{
    let h = s.hashing(prefix);
    assert(!h.opens(p));
    if s.path == p {
        assert forall|q: Seq<u8>| h.hashed_node(p, q) == s.nodes[q] by {
            if h.visits(p, q) && q != p {
                assert(h.kids(p).len() == 0);
            }
        }
        assert(s.hashed(prefix).nodes =~= s.nodes);
        if s.updates is Some {
            let updates = s.updates->0;
            let after = h.hashed_updates(p, updates);
            assert forall|q: Seq<u8>| !h.recorded(p, q) by {
                if h.visits(p, q) && q != p {
                    assert(h.kids(p).len() == 0);
                }
            }
            assert(after.updated =~= updates.updated);
            assert(after.removed =~= updates.removed);
        }
    }
}

/// Where no key has changed and the root keeps its hash, that is the root hash, and all stays as it is.
pub proof fn law_nothing_changed(t: TrieModel, hash: Seq<u8>)
    requires
        t.placed(),
        t.prefix == PrefixModel::none(),
        t.has_node(Seq::empty()),
        hash.len() == 32,
        match t.node(Seq::empty()) {
            NodeModel::Leaf { hash: kept, .. } => kept == Some(hash),
            NodeModel::Extension { hash: kept, store, .. } => kept == Some(hash) && store is Some,
            NodeModel::Branch { hash: kept, store, .. } => kept == Some(hash) && store is Some,
            NodeModel::Hash(kept) => kept == hash,
            NodeModel::Empty => hash == empty_root_bytes(),
        },
    ensures
        t.root_hash() == hash,
        t.rooted() == t,
{
    let none = PrefixModel::none();
    let root = Seq::<u8>::empty();
    assert forall|i: int| !#[trigger] t.changed(none, i) by {}
    assert(none.heads() =~= Set::empty());
    assert(t.upper_keys().keys =~= Set::empty());
    assert(t.upper_keys() == none);
    assert(t.lower_hashed().lower =~= t.lower);
    assert(t.remaining(none).keys =~= Set::empty());
    assert(t.lower_hashed() == t);
    let h = t.hashing(none);
    assert(!h.opens(root));
    assert((seq![0xa0u8] + hash).skip(1) =~= hash);
    assert forall|q: Seq<u8>| !(h.visits(root, q) && h.opens(q)) by {
        if h.visits(root, q) && q != root {
            assert(h.kids(root).len() == 0);
        }
    }
    let hashed = t.with_nodes(h.hashed_nodes(root));
    assert(hashed.upper.nodes =~= t.upper.nodes) by {
        assert forall|q: Seq<u8>| t.upper.nodes.contains_key(q) && is_upper(q) implies t.has_node(
            q,
        ) by {}
    }
    assert forall|i: int| 0 <= i < t.lower.len() implies hashed.lower[i] == t.lower[i] by {
        if t.lower[i] is Some {
            assert(hashed.lower[i]->0.nodes =~= t.lower[i]->0.nodes);
        }
    }
    assert(hashed.lower =~= t.lower);
    if t.upper.updates is Some {
        let updates = t.upper.updates->0;
        let after = h.hashed_updates(root, updates);
        assert forall|q: Seq<u8>| !h.recorded(root, q) by {}
        assert(after.updated =~= updates.updated);
        assert(after.removed =~= updates.removed);
    }
    assert(t.rooted() =~= t);
}

// One step.

/// Whether the node of a waiting item counts as changed: as the item says, if that has been asked, and
/// otherwise as the changed keys say.
pub open spec fn counts_as_changed(prefix: PrefixModel, item: PathItem, path: Seq<u8>) -> bool {
    match item.touched {
        Some(yes) => yes,
        None => key_below(prefix, path),
    }
}

/// An RLP node of 33 bytes is kept as a hash, another one is not kept.
pub open spec fn kept_of(rlp: Seq<u8>) -> Option<Seq<u8>> {
    if rlp.len() == 33 {
        Some(rlp.skip(1))
    } else {
        None
    }
}

/// A step at a leaf puts it on the stack of encoded nodes: with the hash it keeps, if it keeps one and its
/// full path does not count as changed, and otherwise with the RLP of its key and value, which it then
/// keeps. It does nothing else.
pub proof fn law_step_at_a_leaf(
    prefix: PrefixModel,
    src: Source,
    item: PathItem,
    s: StepState,
    key: Seq<u8>,
    hash: Option<Seq<u8>>,
)
    requires
        s.node == (NodeModel::Leaf { key, hash }),
    ensures
        ({
            let full = item.path + key;
            let after = rlp_step(prefix, src, item, s);
            let used = hash is Some && !counts_as_changed(prefix, item, full);
            let rlp = if used {
                seq![0xa0u8] + hash->0
            } else {
                leaf_node_rlp(key, src.values[full])
            };
            &&& after.rlps == s.rlps.push(
                RlpItem { path: item.path, rlp, kind: SparseNodeType::Leaf },
            )
            &&& after.node == (NodeModel::Leaf {
                key,
                hash: if used {
                    hash
                } else {
                    kept_of(rlp)
                },
            })
            &&& after.paths == s.paths
            &&& after.updates == s.updates
        }),
{
    assert(s.rlps.take(s.rlps.len() as int) =~= s.rlps);
}

/// A step at a blinded node, or at an empty root, puts it on the stack of encoded nodes with its hash, and
/// does nothing else.
pub proof fn law_step_at_a_blinded_node(
    prefix: PrefixModel,
    src: Source,
    item: PathItem,
    s: StepState,
)
    requires
        s.node is Hash || s.node is Empty,
    ensures
        ({
            let after = rlp_step(prefix, src, item, s);
            &&& after.rlps == s.rlps.push(
                match s.node {
                    NodeModel::Hash(hash) => RlpItem {
                        path: item.path,
                        rlp: seq![0xa0u8] + hash,
                        kind: SparseNodeType::Hash,
                    },
                    _ => RlpItem {
                        path: item.path,
                        rlp: seq![0xa0u8] + empty_root_bytes(),
                        kind: SparseNodeType::Empty,
                    },
                },
            )
            &&& after.node == s.node
            &&& after.paths == s.paths
            &&& after.updates == s.updates
        }),
{
}

/// A step at an extension puts it on the stack of encoded nodes with the hash it keeps, if it keeps one
/// and knows what became of the branch below, and does not count as changed. Otherwise, if the latest
/// encoded node is its child, it takes the place of that, with the RLP of its key and of the child.
/// Otherwise it waits, and its child before it.
pub proof fn law_step_at_an_extension(
    prefix: PrefixModel,
    src: Source,
    item: PathItem,
    s: StepState,
    key: Seq<u8>,
    hash: Option<Seq<u8>>,
    store: Option<bool>,
)
    requires
        s.node == (NodeModel::Extension { key, hash, store }),
    ensures
        ({
            let after = rlp_step(prefix, src, item, s);
            let changed = counts_as_changed(prefix, item, item.path);
            let child = item.path + key;
            if hash is Some && store is Some && !changed {
                &&& after.rlps == s.rlps.push(
                    RlpItem {
                        path: item.path,
                        rlp: seq![0xa0u8] + hash->0,
                        kind: SparseNodeType::Extension { store_in_db_trie: store },
                    },
                )
                &&& after.node == s.node
                &&& after.paths == s.paths
                &&& after.updates == s.updates
            } else if s.rlps.len() > 0 && s.rlps.last().path == child {
                let rlp = extension_node_rlp(key, s.rlps.last().rlp);
                let written = match s.rlps.last().kind {
                    SparseNodeType::Branch { store_in_db_trie } => store_in_db_trie,
                    SparseNodeType::Extension { store_in_db_trie } => store_in_db_trie,
                    _ => None,
                };
                &&& after.rlps == s.rlps.drop_last().push(
                    RlpItem {
                        path: item.path,
                        rlp,
                        kind: SparseNodeType::Extension { store_in_db_trie: written },
                    },
                )
                &&& after.node == (NodeModel::Extension { key, hash: kept_of(rlp), store: written })
                &&& after.paths == s.paths
                &&& after.updates == s.updates
            } else {
                &&& after.rlps == s.rlps
                &&& after.node == s.node
                &&& after.paths == s.paths.push(
                    PathItem { path: item.path, touched: Some(changed) },
                ).push(PathItem { path: child, touched: None })
                &&& after.updates == s.updates
            }
        }),
{
    let after = rlp_step(prefix, src, item, s);
    let child = item.path + key;
    let kids = kid_paths(item.path, s.node);
    let changed = counts_as_changed(prefix, item, item.path);
    assert(kids =~= seq![child]);
    assert(changed == asked(prefix, item.touched, item.path));
    if s.rlps.len() > 0 && s.rlps.last().path == child {
        assert(ready(s.rlps, kids)) by {
            assert(s.rlps[s.rlps.len() - kids.len() + 0] == s.rlps.last());
        }
        assert(s.rlps.take(s.rlps.len() - 1) =~= s.rlps.drop_last());
    } else if ready(s.rlps, kids) {
        assert(s.rlps[s.rlps.len() - kids.len() + 0].path == kids[0]);
    }
    assert(s.paths.push(PathItem { path: item.path, touched: Some(changed) })
        + fresh_kids(kids) =~= s.paths.push(
        PathItem { path: item.path, touched: Some(changed) },
    ).push(fresh(child)));
}

/// A step at a branch puts it on the stack of encoded nodes with the hash it keeps, if it keeps one and
/// knows whether it was written, and does not count as changed. Otherwise, if the latest encoded nodes are
/// its children in ascending order, it takes the place of those, with the RLP of them; if updates are
/// recorded, and it counts as changed and is not the root, it is recorded. Otherwise it waits, and its
/// children before it, the first child first.
pub proof fn law_step_at_a_branch(
    prefix: PrefixModel,
    src: Source,
    item: PathItem,
    s: StepState,
    mask: Set<u8>,
    hash: Option<Seq<u8>>,
    store: Option<bool>,
    kid: spec_fn(u8) -> Encoded,
)
    requires
        s.node == (NodeModel::Branch { mask, hash, store }),
        forall|i: int|
            0 <= i < child_nibbles(mask).len() ==> s.rlps[s.rlps.len() - child_nibbles(mask).len()
                + i].encoded() == kid(#[trigger] child_nibbles(mask)[i]),
    ensures
        ({
            let after = rlp_step(prefix, src, item, s);
            let changed = counts_as_changed(prefix, item, item.path);
            let nibbles = child_nibbles(mask);
            let count = nibbles.len() as int;
            let there = s.rlps.len() >= count && forall|i: int|
                0 <= i < count ==> s.rlps[s.rlps.len() - count + i].path == item.path.push(
                    #[trigger] nibbles[i],
                );
            if hash is Some && store is Some && !changed {
                &&& after.rlps == s.rlps.push(
                    RlpItem {
                        path: item.path,
                        rlp: seq![0xa0u8] + hash->0,
                        kind: SparseNodeType::Branch { store_in_db_trie: store },
                    },
                )
                &&& after.node == s.node
                &&& after.paths == s.paths
                &&& after.updates == s.updates
            } else if there {
                let rlp = branch_node_rlp(
                    Seq::new(nibbles.len(), |i: int| kid(nibbles[i]).rlp),
                    mask,
                );
                let recorded = s.updates is Some && changed && item.path.len() > 0;
                let written = recorded && after.updates->0.updated.contains_key(item.path);
                &&& after.rlps == s.rlps.take(s.rlps.len() - count).push(
                    RlpItem {
                        path: item.path,
                        rlp,
                        kind: SparseNodeType::Branch { store_in_db_trie: Some(written) },
                    },
                )
                &&& after.node == (NodeModel::Branch {
                    mask,
                    hash: kept_of(rlp),
                    store: Some(written),
                })
                &&& after.paths == s.paths
                &&& recorded ==> after.updates is Some && branch_noted(
                    src,
                    item.path,
                    mask,
                    kid,
                    s.updates->0,
                    after.updates->0,
                ) && after.updates->0.wiped == s.updates->0.wiped && (forall|q: Seq<u8>|
                    q != item.path ==> #[trigger] same_record(s.updates, after.updates, q))
                &&& !recorded ==> after.updates == s.updates
            } else {
                &&& after.rlps == s.rlps
                &&& after.node == s.node
                &&& after.updates == s.updates
                &&& after.paths.len() == s.paths.len() + 1 + count
                &&& after.paths.take(s.paths.len() as int) == s.paths
                &&& after.paths[s.paths.len() as int] == (PathItem {
                    path: item.path,
                    touched: Some(changed),
                })
                &&& forall|i: int|
                    0 <= i < count ==> after.paths[after.paths.len() - 1 - i] == (PathItem {
                        path: item.path.push(#[trigger] nibbles[i]),
                        touched: None,
                    })
            }
        }),
{
    let after = rlp_step(prefix, src, item, s);
    let nibbles = child_nibbles(mask);
    let count = nibbles.len() as int;
    let kids = kid_paths(item.path, s.node);
    let changed = counts_as_changed(prefix, item, item.path);
    assert(changed == asked(prefix, item.touched, item.path));
    assert(kids.len() == count);
    assert forall|i: int| 0 <= i < count implies kids[i] == item.path.push(#[trigger] nibbles[i]) by {}
    let there = s.rlps.len() >= count && forall|i: int|
        0 <= i < count ==> s.rlps[s.rlps.len() - count + i].path == item.path.push(
            #[trigger] nibbles[i],
        );
    assert(there == ready(s.rlps, kids)) by {
        if ready(s.rlps, kids) {
            assert forall|i: int| 0 <= i < count implies s.rlps[s.rlps.len() - count + i].path
                == item.path.push(#[trigger] nibbles[i]) by {
                assert(s.rlps[s.rlps.len() - kids.len() + i].path == kids[i]);
            }
        }
        if there {
            assert forall|i: int| 0 <= i < kids.len() implies (#[trigger] s.rlps[s.rlps.len()
                - kids.len() + i]).path == kids[i] by {
                assert(nibbles[i] == nibbles[i]);
                assert(item.path.push(nibbles[i]) == kids[i]);
            }
        }
    }
    if there {
        let encoded = latest(s.rlps, count);
        assert forall|i: int| 0 <= i < encoded.len() implies #[trigger] encoded[i] == kid(nibbles[i]) by {
            assert(nibbles[i] == nibbles[i]);
        }
        assert(kid_rlps(encoded) =~= Seq::new(
            nibbles.len(),
            |i: int| kid(nibbles[i]).rlp,
        ));
        lemma_described(src, item.path, mask, encoded, kid);
        lemma_known_before(src, item.path);
        let tree = trees(src, item.path, mask, kid);
        let hashed = hashed_kids(src, item.path, mask, kid);
        if !(exists|n: u8| tree.contains(n) || hashed.contains(n)) {
            assert(tree =~= Set::empty());
            assert(hashed =~= Set::empty());
        }
    } else {
        let again = PathItem { path: item.path, touched: Some(changed) };
        assert(after.paths == s.paths.push(again) + fresh_kids(kids)
            || (hash is Some && store is Some && !changed));
        if !(hash is Some && store is Some && !changed) {
            assert(after.paths.take(s.paths.len() as int) =~= s.paths);
            assert forall|i: int| 0 <= i < count implies after.paths[after.paths.len() - 1 - i] == (
            PathItem { path: item.path.push(#[trigger] nibbles[i]), touched: None }) by {
                assert(fresh_kids(kids)[count - 1 - i] == fresh(kids[i]));
            }
        }
    }
}

// What nodes keep of hashing.

/// Setting the hash of a leaf, an extension or a branch sets the hash, and nothing else of the node. An
/// empty root and a blinded node stay as they are.
pub proof fn law_set_hash(node: NodeModel, hash: Option<Seq<u8>>)
    ensures
        match node {
            NodeModel::Leaf { key, .. } => node.with_hash(hash) == (NodeModel::Leaf { key, hash }),
            NodeModel::Extension { key, store, .. } => node.with_hash(hash)
                == (NodeModel::Extension { key, hash, store }),
            NodeModel::Branch { mask, store, .. } => node.with_hash(hash) == (NodeModel::Branch {
                mask,
                hash,
                store,
            }),
            _ => node.with_hash(hash) == node,
        },
        node is Leaf || node is Extension || node is Branch ==> node.with_hash(hash).known_hash()
            == hash,
        node matches NodeModel::Hash(blinded) ==> node.known_hash() == Some(blinded),
        node is Empty ==> node.known_hash() is None,
{
}

/// What is known of a node whose hash is not computed.
pub proof fn law_new_nodes(key: Seq<u8>, mask: Set<u8>)
    ensures
        NodeModel::new_leaf(key) == (NodeModel::Leaf { key, hash: None }),
        NodeModel::new_ext(key) == (NodeModel::Extension { key, hash: None, store: None }),
        NodeModel::new_branch(mask) == (NodeModel::Branch { mask, hash: None, store: None }),
{
}

// Which lower subtries have changed.

/// The lower subtries that have changed are those that are there and below whose path there is a changed
/// key. They are listed in ascending order, each once.
pub proof fn law_changed_subtries(t: TrieModel, prefix: PrefixModel, i: int)
    requires
        t.lower.len() == NUM_LOWER_SUBTRIES,
    ensures
        ({
            let listed = t.changed_below(prefix, NUM_LOWER_SUBTRIES as int);
            &&& listed.contains(i) == (0 <= i < NUM_LOWER_SUBTRIES && t.lower[i] is Some
                && key_below(prefix, t.lower[i]->0.path))
            &&& forall|a: int, b: int|
                0 <= a < b < listed.len() ==> #[trigger] listed[a] < #[trigger] listed[b]
        }),
{
    lemma_changed_listed(t, prefix, NUM_LOWER_SUBTRIES as int, i);
}

/// Which lower subtries are listed below some index.
proof fn lemma_changed_listed(t: TrieModel, prefix: PrefixModel, count: int, i: int)
    requires
        0 <= count <= NUM_LOWER_SUBTRIES,
    ensures
        ({
            let listed = t.changed_below(prefix, count);
            &&& listed.contains(i) == (i < count && t.changed(prefix, i))
            &&& forall|a: int, b: int|
                0 <= a < b < listed.len() ==> #[trigger] listed[a] < #[trigger] listed[b]
            &&& forall|a: int| 0 <= a < listed.len() ==> (#[trigger] listed[a]) < count
        }),
    decreases count,
{
    if count > 0 {
        lemma_changed_listed(t, prefix, count - 1, i);
        let below = t.changed_below(prefix, count - 1);
        let listed = t.changed_below(prefix, count);
        if t.changed(prefix, count - 1) {
            assert(listed == below.push(count - 1));
            assert(listed[below.len() as int] == count - 1);
            if below.contains(i) {
                assert(listed[below.index_of(i)] == i);
            }
            if listed.contains(i) && i != count - 1 {
                assert(below[listed.index_of(i)] == i);
            }
        }
    }
}

/// A changed lower subtrie gets the changed keys that start with its path. The keys that remain are those
/// that start with the path of none of them. Where all keys have changed, all have for both.
pub proof fn law_keys_of_changed_subtries(t: TrieModel, prefix: PrefixModel, path: Seq<u8>, key: Seq<u8>)
    requires
        t.lower.len() == NUM_LOWER_SUBTRIES,
    ensures
        prefix.under(path).all == prefix.all,
        t.remaining(prefix).all == prefix.all,
        !prefix.all ==> prefix.under(path).keys.contains(key) == (prefix.keys.contains(key)
            && path.is_prefix_of(key)),
        !prefix.all ==> t.remaining(prefix).keys.contains(key) == (prefix.keys.contains(key)
            && !exists|i: int|
            0 <= i < NUM_LOWER_SUBTRIES && (#[trigger] t.lower[i]) is Some
                && t.lower[i]->0.path.is_prefix_of(key)),
{
    if !prefix.all && prefix.keys.contains(key) {
        if exists|i: int|
            0 <= i < NUM_LOWER_SUBTRIES && (#[trigger] t.lower[i]) is Some
                && t.lower[i]->0.path.is_prefix_of(key) {
            let i = choose|i: int|
                0 <= i < NUM_LOWER_SUBTRIES && (#[trigger] t.lower[i]) is Some
                    && t.lower[i]->0.path.is_prefix_of(key);
            assert(t.changed(prefix, i));
            assert(t.in_changed(prefix, NUM_LOWER_SUBTRIES as int, key));
        }
        if t.in_changed(prefix, NUM_LOWER_SUBTRIES as int, key) {
            let i = choose|i: int|
                i < NUM_LOWER_SUBTRIES && #[trigger] t.changed(prefix, i) && t.lower_root(
                    i,
                ).is_prefix_of(key);
            assert(t.lower[i] is Some);
        }
    }
}

/// Taking the changed lower subtries out leaves the others where they are, and all else.
pub proof fn law_changed_subtries_are_taken(t: TrieModel, prefix: PrefixModel, i: int)
    requires
        t.lower.len() == NUM_LOWER_SUBTRIES,
        0 <= i < NUM_LOWER_SUBTRIES,
    ensures
        ({
            let r = t.without_changed(prefix);
            let changed = t.lower[i] is Some && key_below(prefix, t.lower[i]->0.path);
            &&& r.lower.len() == t.lower.len()
            &&& changed ==> r.lower[i] is None
            &&& !changed ==> r.lower[i] == t.lower[i]
            &&& r.upper == t.upper
            &&& r.prefix == t.prefix
            &&& r.updates == t.updates
        }),
{
}

/// Hashing the changed lower subtries hashes each that has a node at its path, with the changed keys that
/// start with that, and leaves the others as they are, and the rest of the trie but for the changed keys:
/// those remain that start with the path of no lower subtrie.
pub proof fn law_changed_subtries_are_hashed(t: TrieModel, i: int)
    requires
        t.lower.len() == NUM_LOWER_SUBTRIES,
        0 <= i < NUM_LOWER_SUBTRIES,
    ensures
        ({
            let r = t.lower_hashed();
            let keys = t.prefix.frozen();
            let hashed = t.lower[i] is Some && key_below(t.prefix, t.lower[i]->0.path)
                && t.lower[i]->0.nodes.contains_key(t.lower[i]->0.path);
            &&& r.lower.len() == t.lower.len()
            &&& hashed ==> r.lower[i] == Some(
                t.lower[i]->0.hashed(keys.under(t.lower[i]->0.path)),
            )
            &&& !hashed ==> r.lower[i] == t.lower[i]
            &&& r.upper == t.upper
            &&& r.updates == t.updates
            &&& r.prefix == t.remaining(keys)
        }),
{
}

// What is encoded anew.

/// A node that keeps no hash, or does not know what became of it in the database, or that a changed key
/// touches, is encoded anew: a leaf from its key and value, an extension from its key and its child, a branch
/// from its children in ascending order. It keeps the hash that comes out, if one does.
pub proof fn law_encoded_anew(s: SubtrieModel, prefix: PrefixModel, p: Seq<u8>)
    requires
        s.hashing(prefix).visits(s.path, p),
        s.nodes.contains_key(p),
        match s.nodes[p] {
            NodeModel::Leaf { hash, .. } => hash is None || key_touches(prefix, p, s.nodes[p]),
            NodeModel::Extension { hash, store, .. } => hash is None || store is None || key_touches(
                prefix,
                p,
                s.nodes[p],
            ),
            NodeModel::Branch { hash, store, .. } => hash is None || store is None || key_touches(
                prefix,
                p,
                s.nodes[p],
            ),
            _ => false,
        },
    ensures
        ({
            let h = s.hashing(prefix);
            let rlp = h.encoded(p).rlp;
            &&& match s.nodes[p] {
                NodeModel::Leaf { key, .. } => rlp == leaf_node_rlp(key, s.src.values[p + key]),
                NodeModel::Extension { key, .. } => 0 < key.len() <= MAX_PATH_LEN - p.len() ==> rlp
                    == extension_node_rlp(key, h.encoded(p + key).rlp),
                NodeModel::Branch { mask, .. } => p.len() < MAX_PATH_LEN ==> rlp == branch_node_rlp(
                    Seq::new(
                        child_nibbles(mask).len(),
                        |i: int| h.encoded(p.push(child_nibbles(mask)[i])).rlp,
                    ),
                    mask,
                ),
                _ => true,
            }
            &&& s.hashed(prefix).nodes.contains_key(p)
            &&& s.hashed(prefix).nodes[p].known_hash() == kept_of(rlp)
            &&& p == s.path ==> s.root_rlp(prefix) == rlp
        }),
{
    let h = s.hashing(prefix);
    assert(h.opens(p));
    match s.nodes[p] {
        NodeModel::Extension { key, .. } => {
            if 0 < key.len() <= MAX_PATH_LEN - p.len() {
                assert(h.kids(p)[0] == p + key);
                assert(deeper(p, p + key));
            }
        },
        NodeModel::Branch { mask, .. } => {
            if p.len() < MAX_PATH_LEN {
                let nibbles = child_nibbles(mask);
                let rlps = Seq::new(nibbles.len(), |i: int| h.encoded(p.push(nibbles[i])).rlp);
                let kids = kid_rlps(h.encoded_kids(p));
                assert forall|i: int| 0 <= i < nibbles.len() implies #[trigger] kids[i] == rlps[i] by {
                    assert(h.kids(p)[i] == p.push(nibbles[i]));
                    assert(deeper(p, h.kids(p)[i]));
                }
                assert(kids =~= rlps);
            }
        },
        _ => {},
    }
}

/// Once the root hash was computed, each node that this goes through from the root keeps the hash that it was
/// encoded with, if it is one, and was not blinded or empty.
pub proof fn law_root_keeps_new_hashes(t: TrieModel, p: Seq<u8>)
    requires
        t.placed(),
        t.has_node(p),
        t.root_visits(p),
        t.node(p) !is Hash,
        t.node(p) !is Empty,
        t.lower_hashed().node(p).known_hash() matches Some(hash) ==> hash.len() == 32,
    ensures
        t.rooted().has_node(p),
        t.rooted().node(p).known_hash() == kept_of(
            t.lower_hashed().hashing(t.upper_keys()).encoded(p).rlp,
        ),
{
    let lower = t.lower_hashed();
    let h = lower.hashing(t.upper_keys());
    lemma_rooted_alike(t);
    lemma_alike_node(t, t.rooted(), p);
    assert(lower.has_node(p));
    assert(lower.placed());
    assert(t.rooted().node(p) == h.hashed_node(Seq::empty(), p));
    assert(h.nodes[p] == lower.node(p));
    if !h.opens(p) {
        let hash = lower.node(p).known_hash()->0;
        assert((seq![0xa0u8] + hash).skip(1) =~= hash);
    }
}

}
