//! The Merkle root that a trie stands for, and why the hashes that are kept make no difference.

use crate::hash_run::{
    lemma_kid_paths, lemma_visits_below, lemma_visits_step, lemma_visits_transitive,
};
use crate::hashing::{deeper, kid_paths, kid_rlps, Hashing};
use crate::model::{hash_rlp, headed, rlp_hash, NodeModel};
use crate::order::{lemma_prefix_pointwise, lemma_prefix_transitive};
use crate::outside::{
    branch_node_rlp, empty_root_bytes, extension_node_rlp, leaf_node_rlp, MAX_PATH_LEN,
};
use crate::path::{is_upper, lower_index_of, lower_path, NUM_LOWER_SUBTRIES};
use crate::prefix_set::PrefixModel;
use crate::root::{hash_of_root, in_lower_run, lemma_owns_below, lower_run};
use crate::trie::TrieModel;
use vstd::prelude::*;

verus! {

impl Hashing {
    /// The children of the node at a path.
    pub open spec fn all_kids(self, path: Seq<u8>) -> Seq<Seq<u8>> {
        if self.nodes.contains_key(path) {
            kid_paths(path, self.nodes[path])
        } else {
            Seq::empty()
        }
    }

    /// The RLP nodes of the children of the node at a path, from the nodes and values alone.
    pub open spec fn plain_kids(self, path: Seq<u8>) -> Seq<Seq<u8>>
        decreases MAX_PATH_LEN - path.len(), 0int,
    {
        Seq::new(
            self.all_kids(path).len(),
            |i: int|
                if deeper(path, self.all_kids(path)[i]) {
                    self.plain(self.all_kids(path)[i])
                } else {
                    Seq::empty()
                },
        )
    }

    /// The RLP node of the node at a path, from the nodes and values alone: what any revealed node
    /// keeps as its hash is not looked at.
    pub open spec fn plain(self, path: Seq<u8>) -> Seq<u8>
        decreases MAX_PATH_LEN - path.len(), 1int,
    {
        if !self.nodes.contains_key(path) {
            Seq::empty()
        } else {
            match self.nodes[path] {
                NodeModel::Empty => hash_rlp(empty_root_bytes()),
                NodeModel::Hash(hash) => hash_rlp(hash),
                NodeModel::Leaf { key, .. } => leaf_node_rlp(
                    key,
                    (self.source)(path).values[path + key],
                ),
                NodeModel::Extension { key, .. } => extension_node_rlp(
                    key,
                    self.plain_kids(path)[0],
                ),
                NodeModel::Branch { mask, .. } => branch_node_rlp(self.plain_kids(path), mask),
            }
        }
    }

    /// The hash that the node at a path keeps, if it is revealed and keeps one, is right.
    pub open spec fn kept_right(self, path: Seq<u8>) -> bool {
        self.nodes.contains_key(path) && self.nodes[path] !is Hash ==> match self.nodes[path].known_hash() {
            Some(hash) => hash_rlp(hash) == self.plain(path),
            None => true,
        }
    }
}

/// Two nodes are the same but for what they keep of hashing.
pub open spec fn alike(a: NodeModel, b: NodeModel) -> bool {
    match (a, b) {
        (NodeModel::Empty, NodeModel::Empty) => true,
        (NodeModel::Hash(x), NodeModel::Hash(y)) => x == y,
        (NodeModel::Leaf { key: x, .. }, NodeModel::Leaf { key: y, .. }) => x == y,
        (NodeModel::Extension { key: x, .. }, NodeModel::Extension { key: y, .. }) => x == y,
        (NodeModel::Branch { mask: x, .. }, NodeModel::Branch { mask: y, .. }) => x == y,
        _ => false,
    }
}

/// The value of the leaf at a path, if it is one, is the same.
pub open spec fn same_leaf_value(a: Hashing, b: Hashing, path: Seq<u8>) -> bool {
    a.nodes[path] matches NodeModel::Leaf { key, .. } ==> (a.source)(path).values[path + key] == (
    b.source)(path).values[path + key]
}

/// Below a path there are the same nodes and values, but for what nodes keep of hashing.
pub open spec fn same_tree(a: Hashing, b: Hashing, path: Seq<u8>) -> bool {
    forall|p: Seq<u8>|
        path.is_prefix_of(p) ==> #[trigger] a.nodes.contains_key(p) == b.nodes.contains_key(p) && (
        a.nodes.contains_key(p) ==> alike(a.nodes[p], b.nodes[p]) && same_leaf_value(a, b, p))
}

/// The RLP of a node depends on nothing but the nodes and values below it.
pub proof fn lemma_plain_same(a: Hashing, b: Hashing, path: Seq<u8>)
    requires
        same_tree(a, b, path),
    ensures
        a.plain(path) == b.plain(path),
    decreases MAX_PATH_LEN - path.len(),
{
    lemma_prefix_pointwise(path, path);
    assert(a.nodes.contains_key(path) == b.nodes.contains_key(path));
    if a.nodes.contains_key(path) {
        let kids = a.all_kids(path);
        lemma_kid_paths(path, a.nodes[path]);
        assert(kids == b.all_kids(path));
        assert forall|i: int| 0 <= i < kids.len() implies a.plain_kids(path)[i] == b.plain_kids(
            path,
        )[i] by {
            if deeper(path, kids[i]) {
                assert(same_tree(a, b, kids[i])) by {
                    assert forall|p: Seq<u8>| kids[i].is_prefix_of(p) implies #[trigger] a.nodes.contains_key(
                        p,
                    ) == b.nodes.contains_key(p) && (a.nodes.contains_key(p) ==> alike(
                        a.nodes[p],
                        b.nodes[p],
                    ) && same_leaf_value(a, b, p)) by {
                        lemma_prefix_transitive(path, kids[i], p);
                    }
                }
                lemma_plain_same(a, b, kids[i]);
            }
        }
        assert(a.plain_kids(path) =~= b.plain_kids(path));
    }
}

/// Whether every hash that hashing from `root` relies on is right.
pub open spec fn relies_on_right(h: Hashing, root: Seq<u8>) -> bool {
    forall|p: Seq<u8>| #[trigger] h.visits(root, p) && !h.opens(p) ==> h.kept_right(p)
}

/// If every hash that is relied on is right, each node is encoded as its nodes and values say.
pub proof fn lemma_encoded_plain(h: Hashing, root: Seq<u8>, path: Seq<u8>)
    requires
        h.hashable(root),
        relies_on_right(h, root),
        h.visits(root, path),
    ensures
        h.encoded(path).rlp == h.plain(path),
    decreases MAX_PATH_LEN - path.len(),
{
    assert(h.node_ok(path));
    if h.opens(path) {
        let kids = h.kids(path);
        assert(kids == h.all_kids(path));
        assert forall|i: int| 0 <= i < kids.len() implies h.encoded_kids(path)[i].rlp
            == h.plain_kids(path)[i] by {
            assert(deeper(path, kids[i]));
            assert(h.visits(kids[i], kids[i]));
            lemma_visits_step(h, path, i, kids[i]);
            lemma_visits_transitive(h, root, path, kids[i]);
            lemma_encoded_plain(h, root, kids[i]);
        }
        assert(kid_rlps(h.encoded_kids(path)) =~= h.plain_kids(path));
    } else {
        assert(h.kept_right(path));
    }
}

/// A hash that was taken from the RLP of a hash gives that RLP again.
pub proof fn lemma_hash_again(rlp: Seq<u8>)
    requires
        headed(rlp),
        rlp_hash(rlp) is Some,
    ensures
        hash_rlp(rlp_hash(rlp)->0) == rlp,
{
    assert(hash_rlp(rlp_hash(rlp)->0) =~= rlp);
}

impl TrieModel {
    /// The RLP node of the node at a path, from the nodes and values of the trie alone.
    pub open spec fn merkle(self, path: Seq<u8>) -> Seq<u8> {
        self.hashing(PrefixModel::none()).plain(path)
    }

    /// The Merkle root that the trie stands for.
    pub open spec fn merkle_root(self) -> Seq<u8> {
        hash_of_root(self.merkle(Seq::empty()))
    }

    /// Whether the node at a path is encoded anew, if it is reached, before its hash is used.
    pub open spec fn due(self, path: Seq<u8>) -> bool {
        let i = lower_index_of(path);
        if in_lower_run(self, i, path) {
            lower_run(self, i).opens(path)
        } else {
            self.hashing(self.upper_keys()).opens(path)
        }
    }

    /// The hash that the node at a path keeps, if it is revealed and keeps one, is right.
    pub open spec fn kept_right(self, path: Seq<u8>) -> bool {
        self.hashing(PrefixModel::none()).kept_right(path)
    }

    /// Every hash that is kept is right.
    pub open spec fn true_hashes(self) -> bool {
        forall|path: Seq<u8>| #[trigger] self.has_node(path) ==> self.kept_right(path)
    }

    /// Every hash that is kept is right, or its node counts as changed.
    pub open spec fn hashes_right(self) -> bool {
        forall|path: Seq<u8>| #[trigger] self.has_node(path) ==> self.kept_right(path) || self.due(path)
    }
}

/// Which keys have changed makes no difference to what a trie stands for.
proof fn lemma_merkle_prefix(t: TrieModel, prefix: PrefixModel, path: Seq<u8>)
    ensures
        t.hashing(prefix).plain(path) == t.merkle(path),
{
    assert(same_tree(t.hashing(prefix), t.hashing(PrefixModel::none()), path));
    lemma_plain_same(t.hashing(prefix), t.hashing(PrefixModel::none()), path);
}

/// What a lower subtrie stands for is what the trie stands for there.
proof fn lemma_merkle_lower(t: TrieModel, prefix: PrefixModel, i: int, path: Seq<u8>)
    requires
        0 <= i < t.lower.len(),
        t.lower[i] is Some,
        TrieModel::owns(i, path),
    ensures
        t.lower[i]->0.hashing(prefix).plain(path) == t.merkle(path),
{
    let a = t.lower[i]->0.hashing(prefix);
    let b = t.hashing(PrefixModel::none());
    assert(same_tree(a, b, path)) by {
        assert forall|p: Seq<u8>| path.is_prefix_of(p) implies #[trigger] a.nodes.contains_key(p)
            == b.nodes.contains_key(p) && (a.nodes.contains_key(p) ==> alike(
            a.nodes[p],
            b.nodes[p],
        ) && same_leaf_value(a, b, p)) by {
            lemma_owns_below(i, path, p);
        }
    }
    lemma_plain_same(a, b, path);
}

/// Hashing the changed lower subtries makes no difference to what the trie stands for.
pub proof fn lemma_merkle_lower_hashed(t: TrieModel, path: Seq<u8>)
    requires
        t.placed(),
    ensures
        t.lower_hashed().merkle(path) == t.merkle(path),
{
    let a = t.lower_hashed().hashing(PrefixModel::none());
    let b = t.hashing(PrefixModel::none());
    assert(same_tree(a, b, path));
    lemma_plain_same(a, b, path);
}

/// Hashing the trie from its root makes no difference to what it stands for.
pub proof fn lemma_merkle_upper_hashed(t: TrieModel, prefix: PrefixModel, path: Seq<u8>)
    requires
        t.placed(),
    ensures
        t.upper_hashed(prefix).merkle(path) == t.merkle(path),
{
    let a = t.upper_hashed(prefix).hashing(PrefixModel::none());
    let b = t.hashing(PrefixModel::none());
    assert(same_tree(a, b, path));
    lemma_plain_same(a, b, path);
}

/// What hashing a changed lower subtrie goes through belongs to the subtrie.
proof fn lemma_lower_run_owns(t: TrieModel, i: int, path: Seq<u8>)
    requires
        t.placed(),
        0 <= i < NUM_LOWER_SUBTRIES,
        t.lower[i] is Some,
        lower_run(t, i).visits(t.lower_root(i), path),
    ensures
        TrieModel::owns(i, path),
        lower_index_of(path) == i,
{
    assert(lower_index_of(lower_path(i)) == i);
    lemma_visits_below(lower_run(t, i), t.lower_root(i), path);
    lemma_prefix_transitive(lower_path(i), t.lower_root(i), path);
    lemma_owns_below(i, lower_path(i), path);
}

/// Hashing a changed lower subtrie encodes each node as the trie stands for it.
pub proof fn lemma_lower_encoded(t: TrieModel, i: int, path: Seq<u8>)
    requires
        t.placed(),
        t.lower_hashable(),
        t.hashes_right(),
        in_lower_run(t, i, path),
    ensures
        lower_run(t, i).encoded(path).rlp == t.merkle(path),
{
    let prefix = t.prefix.frozen();
    let g = lower_run(t, i);
    let root = t.lower_root(i);
    assert(t.lower[i]->0.hashable(prefix.under(t.lower_root(i))));
    assert(g.hashable(root));
    assert(relies_on_right(g, root)) by {
        assert forall|p: Seq<u8>| #[trigger] g.visits(root, p) && !g.opens(p) implies g.kept_right(
            p,
        ) by {
            lemma_lower_run_owns(t, i, p);
            assert(in_lower_run(t, i, p));
            assert(g.node_ok(p));
            assert(t.has_node(p));
            assert(!t.due(p));
            lemma_merkle_lower(t, prefix.under(t.lower_root(i)), i, p);
        }
    }
    lemma_encoded_plain(g, root, path);
    lemma_merkle_lower(t, prefix.under(t.lower_root(i)), i, path);
}

/// After the changed lower subtries were hashed, every hash that is relied on further up is right.
proof fn lemma_lower_hashed_right(t: TrieModel, path: Seq<u8>)
    requires
        t.placed(),
        t.root_ready(),
        t.hashes_right(),
        t.lower_headed(),
        t.has_node(path),
        !t.lower_hashed().hashing(t.upper_keys()).opens(path),
    ensures
        t.lower_hashed().kept_right(path),
{
    let prefix = t.prefix.frozen();
    let left = t.upper_keys();
    let lower = t.lower_hashed();
    let h = lower.hashing(left);
    let i = lower_index_of(path);
    lemma_merkle_lower_hashed(t, path);
    if in_lower_run(t, i, path) {
        let g = lower_run(t, i);
        assert(t.lower[i]->0.hashable(prefix.under(t.lower_root(i))));
        assert(g.node_ok(path));
        assert(lower.node(path) == g.hashed_node(t.lower_root(i), path));
        if g.opens(path) {
            lemma_lower_encoded(t, i, path);
            assert(t.lower[i]->0.hashing(prefix.under(t.lower_root(i))).headed_from(t.lower_root(i)));
            let rlp = g.encoded(path).rlp;
            assert(headed(rlp));
            if rlp_hash(rlp) is Some {
                lemma_hash_again(rlp);
            }
        } else {
            assert(!t.due(path));
        }
    } else {
        assert(lower.node(path) == t.node(path)) by {
            if !is_upper(path) && t.rehashed(prefix, i) {
                assert(!lower_run(t, i).visits(t.lower_root(i), path));
            }
        }
        assert(!t.hashing(left).opens(path));
        assert(!t.due(path));
    }
}

/// If every hash that is kept is right or its node counts as changed, the root is encoded as the
/// trie stands for it.
pub proof fn lemma_root_encoded(t: TrieModel, path: Seq<u8>)
    requires
        t.placed(),
        t.root_ready(),
        t.hashes_right(),
        t.lower_headed(),
        t.lower_hashed().upper_hashable(t.upper_keys()),
        t.lower_hashed().hashing(t.upper_keys()).visits(Seq::empty(), path),
    ensures
        t.lower_hashed().hashing(t.upper_keys()).encoded(path).rlp == t.merkle(path),
{
    let lower = t.lower_hashed();
    let h = lower.hashing(t.upper_keys());
    let root = Seq::<u8>::empty();
    assert(relies_on_right(h, root)) by {
        assert forall|p: Seq<u8>| #[trigger] h.visits(root, p) && !h.opens(p) implies h.kept_right(
            p,
        ) by {
            assert(h.node_ok(p));
            assert(lower.has_node(p));
            assert(t.has_node(p));
            lemma_lower_hashed_right(t, p);
            lemma_merkle_prefix(lower, t.upper_keys(), p);
        }
    }
    lemma_encoded_plain(h, root, path);
    lemma_merkle_prefix(lower, t.upper_keys(), path);
    lemma_merkle_lower_hashed(t, path);
}

/// If every hash that is kept is right or its node counts as changed, then the hashes that
/// computing the root leaves on its way are right.
pub proof fn lemma_rooted_right(t: TrieModel, path: Seq<u8>)
    requires
        t.placed(),
        t.root_ready(),
        t.hashes_right(),
        t.lower_headed(),
        t.lower_hashed().upper_hashable(t.upper_keys()),
        t.lower_hashed().hashing(t.upper_keys()).headed_from(Seq::empty()),
        t.lower_hashed().hashing(t.upper_keys()).visits(Seq::empty(), path),
    ensures
        t.rooted().has_node(path),
        t.rooted().kept_right(path),
{
    let lower = t.lower_hashed();
    let h = lower.hashing(t.upper_keys());
    let root = Seq::<u8>::empty();
    let hashed = lower.upper_hashed(t.upper_keys());
    let r = t.rooted();
    assert(h.node_ok(path));
    assert(lower.has_node(path));
    assert(t.has_node(path));
    assert(lower.placed());
    assert(r.node(path) == h.hashed_node(root, path));
    lemma_merkle_upper_hashed(lower, t.upper_keys(), path);
    lemma_merkle_lower_hashed(t, path);
    assert(same_tree(
        r.hashing(PrefixModel::none()),
        hashed.hashing(PrefixModel::none()),
        path,
    ));
    lemma_plain_same(r.hashing(PrefixModel::none()), hashed.hashing(PrefixModel::none()), path);
    if h.opens(path) {
        lemma_root_encoded(t, path);
        let rlp = h.encoded(path).rlp;
        assert(headed(rlp));
        if rlp_hash(rlp) is Some {
            lemma_hash_again(rlp);
        }
    } else {
        lemma_lower_hashed_right(t, path);
    }
}

/// Hashing the changed lower subtries keeps every hash right.
proof fn lemma_lower_true(t: TrieModel, path: Seq<u8>)
    requires
        t.placed(),
        t.lower_hashable(),
        t.true_hashes(),
        t.lower_headed(),
        t.has_node(path),
    ensures
        t.lower_hashed().kept_right(path),
{
    let prefix = t.prefix.frozen();
    let lower = t.lower_hashed();
    let i = lower_index_of(path);
    lemma_merkle_lower_hashed(t, path);
    if in_lower_run(t, i, path) {
        let g = lower_run(t, i);
        assert(t.lower[i]->0.hashable(prefix.under(t.lower_root(i))));
        assert(g.node_ok(path));
        assert(lower.node(path) == g.hashed_node(t.lower_root(i), path));
        if g.opens(path) {
            lemma_lower_encoded(t, i, path);
            assert(t.lower[i]->0.hashing(prefix.under(t.lower_root(i))).headed_from(t.lower_root(i)));
            let rlp = g.encoded(path).rlp;
            assert(headed(rlp));
            if rlp_hash(rlp) is Some {
                lemma_hash_again(rlp);
            }
        }
    } else {
        assert(lower.node(path) == t.node(path)) by {
            if !is_upper(path) && t.rehashed(prefix, i) {
                assert(!lower_run(t, i).visits(t.lower_root(i), path));
            }
        }
    }
}

/// Computing the root keeps every hash right.
pub proof fn lemma_rooted_true(t: TrieModel)
    requires
        t.placed(),
        t.root_ready(),
        t.true_hashes(),
        t.lower_headed(),
        t.lower_hashed().upper_hashable(t.upper_keys()),
        t.lower_hashed().hashing(t.upper_keys()).headed_from(Seq::empty()),
    ensures
        t.rooted().true_hashes(),
{
    let lower = t.lower_hashed();
    let h = lower.hashing(t.upper_keys());
    let root = Seq::<u8>::empty();
    let hashed = lower.upper_hashed(t.upper_keys());
    let r = t.rooted();
    assert forall|path: Seq<u8>| #[trigger] r.has_node(path) implies r.kept_right(path) by {
        assert(lower.has_node(path));
        assert(t.has_node(path));
        if h.visits(root, path) {
            lemma_rooted_right(t, path);
        } else {
            lemma_lower_true(t, path);
            assert(lower.placed());
            assert(r.node(path) == lower.node(path));
            lemma_merkle_upper_hashed(lower, t.upper_keys(), path);
            assert(same_tree(
                r.hashing(PrefixModel::none()),
                hashed.hashing(PrefixModel::none()),
                path,
            ));
            lemma_plain_same(
                r.hashing(PrefixModel::none()),
                hashed.hashing(PrefixModel::none()),
                path,
            );
        }
    }
}

}
