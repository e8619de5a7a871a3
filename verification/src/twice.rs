//! Computing the root hash again gives the same hash.

use crate::hash_run::{lemma_visits_step, lemma_visits_transitive};
use crate::hashing::{deeper, kid_paths, kid_rlps, Hashing};
use crate::merkle::lemma_hash_again;
use crate::model::{headed, rlp_hash};
use crate::outside::MAX_PATH_LEN;
use crate::prefix_set::PrefixModel;
use crate::trie::TrieModel;
use vstd::prelude::*;

verus! {

/// Hashing a node again, where nothing has changed since, gives the same RLP.
proof fn lemma_encoded_again(h: Hashing, g: Hashing, root: Seq<u8>, path: Seq<u8>)
    requires
        h.hashable(root),
        h.headed_from(root),
        h.visits(root, path),
        g.prefix == PrefixModel::none(),
        g.nodes == h.hashed_nodes(root),
        forall|p: Seq<u8>| g.nodes.contains_key(p) ==> #[trigger] (g.source)(p) == (h.source)(p),
    ensures
        g.node_ok(path),
        g.kids(path).len() > 0 ==> g.kids(path) == h.kids(path),
        g.encoded(path).rlp == h.encoded(path).rlp,
    decreases MAX_PATH_LEN - path.len(),
{
    assert(h.node_ok(path));
    assert(g.nodes[path] == h.hashed_node(root, path));
    assert forall|p: Seq<u8>| !g.prefix.touches(p) by {}
    let kids = kid_paths(path, h.nodes[path]);
    assert(kid_paths(path, g.nodes[path]) == kids);
    assert((g.source)(path) == (h.source)(path));
    if h.opens(path) {
        assert(headed(h.encoded(path).rlp));
        if rlp_hash(h.encoded(path).rlp) is Some {
            lemma_hash_again(h.encoded(path).rlp);
        }
        if g.opens(path) {
            assert(h.kids(path) == kids && g.kids(path) == kids);
            assert forall|i: int| 0 <= i < kids.len() implies g.encoded_kids(path)[i].rlp
                == h.encoded_kids(path)[i].rlp by {
                assert(deeper(path, h.kids(path)[i]));
                assert(h.visits(kids[i], kids[i]));
                lemma_visits_step(h, path, i, kids[i]);
                lemma_visits_transitive(h, root, path, kids[i]);
                lemma_encoded_again(h, g, root, kids[i]);
            }
            assert(kid_rlps(g.encoded_kids(path)) =~= kid_rlps(h.encoded_kids(path)));
        }
    }
}

/// Hashing again goes to no node that hashing did not go to.
proof fn lemma_visits_again(h: Hashing, g: Hashing, root: Seq<u8>, from: Seq<u8>, to: Seq<u8>)
    requires
        h.hashable(root),
        h.headed_from(root),
        h.visits(root, from),
        g.prefix == PrefixModel::none(),
        g.nodes == h.hashed_nodes(root),
        forall|p: Seq<u8>| g.nodes.contains_key(p) ==> #[trigger] (g.source)(p) == (h.source)(p),
        g.visits(from, to),
    ensures
        h.visits(root, to),
    decreases MAX_PATH_LEN - from.len(),
{
    if from != to {
        let i = choose|i: int|
            0 <= i < g.kids(from).len() && deeper(from, #[trigger] g.kids(from)[i]) && g.visits(
                g.kids(from)[i],
                to,
            );
        lemma_encoded_again(h, g, root, from);
        let kid = g.kids(from)[i];
        assert(h.kids(from)[i] == kid);
        assert(h.visits(kid, kid));
        lemma_visits_step(h, from, i, kid);
        lemma_visits_transitive(h, root, from, kid);
        lemma_visits_again(h, g, root, kid, to);
    }
}

/// Once the root hash was computed, no lower subtrie has changed, and hashing starts from the nodes
/// that were hashed.
proof fn lemma_rooted_hashing(t: TrieModel)
    requires
        t.placed(),
    ensures
        ({
            let lower = t.lower_hashed();
            let h = lower.hashing(t.upper_keys());
            let r = t.rooted();
            let g = r.hashing(PrefixModel::none());
            &&& r.prefix.frozen() == PrefixModel::none()
            &&& r.upper_keys() == PrefixModel::none()
            &&& r.lower_hashed() == r
            &&& r.lower_hashable()
            &&& g.nodes == h.hashed_nodes(Seq::empty())
            &&& forall|p: Seq<u8>|
                g.nodes.contains_key(p) ==> #[trigger] (g.source)(p) == (h.source)(p)
        }),
{
    let lower = t.lower_hashed();
    let h = lower.hashing(t.upper_keys());
    let r = t.rooted();
    let g = r.hashing(PrefixModel::none());
    assert forall|i: int| !#[trigger] r.changed(PrefixModel::none(), i) by {}
    assert(r.remaining(PrefixModel::none()).keys =~= Set::empty());
    assert(PrefixModel::none().heads() =~= Set::empty());
    assert(r.upper_keys().keys =~= Set::empty());
    assert(r.lower_hashed().lower =~= r.lower);
    assert(lower.placed());
    assert forall|p: Seq<u8>| g.nodes.contains_key(p) == h.nodes.contains_key(p) && (
    g.nodes.contains_key(p) ==> g.nodes[p] == h.hashed_node(Seq::empty(), p)) by {
        assert(r.has_node(p) == lower.has_node(p));
    }
    assert(g.nodes =~= h.hashed_nodes(Seq::empty()));
    assert forall|p: Seq<u8>| g.nodes.contains_key(p) implies #[trigger] (g.source)(p) == (h.source)(
        p,
    ) by {
        assert(r.source_at(p) == lower.source_at(p));
    }
}

/// The root hash can be computed again once it was computed, and is the same.
pub proof fn lemma_root_again(t: TrieModel)
    requires
        t.placed(),
        t.lower_hashed().upper_hashable(t.upper_keys()),
        t.lower_hashed().hashing(t.upper_keys()).headed_from(Seq::empty()),
    ensures
        t.rooted().root_ready(),
        t.rooted().root_hash() == t.root_hash(),
{
    let lower = t.lower_hashed();
    let h = lower.hashing(t.upper_keys());
    let r = t.rooted();
    let g = r.hashing(PrefixModel::none());
    let root = Seq::<u8>::empty();
    lemma_rooted_hashing(t);
    assert(h.visits(root, root));
    lemma_encoded_again(h, g, root, root);
    assert forall|path: Seq<u8>| #[trigger] g.visits(root, path) implies g.node_ok(path) by {
        lemma_visits_again(h, g, root, root, path);
        lemma_encoded_again(h, g, root, path);
    }
}

}
