//! What computing the root hash records of branches.

use crate::hash_run::{
    lemma_kid_paths, lemma_visits_below, lemma_visits_step, lemma_visits_transitive,
};
use crate::hashing::{compact, deeper, kid_paths, was_stored, Hashing};
use crate::order::{lemma_prefix_pointwise, lemma_prefix_transitive};
use crate::outside::MAX_PATH_LEN;
use crate::path::{is_upper, lower_index_of, lower_path};
use crate::prefix_set::lemma_heads;
use crate::root::{in_lower_run, lower_run};
use crate::soundness::{lemma_one_entry, lemma_root_entry};
use crate::trie::TrieModel;
use crate::updates::UpdatesModel;
use vstd::prelude::*;

verus! {

/// Whether updates are others after what became of the branch at a path was recorded: it is written if
/// it is stored in the database, with its masks and hashes, and otherwise is not written, and dropped
/// if it was stored.
pub open spec fn noted(h: Hashing, before: UpdatesModel, after: UpdatesModel, p: Seq<u8>) -> bool {
    &&& after.updated.contains_key(p) == h.stores(p)
    &&& h.stores(p) ==> after.updated[p] == compact(
        (h.source)(p),
        p,
        h.nodes[p]->Branch_mask,
        h.encoded_kids(p),
    )
    &&& after.removed.contains(p) == (before.removed.contains(p) || (!h.stores(p) && was_stored(
        (h.source)(p),
        p,
    )))
}

impl TrieModel {
    /// What hashing starts from that encodes the node at a path, when the root hash is computed.
    pub open spec fn run_at(self, p: Seq<u8>) -> Hashing {
        let i = lower_index_of(p);
        if in_lower_run(self, i, p) {
            lower_run(self, i)
        } else {
            self.lower_hashed().hashing(self.upper_keys())
        }
    }

    /// The updates of a trie among which computing the root hash of this one records the branch at a
    /// path: those of its lower subtrie, if that is hashed on its own, or of the upper one.
    pub open spec fn updates_at(self, other: TrieModel, p: Seq<u8>) -> Option<UpdatesModel> {
        let i = lower_index_of(p);
        if in_lower_run(self, i, p) {
            other.lower[i]->0.updates
        } else {
            other.upper.updates
        }
    }

    /// Whether computing the root hash goes through the branch at a path, below the root, and counts
    /// it as changed, while updates are recorded.
    pub open spec fn root_records(self, p: Seq<u8>) -> bool {
        &&& p.len() > 0
        &&& self.has_node(p)
        &&& self.node(p) is Branch
        &&& self.prefix.frozen().touches(p)
        &&& self.updates_at(self, p) is Some
        &&& in_lower_run(self, lower_index_of(p), p) || (is_upper(p) && self.root_visits(p))
    }
}

/// The keys that count as changed once the changed lower subtries have been hashed touch the same nodes
/// of the upper subtrie as before.
pub proof fn lemma_upper_touched(t: TrieModel, p: Seq<u8>)
    requires
        is_upper(p),
    ensures
        t.upper_keys().touches(p) == t.prefix.frozen().touches(p),
{
    let prefix = t.prefix.frozen();
    lemma_heads(prefix, p);
    if !prefix.all {
        if t.upper_keys().touches(p) {
            let key = choose|key: Seq<u8>| #[trigger]
                t.upper_keys().keys.contains(key) && p.is_prefix_of(key);
            if !prefix.keys.contains(key) {
                assert(prefix.heads().contains(key));
            }
        }
        if prefix.touches(p) {
            let head = choose|head: Seq<u8>| #[trigger]
                prefix.heads().contains(head) && p.is_prefix_of(head);
            assert(t.upper_keys().keys.contains(head));
        }
    }
}

/// What became of a branch is recorded.
pub proof fn lemma_recorded(t: TrieModel, p: Seq<u8>)
    requires
        t.placed(),
        t.root_records(p),
    ensures
        t.updates_at(t.rooted(), p) is Some,
        noted(t.run_at(p), t.updates_at(t, p)->0, t.updates_at(t.rooted(), p)->0, p),
{
    let i = lower_index_of(p);
    let lower = t.lower_hashed();
    let r = t.rooted();
    if in_lower_run(t, i, p) {
        let g = lower_run(t, i);
        assert(r.lower[i]->0.updates == lower.lower[i]->0.updates);
        lemma_run_touched(t, p);
        assert(g.opens(p));
        assert(g.recorded(t.lower_root(i), p));
    } else {
        let h = lower.hashing(t.upper_keys());
        lemma_upper_touched(t, p);
        assert(lower.has_node(p));
        assert(h.nodes[p] == t.node(p));
        assert(h.opens(p));
        assert(h.recorded(Seq::empty(), p));
    }
}

/// The keys of a changed lower subtrie touch the same nodes of it as all changed keys.
pub proof fn lemma_run_touched(t: TrieModel, p: Seq<u8>)
    requires
        in_lower_run(t, lower_index_of(p), p),
        t.prefix.frozen().touches(p),
    ensures
        lower_run(t, lower_index_of(p)).prefix.touches(p),
{
    let i = lower_index_of(p);
    let g = lower_run(t, i);
    let prefix = t.prefix.frozen();
    if !prefix.all {
        let key = choose|key: Seq<u8>| #[trigger] prefix.keys.contains(key) && p.is_prefix_of(key);
        lemma_visits_below(g, t.lower_root(i), p);
        lemma_prefix_transitive(t.lower_root(i), p, key);
        assert(g.prefix.keys.contains(key));
    }
}

/// In a sound trie, computing the root hash goes to all nodes of the upper subtrie that count as changed.
pub proof fn lemma_touched_visit(t: TrieModel, p: Seq<u8>)
    requires
        t.sound(),
        is_upper(p),
        t.has_node(p),
        t.prefix.frozen().touches(p),
    ensures
        t.root_visits(p),
{
    let root = Seq::<u8>::empty();
    let h = t.lower_hashed().hashing(t.upper_keys());
    assert(h.visits(root, root));
    if p.len() > 0 {
        assert(t.parented(p));
        let a = choose|a: Seq<u8>| #[trigger]
            t.has_node(a) && a.len() < p.len() && kid_paths(a, t.node(a)).contains(p);
        let k = kid_paths(a, t.node(a)).index_of(p);
        assert(a =~= root);
        assert(t.prefix.frozen().touches(root)) by {
            if !t.prefix.frozen().all {
                let key = choose|key: Seq<u8>| #[trigger]
                    t.prefix.frozen().keys.contains(key) && p.is_prefix_of(key);
                lemma_prefix_pointwise(root, key);
            }
        }
        lemma_upper_touched(t, root);
        assert(t.lower_hashed().has_node(root));
        assert(h.nodes[root] == t.node(root));
        assert(h.opens(root));
        assert(h.kids(root)[k] == p);
        assert(deeper(root, p));
        assert(h.visits(p, p));
        lemma_visits_step(h, root, k, p);
    } else {
        assert(p =~= root);
    }
}

/// Whether nothing that is recorded of a path has changed.
pub open spec fn same_record(
    before: Option<UpdatesModel>,
    after: Option<UpdatesModel>,
    p: Seq<u8>,
) -> bool {
    match before {
        Some(a) => {
            &&& after is Some
            &&& after->0.updated.contains_key(p) == a.updated.contains_key(p)
            &&& a.updated.contains_key(p) ==> after->0.updated[p] == a.updated[p]
            &&& after->0.removed.contains(p) == a.removed.contains(p)
        },
        None => after is None,
    }
}

/// Nothing is recorded of a path that does not count as changed.
pub proof fn lemma_not_recorded(t: TrieModel, p: Seq<u8>)
    requires
        t.placed(),
        !t.prefix.frozen().touches(p),
    ensures
        same_record(t.upper.updates, t.rooted().upper.updates, p),
        forall|i: int|
            0 <= i < t.lower.len() && (#[trigger] t.lower[i]) is Some ==> t.rooted().lower[i] is Some
                && same_record(t.lower[i]->0.updates, t.rooted().lower[i]->0.updates, p),
{
    let prefix = t.prefix.frozen();
    let lower = t.lower_hashed();
    let h = lower.hashing(t.upper_keys());
    assert(!t.upper_keys().touches(p)) by {
        if is_upper(p) {
            lemma_upper_touched(t, p);
        } else if t.upper_keys().touches(p) {
            lemma_heads(prefix, p);
            let key = choose|key: Seq<u8>| #[trigger]
                t.upper_keys().keys.contains(key) && p.is_prefix_of(key);
            assert(prefix.keys.contains(key));
        }
    }
    assert(!h.recorded(Seq::empty(), p));
    assert forall|i: int| 0 <= i < t.lower.len() && (#[trigger] t.lower[i]) is Some implies t.rooted().lower[i] is Some
        && same_record(t.lower[i]->0.updates, t.rooted().lower[i]->0.updates, p) by {
        if t.rehashed(prefix, i) {
            let g = lower_run(t, i);
            assert(!g.prefix.touches(p)) by {
                if g.prefix.touches(p) {
                    let key = choose|key: Seq<u8>| #[trigger]
                        g.prefix.keys.contains(key) && p.is_prefix_of(key);
                    assert(prefix.keys.contains(key));
                }
            }
            assert(!g.recorded(t.lower_root(i), p));
        }
    }
}

/// In a sound trie, hashing a changed lower subtrie goes to all its nodes that count as changed.
pub proof fn lemma_touched_run(t: TrieModel, p: Seq<u8>)
    requires
        t.sound(),
        p.len() <= MAX_PATH_LEN,
        !is_upper(p),
        t.has_node(p),
        t.prefix.frozen().touches(p),
    ensures
        in_lower_run(t, lower_index_of(p), p),
    decreases p.len(),
{
    let i = lower_index_of(p);
    let prefix = t.prefix.frozen();
    let s = t.lower[i]->0;
    let e = t.lower_root(i);
    let g = lower_run(t, i);
    assert(s.anchored());
    assert(s.nodes.contains_key(p));
    assert(e.is_prefix_of(p) && s.nodes.contains_key(e));
    assert(prefix.touches(e)) by {
        if !prefix.all {
            let key = choose|key: Seq<u8>| #[trigger] prefix.keys.contains(key) && p.is_prefix_of(key);
            lemma_prefix_transitive(e, p, key);
        }
    }
    assert(t.changed(prefix, i));
    assert(t.rehashed(prefix, i));
    assert(g.visits(e, e));
    if p != e {
        assert(t.parented(p));
        let a = choose|a: Seq<u8>| #[trigger]
            t.has_node(a) && a.len() < p.len() && kid_paths(a, t.node(a)).contains(p);
        let k = kid_paths(a, t.node(a)).index_of(p);
        lemma_kid_paths(a, t.node(a));
        assert(a.is_prefix_of(kid_paths(a, t.node(a))[k]));
        if is_upper(a) {
            let b = lemma_root_entry(t, i);
            lemma_prefix_pointwise(e, p);
            lemma_prefix_pointwise(lower_path(i), e);
            assert(e[0] == p[0] && e[1] == p[1]);
            lemma_one_entry(t, a, b, p, e);
        } else {
            lemma_prefix_pointwise(a, p);
            assert(a[0] == p[0] && a[1] == p[1]);
            assert(prefix.touches(a)) by {
                if !prefix.all {
                    let key = choose|key: Seq<u8>| #[trigger]
                        prefix.keys.contains(key) && p.is_prefix_of(key);
                    lemma_prefix_transitive(a, p, key);
                }
            }
            lemma_touched_run(t, a);
            assert(g.prefix.touches(a)) by {
                if !prefix.all {
                    let key = choose|key: Seq<u8>| #[trigger]
                        prefix.keys.contains(key) && a.is_prefix_of(key);
                    lemma_visits_below(g, e, a);
                    lemma_prefix_transitive(e, a, key);
                    assert(g.prefix.keys.contains(key));
                }
            }
            assert(g.opens(a));
            assert(g.kids(a)[k] == p);
            assert(deeper(a, p));
            assert(g.visits(p, p));
            lemma_visits_step(g, a, k, p);
            lemma_visits_transitive(g, e, a, p);
        }
    }
}

}
