//! Why the nodes that changed keys touch are encoded anew.

use crate::hash_run::{lemma_kid_paths, lemma_visits_below};
use crate::hashing::kid_paths;
use crate::model::NodeModel;
use crate::order::{lemma_prefix_pointwise, lemma_prefix_transitive};
use crate::outside::MAX_PATH_LEN;
use crate::path::{is_upper, lower_index_of};
use crate::prefix_set::PrefixModel;
use crate::recorded::{lemma_touched_run, lemma_touched_visit, lemma_upper_touched};
use crate::root::{in_lower_run, lower_run};
use crate::soundness::lemma_root_entry;
use crate::trie::TrieModel;
use vstd::prelude::*;

verus! {

/// Whether a path counts as changed: some changed key starts with it.
pub open spec fn key_below(prefix: PrefixModel, path: Seq<u8>) -> bool {
    prefix.all || exists|key: Seq<u8>| #[trigger]
        prefix.keys.contains(key) && path.is_prefix_of(key)
}

/// Whether a changed key touches the node at a path: a leaf by its full path, any other node by its
/// own.
pub open spec fn key_touches(prefix: PrefixModel, path: Seq<u8>, node: NodeModel) -> bool {
    match node {
        NodeModel::Leaf { key, .. } => key_below(prefix, path + key),
        _ => key_below(prefix, path),
    }
}

impl TrieModel {
    /// Whether a changed key touches the node at a path.
    pub open spec fn touched(self, path: Seq<u8>) -> bool {
        key_touches(self.prefix, path, self.node(path))
    }

    /// Every hash that is kept is right, unless a changed key touches its node.
    pub open spec fn right_but_touched(self) -> bool {
        forall|path: Seq<u8>| #[trigger]
            self.has_node(path) ==> self.kept_right(path) || self.touched(path)
    }
}

/// A key that touches a leaf touches its path.
pub proof fn lemma_touched_path(t: TrieModel, path: Seq<u8>)
    requires
        t.touched(path),
    ensures
        t.prefix.frozen().touches(path),
{
    if !t.prefix.all {
        if let NodeModel::Leaf { key, .. } = t.node(path) {
            let full = path + key;
            let k = choose|k: Seq<u8>| #[trigger]
                t.prefix.keys.contains(k) && full.is_prefix_of(k);
            lemma_prefix_pointwise(path, full);
            lemma_prefix_transitive(path, full, k);
            assert(t.prefix.frozen().keys.contains(k));
        } else {
            let k = choose|k: Seq<u8>| #[trigger]
                t.prefix.keys.contains(k) && path.is_prefix_of(k);
            assert(t.prefix.frozen().keys.contains(k));
        }
    }
}

/// No lower subtrie that has a root lies below a leaf of the upper subtrie.
proof fn lemma_leaf_above(t: TrieModel, path: Seq<u8>, full: Seq<u8>, k: Seq<u8>)
    requires
        t.sound(),
        is_upper(path),
        t.has_node(path),
        t.node(path) is Leaf,
        path.is_prefix_of(full),
        full.is_prefix_of(k),
    ensures
        !t.in_rehashed(t.prefix.frozen(), k),
{
    let prefix = t.prefix.frozen();
    let root = Seq::<u8>::empty();
    if t.in_rehashed(prefix, k) {
        let i = choose|i: int| #[trigger]
            t.rehashed(prefix, i) && t.lower_root(i).is_prefix_of(k);
        let e = t.lower_root(i);
        let a = lemma_root_entry(t, i);
        let kids = kid_paths(a, t.node(a));
        let j = kids.index_of(e);
        lemma_kid_paths(a, t.node(a));
        assert(a.is_prefix_of(kids[j]));
        lemma_prefix_transitive(a, e, k);
        lemma_prefix_transitive(path, full, k);
        lemma_prefix_pointwise(a, k);
        lemma_prefix_pointwise(path, k);
        if a.len() == path.len() {
            assert(a =~= path);
        } else if path.len() == 0 {
            assert(path =~= root);
            assert(t.parented(a));
            let b = choose|b: Seq<u8>| #[trigger]
                t.has_node(b) && b.len() < a.len() && kid_paths(b, t.node(b)).contains(a);
            assert(b =~= root);
        } else {
            assert(a =~= root);
            assert(t.parented(path));
            let b = choose|b: Seq<u8>| #[trigger]
                t.has_node(b) && b.len() < path.len() && kid_paths(b, t.node(b)).contains(path);
            assert(b =~= root);
            let m = kids.index_of(path);
            assert(kids[m] == path && kids[j] == e);
        }
    }
}

/// In a sound trie a node that a changed key touches is encoded anew before its hash is used, if it has
/// one.
pub proof fn lemma_touched_due(t: TrieModel, path: Seq<u8>)
    requires
        t.sound(),
        path.len() <= MAX_PATH_LEN,
        t.has_node(path),
        t.node(path) !is Empty,
        t.node(path) !is Hash,
        t.touched(path),
    ensures
        t.due(path),
        is_upper(path) ==> t.root_visits(path) && t.lower_hashed().hashing(t.upper_keys()).opens(path),
        !is_upper(path) ==> in_lower_run(t, lower_index_of(path), path) && lower_run(
            t,
            lower_index_of(path),
        ).opens(path),
{
    let prefix = t.prefix.frozen();
    let at = match t.node(path) {
        NodeModel::Leaf { key, .. } => path + key,
        _ => path,
    };
    lemma_touched_path(t, path);
    lemma_prefix_pointwise(path, at);
    if is_upper(path) {
        lemma_touched_visit(t, path);
        assert(t.upper_keys().touches(at)) by {
            if is_upper(at) {
                if !prefix.all {
                    let k = choose|k: Seq<u8>| #[trigger]
                        t.prefix.keys.contains(k) && at.is_prefix_of(k);
                    assert(prefix.keys.contains(k));
                }
                lemma_upper_touched(t, at);
            } else if !prefix.all {
                let k = choose|k: Seq<u8>| #[trigger]
                    t.prefix.keys.contains(k) && at.is_prefix_of(k);
                lemma_leaf_above(t, path, at, k);
                assert(t.upper_keys().keys.contains(k));
            }
        }
        let lower = t.lower_hashed();
        assert(lower.has_node(path));
        assert(lower.node(path) == t.node(path));
    } else {
        let i = lower_index_of(path);
        let g = lower_run(t, i);
        lemma_touched_run(t, path);
        lemma_visits_below(g, t.lower_root(i), path);
        assert(g.prefix.touches(at)) by {
            if !prefix.all {
                let k = choose|k: Seq<u8>| #[trigger]
                    t.prefix.keys.contains(k) && at.is_prefix_of(k);
                lemma_prefix_transitive(path, at, k);
                lemma_prefix_transitive(t.lower_root(i), path, k);
                assert(g.prefix.keys.contains(k));
            }
        }
    }
}

/// If every hash that is kept is right, unless a changed key touches its node, then it is right or its
/// node counts as changed.
pub proof fn lemma_right_but_touched(t: TrieModel)
    requires
        t.whole(),
        t.right_but_touched(),
    ensures
        t.hashes_right(),
{
    assert forall|path: Seq<u8>| #[trigger] t.has_node(path) implies t.kept_right(path) || t.due(
        path,
    ) by {
        if !t.kept_right(path) {
            assert(t.touched(path));
            assert(t.tidy(path));
            lemma_touched_due(t, path);
        }
    }
}

}
