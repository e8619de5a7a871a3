//! Looking up leaves, and what removing one leaf means for looking up all of them.

use crate::error::ErrorModel;
use crate::hash_run::lemma_nibbles_below;
use crate::model::{child_nibbles, NodeModel};
use crate::order::{lemma_prefix_pointwise, lemma_prefix_transitive};
use crate::outside::decoded_node;
use crate::path::{is_path, is_upper, lower_index_of, NUM_LOWER_SUBTRIES};
use crate::provider::RevealedModel;
use crate::removal::{
    merged_branch, merged_ext, next_to_leaf, takes_child, NextModel, Removed, WalkEnd,
};
use crate::remove::{
    collapsible, lemma_drop_node, lemma_moved, lemma_put_node, lemma_recorded_gone,
    lemma_revealed_collapsible, lemma_unlinked, lemma_unlinked_fits,
};
use crate::revealed::lemma_reveal_only;
use crate::trie::TrieModel;
use vstd::prelude::*;

verus! {

/// What looking up a leaf gives.
#[verifier::ext_equal]
pub enum Lookup {
    /// There is no such leaf.
    Missing,
    /// A node on the way is not revealed.
    Unknown,
    /// The leaf is at a path.
    At(Seq<u8>),
}

impl TrieModel {
    /// Looks up the leaf with a full path, from the node at a path on.
    pub open spec fn find(self, full: Seq<u8>, at: Seq<u8>) -> Lookup
        decreases full.len() - at.len(),
    {
        if !self.has_node(at) {
            Lookup::Unknown
        } else {
            match next_to_leaf(at, self.node(at), full) {
                Err(_) => Lookup::Unknown,
                Ok(NextModel::NotFound) => Lookup::Missing,
                Ok(NextModel::Found) => Lookup::At(at),
                Ok(NextModel::ContinueFrom(next)) => {
                    if at.len() < next.len() <= full.len() {
                        self.find(full, next)
                    } else {
                        Lookup::Unknown
                    }
                },
            }
        }
    }

    /// Looks up the leaf with a full path.
    pub open spec fn lookup(self, full: Seq<u8>) -> Lookup {
        self.find(full, Seq::empty())
    }

    /// Whether looking up the leaf with a full path, from the node at a path on, goes through the
    /// node at another path.
    pub open spec fn passes(self, full: Seq<u8>, at: Seq<u8>, through: Seq<u8>) -> bool
        decreases full.len() - at.len(),
    {
        self.has_node(at) && (at == through || (next_to_leaf(at, self.node(at), full) matches Ok(
            NextModel::ContinueFrom(next),
        ) && at.len() < next.len() <= full.len() && self.passes(full, next, through)))
    }

    /// The value that is kept for a full path by the subtrie that the node at a path belongs to.
    pub open spec fn value_at(self, path: Seq<u8>, full: Seq<u8>) -> Option<Seq<u8>> {
        let values = self.source_at(path).values;
        if values.contains_key(full) {
            Some(values[full])
        } else {
            None
        }
    }

    /// No extension has an empty key.
    pub open spec fn extensions_lead_down(self) -> bool {
        forall|path: Seq<u8>| #[trigger]
            self.has_node(path) ==> (self.node(path) matches NodeModel::Extension { key, .. }
                ==> key.len() > 0)
    }
}

/// Whether two tries have the same nodes, up to hashes that the second has dropped, and the same
/// values.
pub open spec fn same_shape(a: TrieModel, b: TrieModel) -> bool {
    &&& a.lower.len() == b.lower.len()
    &&& forall|p: Seq<u8>| #[trigger] a.has_node(p) == b.has_node(p)
    &&& forall|p: Seq<u8>| #[trigger]
        a.has_node(p) ==> (b.node(p) == a.node(p) || b.node(p) == a.node(p).with_hash(None))
            && b.source_at(p) == a.source_at(p)
}

/// Having the same shape is transitive.
proof fn lemma_same_shape_transitive(a: TrieModel, b: TrieModel, c: TrieModel)
    requires
        same_shape(a, b),
        same_shape(b, c),
    ensures
        same_shape(a, c),
{
    assert forall|p: Seq<u8>| #[trigger] a.has_node(p) == c.has_node(p) by {
        assert(a.has_node(p) == b.has_node(p));
        assert(b.has_node(p) == c.has_node(p));
    }
    assert forall|p: Seq<u8>| #[trigger] a.has_node(p) implies (c.node(p) == a.node(p) || c.node(p)
        == a.node(p).with_hash(None)) && c.source_at(p) == a.source_at(p) by {
        assert(b.has_node(p));
    }
}

/// Looking up does not depend on hashes.
pub proof fn lemma_find_same_shape(a: TrieModel, b: TrieModel, full: Seq<u8>, at: Seq<u8>)
    requires
        same_shape(a, b),
    ensures
        a.find(full, at) == b.find(full, at),
    decreases full.len() - at.len(),
{
    assert(a.has_node(at) == b.has_node(at));
    if a.has_node(at) {
        match next_to_leaf(at, a.node(at), full) {
            Ok(NextModel::ContinueFrom(next)) => {
                if at.len() < next.len() <= full.len() {
                    lemma_find_same_shape(a, b, full, next);
                }
            },
            _ => {},
        }
    }
}

/// What a lookup goes through does not depend on hashes.
pub proof fn lemma_passes_same_shape(
    a: TrieModel,
    b: TrieModel,
    full: Seq<u8>,
    at: Seq<u8>,
    through: Seq<u8>,
)
    requires
        same_shape(a, b),
    ensures
        a.passes(full, at, through) == b.passes(full, at, through),
    decreases full.len() - at.len(),
{
    assert(a.has_node(at) == b.has_node(at));
    if a.has_node(at) {
        match next_to_leaf(at, a.node(at), full) {
            Ok(NextModel::ContinueFrom(next)) => {
                if at.len() < next.len() <= full.len() {
                    lemma_passes_same_shape(a, b, full, next, through);
                }
            },
            _ => {},
        }
    }
}

/// A lookup goes down: what it goes through is below where it starts, and above the leaf.
pub proof fn lemma_passes_below(t: TrieModel, full: Seq<u8>, at: Seq<u8>, through: Seq<u8>)
    requires
        t.passes(full, at, through),
        at.is_prefix_of(full),
    ensures
        at.is_prefix_of(through),
        through.is_prefix_of(full),
        t.has_node(through),
    decreases full.len() - at.len(),
{
    lemma_prefix_pointwise(at, at);
    if at != through {
        let next = next_to_leaf(at, t.node(at), full)->Ok_0->ContinueFrom_0;
        lemma_prefix_pointwise(at, full);
        lemma_prefix_pointwise(next, full);
        lemma_prefix_pointwise(at, next);
        lemma_passes_below(t, full, next, through);
        lemma_prefix_transitive(at, next, through);
    }
}

/// Lookups of two leaves go the same way as long as their full paths are the same.
pub proof fn lemma_passes_find(
    t: TrieModel,
    full: Seq<u8>,
    at: Seq<u8>,
    through: Seq<u8>,
    other: Seq<u8>,
)
    requires
        t.passes(full, at, through),
        at.is_prefix_of(full),
        through.is_prefix_of(other),
    ensures
        t.find(other, at) == t.find(other, through),
    decreases full.len() - at.len(),
{
    if at != through {
        let next = next_to_leaf(at, t.node(at), full)->Ok_0->ContinueFrom_0;
        lemma_prefix_pointwise(at, full);
        lemma_prefix_pointwise(next, full);
        lemma_passes_below(t, full, next, through);
        lemma_prefix_transitive(next, through, other);
        lemma_prefix_pointwise(next, other);
        assert(next_to_leaf(at, t.node(at), other) == next_to_leaf(at, t.node(at), full));
        lemma_passes_find(t, full, next, through, other);
    }
}

/// Whether two tries have the same nodes on the way to a leaf, from a path on.
pub open spec fn agree(a: TrieModel, b: TrieModel, full: Seq<u8>, at: Seq<u8>) -> bool {
    forall|p: Seq<u8>|
        at.is_prefix_of(p) && p.is_prefix_of(full) ==> #[trigger] a.has_node(p) == b.has_node(p) && (
        a.has_node(p) ==> a.node(p) == b.node(p))
}

/// Looking up a leaf depends only on the nodes on the way to it.
proof fn lemma_find_frame(a: TrieModel, b: TrieModel, full: Seq<u8>, at: Seq<u8>)
    requires
        agree(a, b, full, at),
        at.is_prefix_of(full),
    ensures
        a.find(full, at) == b.find(full, at),
    decreases full.len() - at.len(),
{
    lemma_prefix_pointwise(at, at);
    assert(a.has_node(at) == b.has_node(at));
    if a.has_node(at) {
        match next_to_leaf(at, a.node(at), full) {
            Ok(NextModel::ContinueFrom(next)) => {
                if at.len() < next.len() <= full.len() {
                    lemma_prefix_pointwise(at, full);
                    lemma_prefix_pointwise(next, full);
                    lemma_prefix_pointwise(at, next);
                    assert forall|p: Seq<u8>|
                        next.is_prefix_of(p) && p.is_prefix_of(full) implies #[trigger] a.has_node(
                        p,
                    ) == b.has_node(p) && (a.has_node(p) ==> a.node(p) == b.node(p)) by {
                        lemma_prefix_transitive(at, next, p);
                    }
                    lemma_find_frame(a, b, full, next);
                }
            },
            _ => {},
        }
    }
}

/// Dropping the hash of a node keeps the shape of the trie.
pub proof fn lemma_cleared_shape(t: TrieModel, at: Seq<u8>)
    requires
        t.has_node(at),
    ensures
        same_shape(t, t.put_node(at, t.node(at).with_hash(None))),
{
    let node = t.node(at).with_hash(None);
    let cleared = t.put_node(at, node);
    assert forall|p: Seq<u8>| #[trigger] t.has_node(p) == cleared.has_node(p) by {
        lemma_put_node(t, at, node, p);
    }
    assert forall|p: Seq<u8>| #[trigger] t.has_node(p) implies (cleared.node(p) == t.node(p)
        || cleared.node(p) == t.node(p).with_hash(None)) && cleared.source_at(p) == t.source_at(
        p,
    ) by {
        lemma_put_node(t, at, node, p);
    }
}

/// Where a walk ends, and what it went through.
pub proof fn lemma_walk(
    t: TrieModel,
    full: Seq<u8>,
    at: Seq<u8>,
    branch: Option<Seq<u8>>,
    ext: Option<Seq<u8>>,
)
    requires
        t.walk_ok(full, at),
        at.is_prefix_of(full),
    ensures
        ({
            let walk = t.walk(full, at, branch, ext);
            &&& same_shape(t, walk.trie)
            &&& match walk.end {
                WalkEnd::Missing => t.find(full, at) == Lookup::Missing,
                WalkEnd::Blocked(_) => t.find(full, at) == Lookup::Unknown,
                WalkEnd::Leaf { path, branch: last, ext: leads } => {
                    &&& t.find(full, at) == Lookup::At(path)
                    &&& t.passes(full, at, path)
                    &&& t.node(path) is Leaf
                    &&& path + t.node(path)->Leaf_key == full
                    &&& last == branch || (last is Some && t.passes(full, at, last->0)
                        && t.node(last->0) is Branch && last->0.len() < path.len())
                    &&& leads == ext || leads is None || (t.passes(full, at, leads->0)
                        && t.node(leads->0) is Extension && leads->0.len() < path.len())
                    &&& path != at ==> (last is Some && last->0.len() < full.len() && path
                        == last->0.push(full[last->0.len() as int])) || (leads is Some
                        && t.node(leads->0) is Extension && path == leads->0 + t.node(
                        leads->0,
                    )->Extension_key)
                },
            }
        }),
    decreases full.len() - at.len(),
{
    let node = t.node(at);
    match next_to_leaf(at, node, full) {
        Ok(NextModel::ContinueFrom(next)) => {
            let cleared = t.put_node(at, node.with_hash(None));
            lemma_cleared_shape(t, at);
            lemma_walk_ok_shape(t, cleared, full, next);
            lemma_prefix_pointwise(at, full);
            lemma_prefix_pointwise(next, full);
            let (b, e) = if node is Branch {
                (
                    Some(at),
                    if branch is Some && ext is Some && branch->0.len() > ext->0.len() {
                        None
                    } else {
                        ext
                    },
                )
            } else {
                (branch, Some(at))
            };
            lemma_walk(cleared, full, next, b, e);
            let walk = cleared.walk(full, next, b, e);
            lemma_same_shape_transitive(t, cleared, walk.trie);
            lemma_find_same_shape(t, cleared, full, next);
            match walk.end {
                WalkEnd::Leaf { path, branch: last, ext: leads } => {
                    lemma_passes_same_shape(t, cleared, full, next, path);
                    lemma_passes_below(cleared, full, next, path);
                    lemma_prefix_pointwise(next, path);
                    assert(t.has_node(path) == cleared.has_node(path));
                    if last is Some {
                        lemma_passes_same_shape(t, cleared, full, next, last->0);
                        if cleared.passes(full, next, last->0) {
                            lemma_passes_below(cleared, full, next, last->0);
                            assert(t.has_node(last->0) == cleared.has_node(last->0));
                        }
                    }
                    if leads is Some {
                        lemma_passes_same_shape(t, cleared, full, next, leads->0);
                        if cleared.passes(full, next, leads->0) {
                            lemma_passes_below(cleared, full, next, leads->0);
                            assert(t.has_node(leads->0) == cleared.has_node(leads->0));
                        }
                    }
                    assert(t.passes(full, at, at));
                },
                _ => {},
            }
        },
        _ => {
            assert(same_shape(t, t));
        },
    }
}

/// That a walk finds its nodes does not depend on hashes.
pub proof fn lemma_walk_ok_shape(a: TrieModel, b: TrieModel, full: Seq<u8>, at: Seq<u8>)
    requires
        a.walk_ok(full, at),
        same_shape(a, b),
    ensures
        b.walk_ok(full, at),
    decreases full.len() - at.len(),
{
    assert(a.has_node(at) == b.has_node(at));
    match next_to_leaf(at, a.node(at), full) {
        Ok(NextModel::ContinueFrom(next)) => {
            lemma_walk_ok_shape(a, b, full, next);
        },
        _ => {},
    }
}

// Values.

/// Whether the subtries keep the same value for a full path.
pub open spec fn same_value(a: TrieModel, b: TrieModel, full: Seq<u8>) -> bool {
    forall|p: Seq<u8>|
        is_upper(p) || (0 <= lower_index_of(p) < a.lower.len() && a.lower[lower_index_of(p)] is Some)
            ==> #[trigger] a.value_at(p, full) == b.value_at(p, full)
}

/// What a branch became that was merged with its only child: all other nodes stay, and so do all
/// values but that of a leaf which took the place of the branch.
pub proof fn lemma_merged_all(t: TrieModel, branch: Seq<u8>, child: Seq<u8>, ext: Option<Seq<u8>>)
    requires
        collapsible(t, branch, child, ext),
    ensures
        ({
            let m = t.merged(branch, child);
            let new = merged_branch(child.last(), t.node(child));
            &&& m.lower.len() == t.lower.len()
            &&& m.has_node(branch)
            &&& m.node(branch) == new
            &&& m.has_node(child) == !takes_child(t.node(child))
            &&& m.has_node(child) ==> m.node(child) == t.node(child)
            &&& forall|p: Seq<u8>|
                p != branch && p != child ==> #[trigger] m.has_node(p) == t.has_node(p) && (
                t.has_node(p) ==> m.node(p) == t.node(p))
            &&& forall|full: Seq<u8>|
                (t.node(child) is Leaf ==> full != child + t.node(child)->Leaf_key)
                    ==> #[trigger] same_value(t, m, full)
            &&& t.node(child) is Leaf ==> m.value_at(
                branch,
                child + t.node(child)->Leaf_key,
            ) == t.value_at(child, child + t.node(child)->Leaf_key)
        }),
{
    lemma_prefix_pointwise(branch, child);
    let node = t.node(child);
    let new = merged_branch(child.last(), node);
    assert(branch.push(child.last()) =~= child);
    if !is_upper(branch) {
        assert(branch[0] == child[0] && branch[1] == child[1]);
        assert(lower_index_of(branch) == lower_index_of(child));
    }
    let dropped = t.drop_node(child);
    let taken = if takes_child(node) {
        dropped.moved(branch, new, child)
    } else {
        t
    };
    let gone = taken.recorded_gone(branch);
    let m = t.merged(branch, child);
    assert forall|p: Seq<u8>| p != branch && p != child implies #[trigger] m.has_node(p)
        == t.has_node(p) && (t.has_node(p) ==> m.node(p) == t.node(p)) by {
        if takes_child(node) {
            lemma_drop_node(t, child, p);
            lemma_moved(dropped, branch, new, child, p);
        }
        lemma_recorded_gone(taken, branch, p);
        lemma_put_node(gone, branch, new, p);
    }
    if takes_child(node) {
        lemma_drop_node(t, child, branch);
        lemma_moved(dropped, branch, new, child, branch);
        lemma_moved(dropped, branch, new, child, child);
    }
    lemma_recorded_gone(taken, branch, branch);
    lemma_recorded_gone(taken, branch, child);
    lemma_put_node(gone, branch, new, branch);
    lemma_put_node(gone, branch, new, child);
    if let NodeModel::Leaf { key, .. } = node {
        assert(branch + (seq![child.last()] + key) =~= child + key);
    }
    assert forall|full: Seq<u8>|
        (t.node(child) is Leaf ==> full != child + t.node(child)->Leaf_key) implies #[trigger] same_value(
        t,
        m,
        full,
    ) by {
        assert forall|p: Seq<u8>|
            is_upper(p) || (0 <= lower_index_of(p) < t.lower.len() && t.lower[lower_index_of(
                p,
            )] is Some) implies #[trigger] t.value_at(p, full) == m.value_at(p, full) by {
            assert(t.value_at(p, full) == taken.value_at(p, full));
            assert(taken.value_at(p, full) == gone.value_at(p, full));
        }
    }
}

/// What an extension became that was merged with what the branch below it became.
pub proof fn lemma_ext_all(t: TrieModel, ext: Option<Seq<u8>>, branch: Seq<u8>)
    requires
        t.has_node(branch),
        t.node(branch) is Leaf || t.node(branch) is Extension,
        ext matches Some(above) ==> {
            &&& above.len() < branch.len()
            &&& t.has_node(above)
            &&& t.node(above) is Extension
            &&& above + t.node(above)->Extension_key == branch
        },
    ensures
        ({
            let m = t.ext_merged(ext, branch);
            &&& m.lower.len() == t.lower.len()
            &&& match ext {
                None => m == t,
                Some(above) => {
                    let new = merged_ext(t.node(above)->Extension_key, t.node(branch))->0;
                    &&& m.has_node(above)
                    &&& m.node(above) == new
                    &&& !m.has_node(branch)
                    &&& forall|p: Seq<u8>|
                        p != branch && p != above ==> #[trigger] m.has_node(p) == t.has_node(p) && (
                        t.has_node(p) ==> m.node(p) == t.node(p))
                    &&& forall|full: Seq<u8>|
                        (t.node(branch) is Leaf ==> full != branch + t.node(branch)->Leaf_key)
                            ==> #[trigger] same_value(t, m, full)
                    &&& t.node(branch) is Leaf && (is_upper(above) && !is_upper(branch)
                        ==> t.value_at(branch, branch + t.node(branch)->Leaf_key) is Some)
                        ==> m.value_at(above, branch + t.node(branch)->Leaf_key) == t.value_at(
                        branch,
                        branch + t.node(branch)->Leaf_key,
                    )
                },
            }
        }),
{
    if ext is Some {
        let above = ext->0;
        let key = t.node(above)->Extension_key;
        let new = merged_ext(key, t.node(branch))->0;
        let put = t.put_node(above, new);
        let dropped = put.drop_node(branch);
        let m = t.ext_merged(ext, branch);
        lemma_prefix_pointwise(above, branch);
        if !is_upper(above) {
            assert(above[0] == branch[0] && above[1] == branch[1]);
        }
        assert forall|p: Seq<u8>| p != branch && p != above implies #[trigger] m.has_node(p)
            == t.has_node(p) && (t.has_node(p) ==> m.node(p) == t.node(p)) by {
            lemma_put_node(t, above, new, p);
            lemma_drop_node(put, branch, p);
            lemma_moved(dropped, above, new, branch, p);
        }
        lemma_put_node(t, above, new, branch);
        lemma_drop_node(put, branch, above);
        lemma_moved(dropped, above, new, branch, above);
        lemma_moved(dropped, above, new, branch, branch);
        if let NodeModel::Leaf { key: rest, .. } = t.node(branch) {
            assert(above + (key + rest) =~= branch + rest);
        }
        assert forall|full: Seq<u8>|
            (t.node(branch) is Leaf ==> full != branch + t.node(branch)->Leaf_key) implies #[trigger] same_value(
            t,
            m,
            full,
        ) by {
            assert forall|p: Seq<u8>|
                is_upper(p) || (0 <= lower_index_of(p) < t.lower.len() && t.lower[lower_index_of(
                    p,
                )] is Some) implies #[trigger] t.value_at(p, full) == m.value_at(p, full) by {
                assert(t.value_at(p, full) == dropped.value_at(p, full));
            }
        }
    }
}

// Removing a leaf.

/// A leaf that is found is there.
pub proof fn lemma_find_at(t: TrieModel, full: Seq<u8>, at: Seq<u8>)
    requires
        t.find(full, at) is At,
        at.is_prefix_of(full),
    ensures
        t.has_node(t.find(full, at)->At_0),
        t.node(t.find(full, at)->At_0) is Leaf,
        t.find(full, at)->At_0 + t.node(t.find(full, at)->At_0)->Leaf_key == full,
        at.is_prefix_of(t.find(full, at)->At_0),
    decreases full.len() - at.len(),
{
    lemma_prefix_pointwise(at, at);
    match next_to_leaf(at, t.node(at), full) {
        Ok(NextModel::ContinueFrom(next)) => {
            lemma_prefix_pointwise(at, full);
            lemma_prefix_pointwise(next, full);
            lemma_prefix_pointwise(at, next);
            lemma_find_at(t, full, next);
            lemma_prefix_transitive(at, next, t.find(full, next)->At_0);
        },
        _ => {},
    }
}

/// Whether the leaf with a full path, at `path`, is a child of the branch at `branch`, and the
/// extension at `ext`, if there is one, leads to the branch.
pub open spec fn leaf_place(
    t: TrieModel,
    full: Seq<u8>,
    path: Seq<u8>,
    branch: Seq<u8>,
    ext: Option<Seq<u8>>,
) -> bool {
    &&& t.lower.len() == NUM_LOWER_SUBTRIES
    &&& is_path(full)
    &&& t.has_node(path)
    &&& t.node(path) is Leaf
    &&& path + t.node(path)->Leaf_key == full
    &&& branch.len() < full.len()
    &&& branch.is_prefix_of(full)
    &&& path == branch.push(full[branch.len() as int])
    &&& t.passes(full, Seq::empty(), branch)
    &&& t.has_node(branch)
    &&& t.node(branch) is Branch
    &&& t.node(branch)->Branch_mask.contains(full[branch.len() as int])
    &&& ext matches Some(above) ==> {
        &&& t.passes(full, Seq::empty(), above)
        &&& t.has_node(above)
        &&& t.node(above) is Extension
        &&& above.len() < branch.len()
        &&& above + t.node(above)->Extension_key == branch
        &&& above.is_prefix_of(branch)
    }
}

/// The walk to a leaf that can be removed ends at the leaf, below the branch and the extension that it
/// has noted.
pub proof fn lemma_leaf_place(t: TrieModel, full: Seq<u8>)
    requires
        t.lower.len() == NUM_LOWER_SUBTRIES,
        is_path(full),
        t.removable(full),
    ensures
        ({
            let walk = t.walk(full, Seq::empty(), None, None);
            &&& same_shape(t, walk.trie)
            &&& walk.end matches WalkEnd::Leaf { path, branch, ext } ==> {
                &&& t.lookup(full) == Lookup::At(path)
                &&& t.has_node(path)
                &&& path.len() > 0 ==> branch is Some && leaf_place(
                    walk.trie,
                    full,
                    path,
                    branch->0,
                    ext,
                )
            }
        }),
{
    let root = Seq::<u8>::empty();
    let walk = t.walk(full, root, None, None);
    lemma_prefix_pointwise(root, full);
    lemma_walk(t, full, root, None, None);
    match walk.end {
        WalkEnd::Leaf { path, branch, ext } => {
            let w = walk.trie;
            lemma_passes_below(t, full, root, path);
            if path.len() > 0 {
                let b = branch->0;
                lemma_passes_same_shape(t, w, full, root, b);
                lemma_passes_below(t, full, root, b);
                assert(t.has_node(b) == w.has_node(b));
                assert(t.has_node(path) == w.has_node(path));
                lemma_find_same_shape(t, w, full, root);
                lemma_passes_find(w, full, root, b, full);
                assert(w.find(full, b) == Lookup::At(path));
                if ext is Some {
                    let e = ext->0;
                    lemma_passes_same_shape(t, w, full, root, e);
                    lemma_passes_below(t, full, root, e);
                    assert(t.has_node(e) == w.has_node(e));
                    lemma_prefix_pointwise(e, b);
                    if e.len() >= b.len() {
                        assert(w.node(e)->Extension_key.len() == 0);
                        assert(e + w.node(e)->Extension_key =~= e);
                    }
                }
            }
        },
        _ => {},
    }
}

/// Lookups from the root go the same way to a node if nothing above the node has changed.
proof fn lemma_passes_frame(
    a: TrieModel,
    b: TrieModel,
    full: Seq<u8>,
    at: Seq<u8>,
    through: Seq<u8>,
)
    requires
        a.passes(full, at, through),
        at.is_prefix_of(full),
        b.has_node(through),
        forall|p: Seq<u8>|
            !through.is_prefix_of(p) ==> #[trigger] a.has_node(p) == b.has_node(p) && (a.has_node(p)
                ==> a.node(p) == b.node(p)),
    ensures
        b.passes(full, at, through),
    decreases full.len() - at.len(),
{
    if at != through {
        lemma_passes_below(a, full, at, through);
        lemma_prefix_pointwise(at, through);
        lemma_prefix_pointwise(through, at);
        if through.is_prefix_of(at) {
            assert(at =~= through);
        }
        assert(a.has_node(at) == b.has_node(at));
        let next = next_to_leaf(at, a.node(at), full)->Ok_0->ContinueFrom_0;
        lemma_prefix_pointwise(at, full);
        lemma_prefix_pointwise(next, full);
        lemma_passes_frame(a, b, full, next, through);
    }
}

/// If only what lies below a node on the way to a leaf has changed, other lookups either are the
/// same or go through that node too.
proof fn lemma_lookup_top(
    a: TrieModel,
    b: TrieModel,
    full: Seq<u8>,
    top: Seq<u8>,
    other: Seq<u8>,
)
    requires
        a.passes(full, Seq::empty(), top),
        b.has_node(top),
        forall|p: Seq<u8>|
            !top.is_prefix_of(p) ==> #[trigger] a.has_node(p) == b.has_node(p) && (a.has_node(p)
                ==> a.node(p) == b.node(p)),
    ensures
        if top.is_prefix_of(other) {
            a.lookup(other) == a.find(other, top) && b.lookup(other) == b.find(other, top)
        } else {
            a.lookup(other) == b.lookup(other)
        },
{
    let root = Seq::<u8>::empty();
    lemma_prefix_pointwise(root, full);
    lemma_prefix_pointwise(root, other);
    if top.is_prefix_of(other) {
        lemma_passes_find(a, full, root, top, other);
        lemma_passes_frame(a, b, full, root, top);
        lemma_passes_find(b, full, root, top, other);
    } else {
        assert forall|p: Seq<u8>|
            root.is_prefix_of(p) && p.is_prefix_of(other) implies #[trigger] a.has_node(p)
            == b.has_node(p) && (a.has_node(p) ==> a.node(p) == b.node(p)) by {
            if top.is_prefix_of(p) {
                lemma_prefix_transitive(top, p, other);
            }
        }
        lemma_find_frame(a, b, other, root);
    }
}

/// The leaf that is removed is looked up in vain, others as before: the branch above it keeps other
/// children.
proof fn lemma_branch_shrinks(
    a: TrieModel,
    r: TrieModel,
    full: Seq<u8>,
    path: Seq<u8>,
    branch: Seq<u8>,
    other: Seq<u8>,
)
    requires
        leaf_place(a, full, path, branch, None),
        r.has_node(branch),
        r.node(branch) == NodeModel::new_branch(
            a.node(branch)->Branch_mask.remove(full[branch.len() as int]),
        ),
        forall|p: Seq<u8>|
            p != branch && p != path ==> #[trigger] a.has_node(p) == r.has_node(p) && (a.has_node(p)
                ==> a.node(p) == r.node(p)),
        branch.is_prefix_of(other),
    ensures
        other == full ==> r.find(other, branch) == Lookup::Missing,
        other != full ==> r.find(other, branch) == a.find(other, branch),
{
    lemma_prefix_pointwise(branch, other);
    lemma_prefix_pointwise(branch, full);
    let nibble = full[branch.len() as int];
    if other.len() > branch.len() {
        let m = other[branch.len() as int];
        let next = branch.push(m);
        lemma_prefix_pointwise(next, other);
        if m == nibble {
            assert(next == path);
            assert(a.find(other, branch) == a.find(other, path));
        } else {
            assert forall|p: Seq<u8>|
                next.is_prefix_of(p) && p.is_prefix_of(other) implies #[trigger] a.has_node(p)
                == r.has_node(p) && (a.has_node(p) ==> a.node(p) == r.node(p)) by {
                lemma_prefix_pointwise(next, p);
                assert(p[branch.len() as int] == m);
                assert(path[branch.len() as int] == nibble);
            }
            lemma_find_frame(a, r, other, next);
        }
    }
}

/// What a branch and the extension above it become, with one child left.
pub open spec fn collapsed_node(a: TrieModel, ext: Option<Seq<u8>>, nibble: u8, child: NodeModel) -> NodeModel {
    match ext {
        Some(above) => merged_ext(
            a.node(above)->Extension_key,
            merged_branch(nibble, child),
        )->0,
        None => merged_branch(nibble, child),
    }
}

/// Where the node stands that a branch and the extension above it become.
pub open spec fn collapsed_top(branch: Seq<u8>, ext: Option<Seq<u8>>) -> Seq<u8> {
    match ext {
        Some(above) => above,
        None => branch,
    }
}

/// Whether a trie is another one after the removal of a leaf, where the branch above the leaf has
/// one child left and is merged with it. `node` is the child; if it was blinded, nothing is said of
/// what lies below it.
pub open spec fn collapsed(
    a: TrieModel,
    r: TrieModel,
    full: Seq<u8>,
    path: Seq<u8>,
    branch: Seq<u8>,
    ext: Option<Seq<u8>>,
    nibble: u8,
    node: NodeModel,
) -> bool {
    let child = branch.push(nibble);
    let top = collapsed_top(branch, ext);
    let blind = a.node(child) is Hash;
    let mask = a.node(branch)->Branch_mask;
    &&& leaf_place(a, full, path, branch, ext)
    &&& mask.contains(nibble)
    &&& nibble != full[branch.len() as int]
    &&& forall|m: u8|
        m < 16 && #[trigger] mask.contains(m) ==> m == nibble || m == full[branch.len() as int]
    &&& a.has_node(child)
    &&& node is Leaf || node is Extension || node is Branch
    &&& !blind ==> node == a.node(child)
    &&& !blind ==> (node matches NodeModel::Extension { key, .. } ==> key.len() > 0)
    &&& !blind && node is Branch ==> r.has_node(child) && r.node(child) == node
    &&& r.has_node(top)
    &&& r.node(top) == collapsed_node(a, ext, nibble, node)
    &&& forall|p: Seq<u8>|
        p != branch && p != path && p != top && p != child && !(blind && child.is_prefix_of(p))
            ==> #[trigger] a.has_node(p) == r.has_node(p) && (a.has_node(p) ==> a.node(p) == r.node(
            p,
        ))
}

/// Before the removal: a lookup below the branch goes to the child that is left, or to the leaf, or
/// is in vain.
proof fn lemma_before_collapse(
    a: TrieModel,
    r: TrieModel,
    full: Seq<u8>,
    path: Seq<u8>,
    branch: Seq<u8>,
    ext: Option<Seq<u8>>,
    nibble: u8,
    node: NodeModel,
    other: Seq<u8>,
)
    requires
        collapsed(a, r, full, path, branch, ext, nibble, node),
        is_path(other),
        collapsed_top(branch, ext).is_prefix_of(other),
    ensures
        ({
            let top = collapsed_top(branch, ext);
            let child = branch.push(nibble);
            if child.is_prefix_of(other) {
                a.find(other, top) == a.find(other, child) && other != full
            } else {
                other != full ==> a.find(other, top) == Lookup::Missing
            }
        }),
{
    let child = branch.push(nibble);
    let top = collapsed_top(branch, ext);
    lemma_prefix_pointwise(branch, full);
    lemma_prefix_pointwise(top, other);
    lemma_prefix_pointwise(branch, other);
    lemma_prefix_pointwise(child, other);
    if ext is Some {
        lemma_prefix_pointwise(ext->0, branch);
    }
    if branch.is_prefix_of(other) {
        assert(a.find(other, top) == a.find(other, branch));
        if other.len() > branch.len() {
            let m = other[branch.len() as int];
            assert(m < 16);
            if m == nibble {
                assert(child.is_prefix_of(other));
                assert(a.find(other, branch) == a.find(other, child));
            } else if m == full[branch.len() as int] {
                assert(branch.push(m) == path);
                assert(a.find(other, branch) == a.find(other, path));
            }
        }
    } else {
        assert(ext is Some);
        assert(a.find(other, top) == Lookup::Missing);
    }
}

/// After the removal: a lookup goes past the child that is left, or is in vain.
proof fn lemma_after_collapse(
    a: TrieModel,
    r: TrieModel,
    full: Seq<u8>,
    path: Seq<u8>,
    branch: Seq<u8>,
    ext: Option<Seq<u8>>,
    nibble: u8,
    node: NodeModel,
    other: Seq<u8>,
)
    requires
        collapsed(a, r, full, path, branch, ext, nibble, node),
        collapsed_top(branch, ext).is_prefix_of(other),
    ensures
        ({
            let top = collapsed_top(branch, ext);
            let child = branch.push(nibble);
            if !child.is_prefix_of(other) {
                r.find(other, top) == Lookup::Missing
            } else {
                r.find(other, top) == match node {
                    NodeModel::Leaf { key, .. } => if child + key == other {
                        Lookup::At(top)
                    } else {
                        Lookup::Missing
                    },
                    NodeModel::Extension { key, .. } => if (child + key).is_prefix_of(other) {
                        r.find(other, child + key)
                    } else {
                        Lookup::Missing
                    },
                    _ => r.find(other, child),
                }
            }
        }),
{
    let child = branch.push(nibble);
    let top = collapsed_top(branch, ext);
    lemma_prefix_pointwise(top, other);
    lemma_prefix_pointwise(child, other);
    if ext is Some {
        lemma_prefix_pointwise(ext->0, branch);
    }
    match node {
        NodeModel::Leaf { key, .. } => {
            let rest = seq![nibble] + key;
            assert(branch + rest =~= child + key);
            if ext is Some {
                let k = a.node(ext->0)->Extension_key;
                assert(ext->0 + (k + rest) =~= child + key);
            }
            lemma_prefix_pointwise(child, child + key);
        },
        NodeModel::Extension { key, .. } => {
            let rest = seq![nibble] + key;
            let next = child + key;
            assert(branch + rest =~= next);
            if ext is Some {
                let k = a.node(ext->0)->Extension_key;
                assert(ext->0 + (k + rest) =~= next);
            }
            lemma_prefix_pointwise(child, next);
            lemma_prefix_pointwise(next, other);
        },
        _ => {
            let rest = seq![nibble];
            assert(branch + rest =~= child);
            if ext is Some {
                let k = a.node(ext->0)->Extension_key;
                assert(ext->0 + (k + rest) =~= child);
            }
        },
    }
}

/// The leaf that is removed is looked up in vain, others as before: the branch above it is merged
/// with its other child.
proof fn lemma_branch_collapses(
    a: TrieModel,
    r: TrieModel,
    full: Seq<u8>,
    path: Seq<u8>,
    branch: Seq<u8>,
    ext: Option<Seq<u8>>,
    nibble: u8,
    node: NodeModel,
    other: Seq<u8>,
)
    requires
        collapsed(a, r, full, path, branch, ext, nibble, node),
        is_path(other),
        collapsed_top(branch, ext).is_prefix_of(other),
    ensures
        ({
            let top = collapsed_top(branch, ext);
            &&& other == full ==> r.find(other, top) == Lookup::Missing
            &&& other != full ==> match a.find(other, top) {
                Lookup::Missing => r.find(other, top) == Lookup::Missing,
                Lookup::Unknown => true,
                Lookup::At(q) => r.find(other, top) == if q == branch.push(nibble) {
                    Lookup::At(top)
                } else {
                    Lookup::At(q)
                },
            }
        }),
{
    let child = branch.push(nibble);
    lemma_before_collapse(a, r, full, path, branch, ext, nibble, node, other);
    lemma_after_collapse(a, r, full, path, branch, ext, nibble, node, other);
    let blind = a.node(child) is Hash;
    if child.is_prefix_of(other) && !blind {
        lemma_prefix_pointwise(child, other);
        match node {
            NodeModel::Extension { key, .. } => {
                let next = child + key;
                lemma_prefix_pointwise(child, next);
                lemma_prefix_pointwise(next, other);
                if next.is_prefix_of(other) {
                    lemma_agree_below(a, r, full, path, branch, ext, nibble, node, next, other);
                    lemma_find_frame(a, r, other, next);
                    if a.find(other, next) is At {
                        lemma_find_at(a, other, next);
                        lemma_prefix_pointwise(next, a.find(other, next)->At_0);
                    }
                }
            },
            NodeModel::Branch { .. } => {
                lemma_prefix_pointwise(child, child);
                lemma_agree_below(a, r, full, path, branch, ext, nibble, node, child, other);
                lemma_find_frame(a, r, other, child);
                if a.find(other, child) is At {
                    lemma_find_at(a, other, child);
                }
            },
            _ => {},
        }
    } else if child.is_prefix_of(other) {
        assert(a.find(other, child) == Lookup::Unknown);
    }
}

/// Below the child that was left nothing has changed, unless it was blinded.
proof fn lemma_agree_below(
    a: TrieModel,
    r: TrieModel,
    full: Seq<u8>,
    path: Seq<u8>,
    branch: Seq<u8>,
    ext: Option<Seq<u8>>,
    nibble: u8,
    node: NodeModel,
    at: Seq<u8>,
    other: Seq<u8>,
)
    requires
        collapsed(a, r, full, path, branch, ext, nibble, node),
        a.node(branch.push(nibble)) !is Hash,
        branch.push(nibble).is_prefix_of(at),
        at == branch.push(nibble) ==> node is Branch,
    ensures
        agree(a, r, other, at),
{
    let child = branch.push(nibble);
    let top = collapsed_top(branch, ext);
    lemma_prefix_pointwise(child, at);
    lemma_prefix_pointwise(branch, full);
    assert forall|p: Seq<u8>|
        at.is_prefix_of(p) && p.is_prefix_of(other) implies #[trigger] a.has_node(p) == r.has_node(
        p,
    ) && (a.has_node(p) ==> a.node(p) == r.node(p)) by {
        lemma_prefix_pointwise(at, p);
        assert(p.len() >= child.len());
        assert(p[branch.len() as int] == nibble);
        assert(path[branch.len() as int] == full[branch.len() as int]);
        if p.len() == child.len() {
            assert(p =~= child);
            assert(at =~= child);
        }
    }
}

/// Taking a leaf out leaves the values of all others where they are.
proof fn lemma_unlinked_values(t: TrieModel, full: Seq<u8>, path: Seq<u8>, other: Seq<u8>)
    requires
        t.has_node(path),
        other != full,
    ensures
        same_value(t, t.unlinked(full, path), other),
{
    let u = t.unlinked(full, path);
    assert forall|p: Seq<u8>|
        is_upper(p) || (0 <= lower_index_of(p) < t.lower.len() && t.lower[lower_index_of(
            p,
        )] is Some) implies #[trigger] t.value_at(p, other) == u.value_at(p, other) by {}
}

/// The node of the only child that is left, once it is known, and the trie then.
pub open spec fn child_known(
    u: TrieModel,
    child: Seq<u8>,
    reply: Result<Option<RevealedModel>, ErrorModel>,
) -> Removed {
    if u.node(child) is Hash {
        u.reveal_reply(child, reply)
    } else {
        Removed { trie: u, result: Ok(()) }
    }
}

/// The path of a child of a branch above a leaf is made of nibbles.
pub proof fn lemma_child_path(full: Seq<u8>, branch: Seq<u8>, child: Seq<u8>)
    requires
        is_path(full),
        branch.len() < full.len(),
        branch.is_prefix_of(full),
        branch.is_prefix_of(child),
        child.len() == branch.len() + 1,
        child.last() < 16,
    ensures
        is_path(child),
{
    lemma_prefix_pointwise(branch, full);
    lemma_prefix_pointwise(branch, child);
    assert forall|i: int| 0 <= i < child.len() implies (#[trigger] child[i]) < 16 by {
        if i < branch.len() {
            assert(branch[i] == full[i] && branch[i] == child[i]);
        }
    }
}

/// Once the only child that is left is known, the branch can be merged with it; nothing but what
/// lies below a blinded child has changed.
pub proof fn lemma_child_known(
    w: TrieModel,
    full: Seq<u8>,
    path: Seq<u8>,
    branch: Seq<u8>,
    ext: Option<Seq<u8>>,
    child: Seq<u8>,
    reply: Result<Option<RevealedModel>, ErrorModel>,
)
    requires
        leaf_place(w, full, path, branch, ext),
        child.len() == branch.len() + 1,
        child.last() < 16,
        branch.is_prefix_of(child),
        child[branch.len() as int] != full[branch.len() as int],
        w.has_node(child),
        w.node(child) !is Empty,
        w.child_fits(branch, ext, child),
        child_known(w.unlinked(full, path), child, reply).result is Ok,
    ensures
        ({
            let v = child_known(w.unlinked(full, path), child, reply).trie;
            let blind = w.node(child) is Hash;
            &&& collapsible(v, branch, child, ext)
            &&& v.lower.len() == w.lower.len()
            &&& !v.has_node(path)
            &&& !blind ==> v.node(child) == w.node(child)
            &&& ext matches Some(above) ==> v.node(above) == w.node(above)
            &&& forall|p: Seq<u8>|
                p != path && !(blind && child.is_prefix_of(p)) ==> #[trigger] v.has_node(p)
                    == w.has_node(p) && (w.has_node(p) ==> v.node(p) == w.node(p))
            &&& forall|other: Seq<u8>|
                other != full && !(blind && child.is_prefix_of(other)) ==> #[trigger] same_value(
                    w,
                    v,
                    other,
                )
        }),
{
    let u = w.unlinked(full, path);
    let blind = w.node(child) is Hash;
    let v = child_known(u, child, reply).trie;
    lemma_prefix_pointwise(branch, full);
    lemma_prefix_pointwise(branch, path);
    lemma_prefix_pointwise(path, full);
    lemma_prefix_pointwise(branch, child);
    assert(path[branch.len() as int] == full[branch.len() as int]);
    lemma_child_path(full, branch, child);
    assert forall|p: Seq<u8>| p != path implies #[trigger] u.has_node(p) == w.has_node(p) && (
    w.has_node(p) ==> u.node(p) == w.node(p)) by {
        lemma_unlinked(w, full, path, p);
    }
    lemma_unlinked(w, full, path, child);
    lemma_unlinked(w, full, path, branch);
    if ext is Some {
        lemma_unlinked(w, full, path, ext->0);
        lemma_prefix_pointwise(ext->0, branch);
    }
    assert forall|other: Seq<u8>| other != full implies #[trigger] same_value(w, u, other) by {
        lemma_unlinked_values(w, full, path, other);
    }
    if blind {
        let node = decoded_node(reply->Ok_0->Some_0.node)->Ok_0;
        let masks = reply->Ok_0->Some_0.masks;
        lemma_revealed_collapsible(u, branch, child, ext, node, masks);
        lemma_reveal_only(u, child, node, masks);
        assert forall|p: Seq<u8>| p != path && !child.is_prefix_of(p) implies #[trigger] v.has_node(
            p,
        ) == w.has_node(p) && (w.has_node(p) ==> v.node(p) == w.node(p)) by {
            assert(u.has_node(p) == w.has_node(p));
        }
        assert forall|other: Seq<u8>|
            other != full && !child.is_prefix_of(other) implies #[trigger] same_value(
            w,
            v,
            other,
        ) by {
            assert(same_value(w, u, other));
            assert(same_value(u, v, other));
            assert forall|p: Seq<u8>|
                is_upper(p) || (0 <= lower_index_of(p) < w.lower.len() && w.lower[lower_index_of(
                    p,
                )] is Some) implies #[trigger] w.value_at(p, other) == v.value_at(p, other) by {
                assert(w.value_at(p, other) == u.value_at(p, other));
                assert(u.value_at(p, other) == v.value_at(p, other));
            }
        }
        if ext is Some {
            lemma_prefix_pointwise(child, ext->0);
        }
        lemma_prefix_pointwise(child, path);
        assert(v.has_node(path) == u.has_node(path));
    } else {
        lemma_unlinked_fits(w, full, path, branch, ext, child);
    }
}

/// Merging with the only child that is left gives a trie that is collapsed there, with the values
/// of all leaves at their places.
pub proof fn lemma_collapse_done(
    w: TrieModel,
    full: Seq<u8>,
    path: Seq<u8>,
    branch: Seq<u8>,
    ext: Option<Seq<u8>>,
    reply: Result<Option<RevealedModel>, ErrorModel>,
)
    requires
        leaf_place(w, full, path, branch, ext),
        w.extensions_lead_down(),
        ({
            let mask = w.mask_without(branch, path);
            let child = TrieModel::only_child(branch, mask);
            &&& child_nibbles(mask).len() == 1
            &&& w.has_node(child)
            &&& w.node(child) !is Empty
            &&& w.child_fits(branch, ext, child)
            &&& child_known(w.unlinked(full, path), child, reply).result is Ok
        }),
    ensures
        ({
            let mask = w.mask_without(branch, path);
            let child = TrieModel::only_child(branch, mask);
            let v = child_known(w.unlinked(full, path), child, reply).trie;
            let r = v.merged(branch, child).ext_merged(ext, branch);
            let top = collapsed_top(branch, ext);
            let blind = w.node(child) is Hash;
            let node = v.node(child);
            &&& child == branch.push(child.last())
            &&& collapsed(w, r, full, path, branch, ext, child.last(), node)
            &&& forall|other: Seq<u8>|
                other != full && !(blind && child.is_prefix_of(other)) && (node is Leaf ==> other
                    != child + node->Leaf_key) ==> #[trigger] same_value(w, r, other)
            &&& !blind && node is Leaf ==> r.value_at(top, child + node->Leaf_key) == w.value_at(
                child,
                child + node->Leaf_key,
            )
        }),
{
    let mask = w.mask_without(branch, path);
    let child = TrieModel::only_child(branch, mask);
    let nibble = child_nibbles(mask)[0];
    let leaf_nibble = full[branch.len() as int];
    lemma_nibbles_below(mask, 16);
    lemma_prefix_pointwise(branch, full);
    lemma_prefix_pointwise(branch, child);
    assert(path[branch.len() as int] == leaf_nibble);
    let all = w.node(branch)->Branch_mask;
    assert(mask == all.remove(leaf_nibble));
    assert(mask.contains(nibble));
    assert forall|m: u8| m < 16 && #[trigger] all.contains(m) implies m == nibble || m
        == leaf_nibble by {
        if m != leaf_nibble {
            assert(mask.contains(m));
            assert(child_nibbles(mask).contains(m));
            let i = child_nibbles(mask).index_of(m);
            assert(i == 0);
        }
    }
    lemma_child_known(w, full, path, branch, ext, child, reply);
    let v = child_known(w.unlinked(full, path), child, reply).trie;
    let m = v.merged(branch, child);
    let r = m.ext_merged(ext, branch);
    let top = collapsed_top(branch, ext);
    let blind = w.node(child) is Hash;
    let node = v.node(child);
    lemma_merged_all(v, branch, child, ext);
    if ext is Some {
        lemma_prefix_pointwise(ext->0, branch);
        assert(m.has_node(ext->0) == v.has_node(ext->0));
    }
    lemma_ext_all(m, ext, branch);
    if let NodeModel::Leaf { key, .. } = node {
        assert(branch + (seq![nibble] + key) =~= child + key);
    }
    assert forall|p: Seq<u8>|
        p != branch && p != path && p != top && p != child && !(blind && child.is_prefix_of(
            p,
        )) implies #[trigger] w.has_node(p) == r.has_node(p) && (w.has_node(p) ==> w.node(p)
        == r.node(p)) by {
        assert(v.has_node(p) == w.has_node(p));
        assert(m.has_node(p) == v.has_node(p));
        if ext is Some {
            assert(r.has_node(p) == m.has_node(p));
        }
    }
    if !blind && node is Branch {
        assert(m.has_node(child));
        if ext is Some {
            assert(r.has_node(child) == m.has_node(child));
        }
    }
    assert(collapsed(w, r, full, path, branch, ext, nibble, node));
    assert forall|other: Seq<u8>|
        other != full && !(blind && child.is_prefix_of(other)) && (node is Leaf ==> other != child
            + node->Leaf_key) implies #[trigger] same_value(w, r, other) by {
        assert(same_value(w, v, other));
        assert(same_value(v, m, other));
        if ext is Some {
            assert(same_value(m, r, other));
        }
        assert forall|p: Seq<u8>|
            is_upper(p) || (0 <= lower_index_of(p) < w.lower.len() && w.lower[lower_index_of(
                p,
            )] is Some) implies #[trigger] w.value_at(p, other) == r.value_at(p, other) by {
            assert(w.value_at(p, other) == v.value_at(p, other));
            assert(v.value_at(p, other) == m.value_at(p, other));
            if ext is Some {
                assert(m.value_at(p, other) == r.value_at(p, other));
            }
        }
    }
    if !blind && node is Leaf {
        let moved = child + node->Leaf_key;
        assert(moved != full) by {
            assert(moved[branch.len() as int] == nibble);
        }
        assert(same_value(w, v, moved));
        assert(w.value_at(child, moved) == v.value_at(child, moved));
    }
}

/// What removing a leaf means for looking up any leaf.
pub proof fn lemma_removed_lookup(
    t: TrieModel,
    full: Seq<u8>,
    reply: Result<Option<RevealedModel>, ErrorModel>,
    other: Seq<u8>,
)
    requires
        t.lower.len() == NUM_LOWER_SUBTRIES,
        t.removable(full),
        t.extensions_lead_down(),
        t.leaf_removed(full, reply).result is Ok,
        is_path(full),
        is_path(other),
    ensures
        ({
            let r = t.leaf_removed(full, reply).trie;
            &&& other == full ==> r.lookup(other) == Lookup::Missing
            &&& other != full ==> match t.lookup(other) {
                Lookup::Missing => r.lookup(other) == Lookup::Missing,
                Lookup::Unknown => true,
                Lookup::At(p) => r.lookup(other) is At && r.value_at(
                    r.lookup(other)->At_0,
                    other,
                ) == t.value_at(p, other),
            }
        }),
{
    let root = Seq::<u8>::empty();
    let walk = t.walk(full, root, None, None);
    let w = walk.trie;
    let r = t.leaf_removed(full, reply).trie;
    lemma_prefix_pointwise(root, full);
    lemma_prefix_pointwise(root, other);
    lemma_leaf_place(t, full);
    lemma_walk(t, full, root, None, None);
    lemma_find_same_shape(t, w, other, root);
    lemma_find_same_shape(t, w, full, root);
    if t.lookup(other) is At {
        lemma_find_at(t, other, root);
        assert(t.has_node(t.lookup(other)->At_0) == w.has_node(t.lookup(other)->At_0));
    }
    match walk.end {
        WalkEnd::Leaf { path, branch, ext } => {
            let u = w.unlinked(full, path);
            assert(t.has_node(path) == w.has_node(path));
            if path.len() == 0 {
                assert(path =~= root);
                lemma_unlinked(w, full, path, path);
                lemma_put_node(u, path, NodeModel::Empty, path);
                assert(t.node(root) is Leaf);
            } else {
                let b = branch->0;
                let mask = w.mask_without(b, path);
                lemma_lead_down_shape(t, w);
                if child_nibbles(mask).len() == 1 {
                    let child = TrieModel::only_child(b, mask);
                    lemma_unlinked_child(w, full, path, b, ext, child);
                    lemma_collapse_done(w, full, path, b, ext, reply);
                    lemma_collapse_lookup(w, r, full, path, b, ext, child, reply, other);
                } else {
                    lemma_shrink_lookup(w, r, full, path, b, ext, other);
                }
            }
        },
        _ => {},
    }
}

/// That extensions lead down does not depend on hashes.
pub proof fn lemma_lead_down_shape(a: TrieModel, b: TrieModel)
    requires
        same_shape(a, b),
        a.extensions_lead_down(),
    ensures
        b.extensions_lead_down(),
{
    assert forall|path: Seq<u8>| #[trigger] b.has_node(path) implies (b.node(
        path,
    ) matches NodeModel::Extension { key, .. } ==> key.len() > 0) by {
        assert(a.has_node(path) == b.has_node(path));
    }
}

/// Taking a leaf out leaves the only other child as it is.
pub proof fn lemma_unlinked_child(
    w: TrieModel,
    full: Seq<u8>,
    path: Seq<u8>,
    branch: Seq<u8>,
    ext: Option<Seq<u8>>,
    child: Seq<u8>,
)
    requires
        leaf_place(w, full, path, branch, ext),
        child_nibbles(w.mask_without(branch, path)).len() == 1,
        child == TrieModel::only_child(branch, w.mask_without(branch, path)),
        w.has_node(child),
    ensures
        child != path,
        w.unlinked(full, path).node(child) == w.node(child),
{
    let mask = w.mask_without(branch, path);
    lemma_nibbles_below(mask, 16);
    assert(mask.contains(child_nibbles(mask)[0]));
    assert(child[branch.len() as int] == child_nibbles(mask)[0]);
    lemma_unlinked(w, full, path, child);
}

/// Lookups after the branch above a leaf was merged with its other child.
proof fn lemma_collapse_lookup(
    w: TrieModel,
    r: TrieModel,
    full: Seq<u8>,
    path: Seq<u8>,
    branch: Seq<u8>,
    ext: Option<Seq<u8>>,
    child: Seq<u8>,
    reply: Result<Option<RevealedModel>, ErrorModel>,
    other: Seq<u8>,
)
    requires
        is_path(other),
        ({
            let v = child_known(w.unlinked(full, path), child, reply).trie;
            let top = collapsed_top(branch, ext);
            let blind = w.node(child) is Hash;
            let node = v.node(child);
            &&& child == branch.push(child.last())
            &&& r == v.merged(branch, child).ext_merged(ext, branch)
            &&& collapsed(w, r, full, path, branch, ext, child.last(), node)
            &&& forall|x: Seq<u8>|
                x != full && !(blind && child.is_prefix_of(x)) && (node is Leaf ==> x != child
                    + node->Leaf_key) ==> #[trigger] same_value(w, r, x)
            &&& !blind && node is Leaf ==> r.value_at(top, child + node->Leaf_key) == w.value_at(
                child,
                child + node->Leaf_key,
            )
        }),
    ensures
        other == full ==> r.lookup(other) == Lookup::Missing,
        other != full ==> match w.lookup(other) {
            Lookup::Missing => r.lookup(other) == Lookup::Missing,
            Lookup::Unknown => true,
            Lookup::At(p) => r.lookup(other) is At && r.value_at(r.lookup(other)->At_0, other)
                == w.value_at(p, other),
        },
{
    let root = Seq::<u8>::empty();
    let v = child_known(w.unlinked(full, path), child, reply).trie;
    let node = v.node(child);
    let nibble = child.last();
    let top = collapsed_top(branch, ext);
    let blind = w.node(child) is Hash;
    lemma_prefix_pointwise(branch, full);
    lemma_prefix_pointwise(branch, path);
    lemma_prefix_pointwise(branch, child);
    lemma_prefix_pointwise(root, other);
    lemma_prefix_pointwise(top, top);
    if ext is Some {
        lemma_prefix_pointwise(top, branch);
        lemma_prefix_pointwise(top, full);
    }
    lemma_prefix_transitive(top, branch, path);
    lemma_prefix_transitive(top, branch, child);
    assert forall|p: Seq<u8>| !top.is_prefix_of(p) implies #[trigger] w.has_node(p) == r.has_node(p)
        && (w.has_node(p) ==> w.node(p) == r.node(p)) by {
        if child.is_prefix_of(p) {
            lemma_prefix_transitive(top, child, p);
        }
    }
    lemma_lookup_top(w, r, full, top, other);
    if top.is_prefix_of(other) {
        lemma_branch_collapses(w, r, full, path, branch, ext, nibble, node, other);
        lemma_before_collapse(w, r, full, path, branch, ext, nibble, node, other);
    } else {
        lemma_prefix_transitive(top, branch, full);
        if child.is_prefix_of(other) {
            lemma_prefix_transitive(top, child, other);
        }
    }
    if other != full && w.lookup(other) is At {
        let q = w.lookup(other)->At_0;
        lemma_find_at(w, other, root);
        if q == child {
            lemma_prefix_pointwise(child, other);
            lemma_prefix_transitive(top, child, other);
            assert(r.lookup(other) == Lookup::At(top));
        } else {
            assert(r.lookup(other) == Lookup::At(q));
            assert(!(blind && child.is_prefix_of(other)));
            if let NodeModel::Leaf { key, .. } = node {
                if other == child + key && !blind {
                    lemma_prefix_pointwise(child, other);
                    assert(w.find(other, child) == Lookup::At(child));
                }
                if other == child + key && blind {
                    lemma_prefix_pointwise(child, other);
                }
            }
            assert(same_value(w, r, other));
            assert(w.value_at(q, other) == r.value_at(q, other));
        }
    }
}

/// Lookups after the branch above a leaf lost a child and keeps others.
proof fn lemma_shrink_lookup(
    w: TrieModel,
    r: TrieModel,
    full: Seq<u8>,
    path: Seq<u8>,
    branch: Seq<u8>,
    ext: Option<Seq<u8>>,
    other: Seq<u8>,
)
    requires
        leaf_place(w, full, path, branch, ext),
        r == w.unlinked(full, path).put_node(
            branch,
            NodeModel::new_branch(w.mask_without(branch, path)),
        ).ext_merged(ext, branch),
    ensures
        other == full ==> r.lookup(other) == Lookup::Missing,
        other != full ==> match w.lookup(other) {
            Lookup::Missing => r.lookup(other) == Lookup::Missing,
            Lookup::Unknown => true,
            Lookup::At(p) => r.lookup(other) is At && r.value_at(r.lookup(other)->At_0, other)
                == w.value_at(p, other),
        },
{
    let root = Seq::<u8>::empty();
    let new = NodeModel::new_branch(w.mask_without(branch, path));
    let u = w.unlinked(full, path);
    let put = u.put_node(branch, new);
    lemma_prefix_pointwise(branch, full);
    lemma_prefix_pointwise(branch, path);
    lemma_prefix_pointwise(branch, branch);
    lemma_prefix_pointwise(root, other);
    assert(path[branch.len() as int] == full[branch.len() as int]);
    lemma_unlinked(w, full, path, branch);
    lemma_put_node(u, branch, new, branch);
    if ext is Some {
        lemma_unlinked(w, full, path, ext->0);
        lemma_put_node(u, branch, new, ext->0);
    }
    assert(r == put);
    assert forall|p: Seq<u8>| p != branch && p != path implies #[trigger] w.has_node(p)
        == r.has_node(p) && (w.has_node(p) ==> w.node(p) == r.node(p)) by {
        lemma_unlinked(w, full, path, p);
        lemma_put_node(u, branch, new, p);
    }
    assert forall|p: Seq<u8>| !branch.is_prefix_of(p) implies #[trigger] w.has_node(p)
        == r.has_node(p) && (w.has_node(p) ==> w.node(p) == r.node(p)) by {}
    lemma_lookup_top(w, r, full, branch, other);
    if branch.is_prefix_of(other) {
        lemma_branch_shrinks(w, r, full, path, branch, other);
    }
    if other != full && w.lookup(other) is At {
        let q = w.lookup(other)->At_0;
        lemma_find_at(w, other, root);
        lemma_unlinked_values(w, full, path, other);
        assert(w.value_at(q, other) == u.value_at(q, other));
    }
}

// What a removal leaves of the nodes.

/// The nodes that a walk goes through lose their hashes, the others stay as they are.
pub proof fn lemma_walk_nodes(
    t: TrieModel,
    full: Seq<u8>,
    at: Seq<u8>,
    branch: Option<Seq<u8>>,
    ext: Option<Seq<u8>>,
    q: Seq<u8>,
)
    requires
        t.walk_ok(full, at),
        at.is_prefix_of(full),
    ensures
        ({
            let w = t.walk(full, at, branch, ext).trie;
            &&& w.has_node(q) == t.has_node(q)
            &&& !t.passes(full, at, q) && t.has_node(q) ==> w.node(q) == t.node(q)
            &&& t.passes(full, at, q) && (t.node(q) is Branch || t.node(q) is Extension) && t.find(
                full,
                at,
            ) is At ==> w.node(q).known_hash() is None
        }),
    decreases full.len() - at.len(),
{
    let node = t.node(at);
    lemma_prefix_pointwise(at, full);
    match next_to_leaf(at, node, full) {
        Ok(NextModel::ContinueFrom(next)) => {
            let cleared = t.put_node(at, node.with_hash(None));
            lemma_cleared_shape(t, at);
            lemma_walk_ok_shape(t, cleared, full, next);
            lemma_prefix_pointwise(next, full);
            let (b, e) = if node is Branch {
                (
                    Some(at),
                    if branch is Some && ext is Some && branch->0.len() > ext->0.len() {
                        None
                    } else {
                        ext
                    },
                )
            } else {
                (branch, Some(at))
            };
            lemma_walk_nodes(cleared, full, next, b, e, q);
            lemma_passes_same_shape(t, cleared, full, next, q);
            lemma_find_same_shape(t, cleared, full, next);
            lemma_put_node(t, at, node.with_hash(None), q);
            if t.passes(full, next, q) {
                lemma_passes_below(t, full, next, q);
            }
            if cleared.passes(full, next, at) {
                lemma_passes_below(cleared, full, next, at);
                lemma_prefix_pointwise(next, at);
            }
        },
        _ => {},
    }
}

impl TrieModel {
    /// The path of the only child that is left below the branch above a leaf, after the leaf was
    /// removed, if there is just one.
    pub open spec fn left_child(self, full: Seq<u8>) -> Option<Seq<u8>> {
        let walk = self.walk(full, Seq::empty(), None, None);
        match walk.end {
            WalkEnd::Leaf { path, branch: Some(branch), .. } => {
                let mask = walk.trie.mask_without(branch, path);
                if path.len() > 0 && child_nibbles(mask).len() == 1 {
                    Some(TrieModel::only_child(branch, mask))
                } else {
                    None
                }
            },
            _ => None,
        }
    }
}

/// A blinded node that could not be revealed: nothing but what lies below it has changed.
proof fn lemma_failed_reveal(
    u: TrieModel,
    child: Seq<u8>,
    reply: Result<Option<RevealedModel>, ErrorModel>,
    q: Seq<u8>,
)
    requires
        u.lower.len() == NUM_LOWER_SUBTRIES,
        u.has_node(child),
        is_path(child),
        !child.is_prefix_of(q),
    ensures
        child_known(u, child, reply).trie.has_node(q) == u.has_node(q),
        u.has_node(q) ==> child_known(u, child, reply).trie.node(q) == u.node(q),
{
    if u.node(child) is Hash {
        match reply {
            Ok(Some(revealed)) => match decoded_node(revealed.node) {
                Ok(node) => {
                    lemma_reveal_only(u, child, node, revealed.masks);
                    assert(child_known(u, child, reply).trie.has_node(q) == u.has_node(q));
                },
                Err(_) => {},
            },
            _ => {},
        }
    }
}

/// The nodes after a removal, at paths that are not at or below the only child that is left.
pub proof fn lemma_removed_nodes(
    t: TrieModel,
    full: Seq<u8>,
    reply: Result<Option<RevealedModel>, ErrorModel>,
    q: Seq<u8>,
)
    requires
        t.lower.len() == NUM_LOWER_SUBTRIES,
        t.removable(full),
        t.extensions_lead_down(),
        is_path(full),
        t.left_child(full) matches Some(child) ==> !child.is_prefix_of(q),
    ensures
        ({
            let r = t.leaf_removed(full, reply).trie;
            let w = t.walk(full, Seq::empty(), None, None).trie;
            &&& !t.passes(full, Seq::empty(), q) ==> r.has_node(q) == w.has_node(q) && (w.has_node(
                q,
            ) ==> r.node(q) == w.node(q))
            &&& r.has_node(q) ==> (w.has_node(q) && r.node(q) == w.node(q)) || r.node(
                q,
            ).known_hash() is None
        }),
{
    let root = Seq::<u8>::empty();
    let walk = t.walk(full, root, None, None);
    let w = walk.trie;
    let r = t.leaf_removed(full, reply).trie;
    lemma_prefix_pointwise(root, full);
    lemma_leaf_place(t, full);
    lemma_walk(t, full, root, None, None);
    match walk.end {
        WalkEnd::Leaf { path, branch, ext } => {
            let u = w.unlinked(full, path);
            assert(t.has_node(path) == w.has_node(path));
            lemma_unlinked(w, full, path, q);
            lemma_unlinked(w, full, path, path);
            if path.len() == 0 {
                assert(path =~= root);
                lemma_put_node(u, path, NodeModel::Empty, q);
            } else {
                let b = branch->0;
                let mask = w.mask_without(b, path);
                lemma_lead_down_shape(t, w);
                lemma_passes_same_shape(t, w, full, root, b);
                lemma_passes_same_shape(t, w, full, root, q);
                if ext is Some {
                    lemma_passes_same_shape(t, w, full, root, ext->0);
                }
                if child_nibbles(mask).len() == 1 {
                    let child = TrieModel::only_child(b, mask);
                    lemma_unlinked_child(w, full, path, b, ext, child);
                    lemma_prefix_pointwise(b, child);
                    lemma_prefix_pointwise(child, child);
                    lemma_nibbles_below(mask, 16);
                    assert(mask.contains(child_nibbles(mask)[0]));
                    assert(child[b.len() as int] != full[b.len() as int]);
                    let known = child_known(u, child, reply);
                    if known.result is Ok {
                        lemma_collapse_done(w, full, path, b, ext, reply);
                        let v = known.trie;
                        let top = collapsed_top(b, ext);
                        assert(collapsed(w, r, full, path, b, ext, child.last(), v.node(child)));
                        if q == b && ext is Some {
                            lemma_child_known(w, full, path, b, ext, child, reply);
                            lemma_merged_all(v, b, child, ext);
                            assert(v.merged(b, child).has_node(ext->0) == v.has_node(ext->0));
                            lemma_ext_all(v.merged(b, child), ext, b);
                        }
                        if q == path {
                            lemma_child_known(w, full, path, b, ext, child, reply);
                            lemma_merged_all(v, b, child, ext);
                            if ext is Some {
                                assert(v.merged(b, child).has_node(ext->0) == v.has_node(ext->0));
                            }
                            lemma_ext_all(v.merged(b, child), ext, b);
                        }
                    } else {
                        lemma_child_path(full, b, child);
                        lemma_failed_reveal(u, child, reply, q);
                    }
                } else {
                    let new = NodeModel::new_branch(mask);
                    let put = u.put_node(b, new);
                    lemma_unlinked(w, full, path, b);
                    lemma_put_node(u, b, new, q);
                    lemma_put_node(u, b, new, b);
                    if ext is Some {
                        lemma_unlinked(w, full, path, ext->0);
                        lemma_put_node(u, b, new, ext->0);
                    }
                    assert(r == put);
                }
            }
        },
        _ => {},
    }
}

/// The only child that is left lies off the way to the leaf.
pub proof fn lemma_left_child_off(t: TrieModel, full: Seq<u8>)
    requires
        t.lower.len() == NUM_LOWER_SUBTRIES,
        is_path(full),
        t.removable(full),
    ensures
        t.left_child(full) matches Some(child) ==> child.len() <= full.len() && !child.is_prefix_of(
            full,
        ),
{
    let walk = t.walk(full, Seq::empty(), None, None);
    let w = walk.trie;
    lemma_leaf_place(t, full);
    match walk.end {
        WalkEnd::Leaf { path, branch, ext } => {
            if t.left_child(full) is Some {
                let b = branch->0;
                let mask = w.mask_without(b, path);
                let child = TrieModel::only_child(b, mask);
                lemma_nibbles_below(mask, 16);
                assert(mask.contains(child_nibbles(mask)[0]));
                lemma_prefix_pointwise(b, full);
                lemma_prefix_pointwise(child, full);
                assert(path[b.len() as int] == full[b.len() as int]);
                assert(child[b.len() as int] != full[b.len() as int]);
            }
        },
        _ => {},
    }
}

}
