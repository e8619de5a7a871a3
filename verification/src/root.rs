//! Hashing the upper part of the trie, and the root hash.

use crate::due::lemma_right_but_touched;
use crate::hash_run::{
    cost, headed_run, lemma_end, lemma_kid_paths, lemma_start, lemma_step, lemma_visits_below,
    lemma_visits_step, lemma_visits_transitive, run_start, run_step, running,
};
use crate::hashing::{cached, deeper, kid_paths, Hashing, Source};
use crate::merkle::{lemma_root_encoded, lemma_rooted_right, lemma_rooted_true};
use crate::model::{rlp_hash, Model, NodeModel};
use crate::normal::lemma_alike_whole;
use crate::order::{lemma_prefix_pointwise, lemma_prefix_transitive};
use crate::outside::{all_nibbles, hash_of, keccak, MAX_PATH_LEN};
use crate::path::{
    is_upper, lower_index_of, lower_path, path_subtrie_index_unchecked, SparseSubtrieType,
    NUM_LOWER_SUBTRIES,
};
use crate::prefix_set::{lemma_heads, path_set, PrefixModel, PrefixSet, PrefixSetMut};
use crate::recorded::{lemma_recorded, noted};
use crate::soundness::{lemma_alike_sound, lemma_rooted_alike};
use crate::subtrie::{RlpNodePathStackItem, SubtrieModel};
use crate::trie::{lower_models, lower_well_formed, ParallelSparseTrie, TrieModel};
use crate::twice::lemma_root_again;
use crate::updates::updates_of;
use alloy_primitives::B256;
use alloy_trie::Nibbles;
use alloy_trie::nodes::RlpNode;
use vstd::prelude::*;

verus! {

impl TrieModel {
    /// Whether a path belongs to the lower subtrie with an index.
    pub open spec fn owns(index: int, path: Seq<u8>) -> bool {
        !is_upper(path) && lower_index_of(path) == index
    }

    /// Whether there is a node at a path, in the subtrie that the path belongs to.
    pub open spec fn has_node(self, path: Seq<u8>) -> bool {
        if is_upper(path) {
            self.upper.nodes.contains_key(path)
        } else {
            let index = lower_index_of(path);
            0 <= index < self.lower.len() && self.lower[index] is Some
                && self.lower[index]->0.nodes.contains_key(path)
        }
    }

    /// The node at a path, in the subtrie that the path belongs to.
    pub open spec fn node(self, path: Seq<u8>) -> NodeModel {
        if is_upper(path) {
            self.upper.nodes[path]
        } else {
            self.lower[lower_index_of(path)]->0.nodes[path]
        }
    }

    /// The nodes of the trie, each in the subtrie that its path belongs to.
    pub open spec fn all_nodes(self) -> Map<Seq<u8>, NodeModel> {
        Map::new(|path: Seq<u8>| self.has_node(path), |path: Seq<u8>| self.node(path))
    }

    /// What the subtrie that a path belongs to keeps beside its nodes.
    pub open spec fn source_at(self, path: Seq<u8>) -> Source {
        if is_upper(path) {
            self.upper.src
        } else {
            self.lower[lower_index_of(path)]->0.src
        }
    }

    /// What hashing the trie as a whole starts from.
    pub open spec fn hashing(self, prefix: PrefixModel) -> Hashing {
        Hashing {
            prefix,
            recording: self.upper.updates is Some,
            nodes: self.all_nodes(),
            source: |path: Seq<u8>| self.source_at(path),
        }
    }

    /// The trie with other nodes at the paths that it has nodes at.
    pub open spec fn with_nodes(self, nodes: Map<Seq<u8>, NodeModel>) -> Self {
        TrieModel {
            upper: SubtrieModel {
                nodes: Map::new(
                    |path: Seq<u8>| self.upper.nodes.contains_key(path),
                    |path: Seq<u8>|
                        if is_upper(path) {
                            nodes[path]
                        } else {
                            self.upper.nodes[path]
                        },
                ),
                ..self.upper
            },
            lower: Seq::new(
                self.lower.len(),
                |i: int|
                    match self.lower[i] {
                        Some(subtrie) => Some(
                            SubtrieModel {
                                nodes: Map::new(
                                    |path: Seq<u8>| subtrie.nodes.contains_key(path),
                                    |path: Seq<u8>|
                                        if TrieModel::owns(i, path) {
                                            nodes[path]
                                        } else {
                                            subtrie.nodes[path]
                                        },
                                ),
                                ..subtrie
                            },
                        ),
                        None => None,
                    },
            ),
            ..self
        }
    }

    /// The trie after it was hashed from its root. The updates are recorded by the upper subtrie.
    pub open spec fn upper_hashed(self, prefix: PrefixModel) -> Self {
        let h = self.hashing(prefix);
        let hashed = self.with_nodes(h.hashed_nodes(Seq::empty()));
        TrieModel {
            upper: SubtrieModel {
                updates: match self.upper.updates {
                    Some(updates) => Some(h.hashed_updates(Seq::empty(), updates)),
                    None => None,
                },
                ..hashed.upper
            },
            ..hashed
        }
    }

    /// The RLP of the root.
    pub open spec fn root_rlp(self, prefix: PrefixModel) -> Seq<u8> {
        self.hashing(prefix).encoded(Seq::empty()).rlp
    }

    /// Hashing the trie from its root finds every node it needs.
    pub open spec fn upper_hashable(self, prefix: PrefixModel) -> bool {
        self.hashing(prefix).hashable(Seq::empty())
    }
}

/// Setting one node of the trie.
proof fn lemma_with_node(t: TrieModel, nodes: Map<Seq<u8>, NodeModel>, path: Seq<u8>, node: NodeModel)
    requires
        t.has_node(path),
        0 <= lower_index_of(path) < t.lower.len() || is_upper(path),
    ensures
        ({
            let before = t.with_nodes(nodes);
            let after = t.with_nodes(nodes.insert(path, node));
            if is_upper(path) {
                &&& after.upper.nodes == before.upper.nodes.insert(path, node)
                &&& after.lower == before.lower
            } else {
                let index = lower_index_of(path);
                &&& before.lower[index] is Some
                &&& after.upper == before.upper
                &&& after.lower == before.lower.update(
                    index,
                    Some(
                        SubtrieModel {
                            nodes: before.lower[index]->0.nodes.insert(path, node),
                            ..before.lower[index]->0
                        },
                    ),
                )
            }
        }),
{
    let before = t.with_nodes(nodes);
    let after = t.with_nodes(nodes.insert(path, node));
    if is_upper(path) {
        assert(after.upper.nodes =~= before.upper.nodes.insert(path, node));
        assert forall|i: int| 0 <= i < t.lower.len() implies after.lower[i] == before.lower[i] by {
            if t.lower[i] is Some {
                assert(after.lower[i]->0.nodes =~= before.lower[i]->0.nodes);
            }
        }
        assert(after.lower =~= before.lower);
    } else {
        let index = lower_index_of(path);
        assert(after.upper.nodes =~= before.upper.nodes);
        let changed = SubtrieModel {
            nodes: before.lower[index]->0.nodes.insert(path, node),
            ..before.lower[index]->0
        };
        assert forall|i: int| 0 <= i < t.lower.len() implies after.lower[i] == before.lower.update(
            index,
            Some(changed),
        )[i] by {
            if t.lower[i] is Some {
                if i == index {
                    assert(after.lower[i]->0.nodes =~= changed.nodes);
                } else {
                    assert(after.lower[i]->0.nodes =~= before.lower[i]->0.nodes);
                }
            }
        }
        assert(after.lower =~= before.lower.update(index, Some(changed)));
    }
}

/// The trie with its own nodes is itself.
proof fn lemma_with_own_nodes(t: TrieModel)
    requires
        t.lower.len() == NUM_LOWER_SUBTRIES,
    ensures
        t.with_nodes(t.all_nodes()) == t,
{
    let same = t.with_nodes(t.all_nodes());
    assert(same.upper.nodes =~= t.upper.nodes);
    assert forall|i: int| 0 <= i < t.lower.len() implies same.lower[i] == t.lower[i] by {
        if t.lower[i] is Some {
            assert(same.lower[i]->0.nodes =~= t.lower[i]->0.nodes);
        }
    }
    assert(same.lower =~= t.lower);
}

impl ParallelSparseTrie {
    /// Computes the RLP of the root, and the hashes of all nodes that this goes through, in the
    /// upper subtrie and in lower ones.
    pub fn update_upper_subtrie_hashes(&mut self, prefix_set: &mut PrefixSet) -> (rlp_node: RlpNode)
        requires
            old(self).well_formed(),
            old(prefix_set).well_formed(),
            old(self)@.upper_hashable(old(prefix_set)@),
        ensures
            final(self).well_formed(),
            final(prefix_set).well_formed(),
            final(prefix_set)@ == old(prefix_set)@,
            rlp_node.model() == old(self)@.root_rlp(old(prefix_set)@),
            final(self)@ == old(self)@.upper_hashed(old(prefix_set)@),
            old(self)@.hashing(old(prefix_set)@).headed_from(Seq::empty()),
    {
        let ghost t = self@;
        let ghost h = t.hashing(prefix_set@);
        let ghost root = Seq::<u8>::empty();
        let ghost before = t.upper.updates;
        self.upper_subtrie.inner.buffers.path_stack.push(
            RlpNodePathStackItem { path: Nibbles::new(), is_in_prefix_set: None },
        );
        let ghost mut r = run_start(h, root, before);
        proof {
            lemma_start(h, root, before);
            lemma_with_own_nodes(t);
            assert(self.upper_subtrie.inner.buffers.paths() =~= r.paths);
            assert(self.upper_subtrie.inner.buffers.rlps() =~= r.rlps);
        }
        while self.upper_subtrie.inner.buffers.path_stack.len() > 0
            invariant
                t == old(self)@,
                t.lower.len() == NUM_LOWER_SUBTRIES,
                h == t.hashing(old(prefix_set)@),
                h.hashable(root),
                running(h, root, before, r),
                headed_run(h, root, r),
                prefix_set.well_formed(),
                prefix_set@ == old(prefix_set)@,
                r.paths == self.upper_subtrie.inner.buffers.paths(),
                r.rlps == self.upper_subtrie.inner.buffers.rlps(),
                r.updates == updates_of(self.upper_subtrie.inner.updates),
                self.upper_subtrie.path == old(self).upper_subtrie.path,
                self.upper_subtrie.nodes@ == t.with_nodes(r.nodes).upper.nodes,
                self.upper_subtrie.inner.source() == t.upper.src,
                self@.lower == t.with_nodes(r.nodes).lower,
                self.prefix_set == old(self).prefix_set,
                self.updates == old(self).updates,
                self.lower_subtries@.len() == NUM_LOWER_SUBTRIES,
                forall|i: int|
                    0 <= i < NUM_LOWER_SUBTRIES ==> lower_well_formed(
                        i,
                        #[trigger] self.lower_subtries@[i],
                    ),
            decreases cost(r.paths),
        {
            proof {
                lemma_step(h, root, before, r);
            }
            let ghost item = r.paths.last();
            let ghost next = run_step(h, r);
            let stack_item = self.upper_subtrie.inner.buffers.path_stack.pop().unwrap();
            let path = stack_item.path;
            assert(self.upper_subtrie.inner.buffers.paths() =~= r.paths.drop_last());
            assert(stack_item.model() == item);
            assert(t.has_node(item.path)) by {
                assert(r.nodes.dom().contains(item.path));
                assert(h.nodes.dom().contains(item.path));
            }
            proof {
                lemma_with_node(t, r.nodes, item.path, next.nodes[item.path]);
            }
            if SparseSubtrieType::path_len_is_upper(path.len()) {
                let node = self.upper_subtrie.nodes.get_mut(&path).unwrap();
                self.upper_subtrie.inner.rlp_node(prefix_set, stack_item, node, None);
            } else {
                let index = path_subtrie_index_unchecked(&path);
                let ghost lower = self.lower_subtries@;
                assert(self@.lower[index as int] is Some);
                let subtrie = self.lower_subtries[index].as_mut().unwrap();
                let node = subtrie.nodes.get_mut(&path).unwrap();
                self.upper_subtrie.inner.rlp_node(
                    prefix_set,
                    stack_item,
                    node,
                    Some(&subtrie.inner),
                );
                proof {
                    let s = self.lower_subtries@[index as int]->0;
                    assert(self.lower_subtries@ =~= lower.update(index as int, Some(s)));
                    assert(self@.lower =~= lower_models(lower).update(index as int, Some(s@)));
                }
            }
            proof {
                r = next;
            }
        }
        proof {
            lemma_end(h, root, before, r);
        }
        let root_item = self.upper_subtrie.inner.buffers.rlp_node_stack.pop().unwrap();
        proof {
            assert(root_item.model() == r.rlps[0]);
            assert(self.upper_subtrie.inner.buffers.paths().len() == 0);
            assert(self@.lower =~= t.upper_hashed(old(prefix_set)@).lower);
            assert(self@ =~= t.upper_hashed(old(prefix_set)@));
        }
        root_item.rlp_node
    }
}

impl TrieModel {
    /// There is a place for each lower subtrie, and the path of each belongs there.
    pub open spec fn placed(self) -> bool {
        &&& self.upper.path == Seq::<u8>::empty()
        &&& self.lower.len() == NUM_LOWER_SUBTRIES
        &&& forall|i: int|
            0 <= i < NUM_LOWER_SUBTRIES ==> ((#[trigger] self.lower[i]) matches Some(subtrie)
                ==> lower_path(i).is_prefix_of(subtrie.path))
    }

    /// The root hash can be computed: the changed lower subtries can be hashed, and with the keys
    /// that then count as changed, the trie from its root.
    pub open spec fn root_ready(self) -> bool {
        &&& self.lower_hashable()
        &&& self.upper_hashable(self.upper_keys())
    }

    /// The root hash.
    pub open spec fn root_hash(self) -> Seq<u8> {
        let lower = self.lower_hashed();
        hash_of_root(lower.root_rlp(self.upper_keys()))
    }

    /// Whether computing the root hash goes through the node at a path, once the changed lower
    /// subtries have been hashed.
    pub open spec fn root_visits(self, path: Seq<u8>) -> bool {
        let lower = self.lower_hashed();
        lower.hashing(self.upper_keys()).visits(Seq::empty(), path)
    }

    /// The trie after its root hash was computed: no key counts as changed.
    pub open spec fn rooted(self) -> Self {
        let lower = self.lower_hashed();
        TrieModel { prefix: PrefixModel::none(), ..lower.upper_hashed(self.upper_keys()) }
    }
}

/// The root hash that belongs to the RLP node of a root: the hash in it, or the hash of the RLP of a
/// root that is too short to be hashed as a node.
pub open spec fn hash_of_root(rlp: Seq<u8>) -> Seq<u8> {
    match rlp_hash(rlp) {
        Some(hash) => hash,
        None => keccak(rlp),
    }
}

/// What hashing a changed lower subtrie starts from.
pub open spec fn lower_run(t: TrieModel, i: int) -> Hashing {
    t.lower[i]->0.hashing(t.prefix.frozen().under(t.lower_root(i)))
}

/// Whether hashing from the root goes to a path, before or after a changed lower subtrie that owns
/// the path was hashed.
spec fn reached(t: TrieModel, path: Seq<u8>) -> bool {
    ||| t.hashing(t.upper_keys()).visits(Seq::empty(), path)
    ||| in_lower_run(t, lower_index_of(path), path)
}

/// Whether hashing a changed lower subtrie goes to a path that the subtrie owns.
pub open spec fn in_lower_run(t: TrieModel, i: int, path: Seq<u8>) -> bool {
    &&& t.rehashed(t.prefix.frozen(), i)
    &&& TrieModel::owns(i, path)
    &&& lower_run(t, i).visits(t.lower_root(i), path)
}

/// The keys that then count as changed touch nothing in a lower subtrie that was hashed, unless all keys
/// have changed.
proof fn lemma_remaining_elsewhere(t: TrieModel, i: int, path: Seq<u8>)
    requires
        t.rehashed(t.prefix.frozen(), i),
        !is_upper(path),
        t.lower_root(i).is_prefix_of(path),
        t.upper_keys().touches(path),
    ensures
        t.prefix.frozen().under(t.lower_root(i)).touches(path),
{
    let prefix = t.prefix.frozen();
    if !prefix.all {
        let left = t.upper_keys();
        let key = choose|key: Seq<u8>| #[trigger] left.keys.contains(key) && path.is_prefix_of(key);
        lemma_heads(prefix, path);
        lemma_prefix_transitive(t.lower_root(i), path, key);
        assert(t.in_rehashed(prefix, key));
    }
}

/// A node that hashing a changed lower subtrie did not encode anew is not encoded anew later.
pub proof fn lemma_stays_cached(t: TrieModel, i: int, path: Seq<u8>)
    requires
        in_lower_run(t, i, path),
        lower_run(t, i).node_ok(path),
        !lower_run(t, i).opens(path),
    ensures
        cached(
            t.upper_keys(),
            None,
            path,
            t.lower[i]->0.nodes[path],
        ),
{
    let g = lower_run(t, i);
    let left = t.upper_keys();
    let node = t.lower[i]->0.nodes[path];
    lemma_visits_below(g, t.lower_root(i), path);
    match node {
        NodeModel::Leaf { key, .. } => {
            lemma_prefix_pointwise(path, path + key);
            lemma_prefix_transitive(t.lower_root(i), path, path + key);
            if left.touches(path + key) {
                lemma_remaining_elsewhere(t, i, path + key);
            }
        },
        _ => {
            if left.touches(path) {
                lemma_remaining_elsewhere(t, i, path);
            }
        },
    }
}

/// A path below one that a lower subtrie owns is owned by it too.
pub proof fn lemma_owns_below(i: int, path: Seq<u8>, kid: Seq<u8>)
    requires
        TrieModel::owns(i, path),
        path.is_prefix_of(kid),
    ensures
        TrieModel::owns(i, kid),
{
    lemma_prefix_pointwise(path, kid);
    assert(path[0] == kid[0] && path[1] == kid[1]);
}

/// At a path that is reached: what is needed is there, and the children are reached too.
proof fn lemma_reached_ok(t: TrieModel, path: Seq<u8>)
    requires
        t.root_ready(),
        t.placed(),
        reached(t, path),
    ensures
        ({
            let h = t.lower_hashed().hashing(t.upper_keys());
            &&& h.node_ok(path)
            &&& forall|j: int| 0 <= j < h.kids(path).len() ==> reached(t, #[trigger] h.kids(path)[j])
        }),
{
    let prefix = t.prefix.frozen();
    let left = t.upper_keys();
    let h = t.lower_hashed().hashing(left);
    let before = t.hashing(left);
    let i = lower_index_of(path);
    let root = Seq::<u8>::empty();
    if in_lower_run(t, i, path) {
        let g = lower_run(t, i);
        assert(t.lower[i]->0.hashable(prefix.under(t.lower_root(i))));
        assert(g.node_ok(path));
        let node = t.lower[i]->0.nodes[path];
        assert(h.nodes[path] == g.hashed_node(t.lower_root(i), path));
        if g.opens(path) {
            lemma_kid_paths(path, node);
            assert(kid_paths(path, h.nodes[path]) == kid_paths(path, node));
            assert forall|j: int| 0 <= j < h.kids(path).len() implies reached(
                t,
                #[trigger] h.kids(path)[j],
            ) by {
                let kid = g.kids(path)[j];
                assert(h.kids(path)[j] == kid);
                assert(deeper(path, kid));
                assert(g.visits(kid, kid));
                lemma_visits_step(g, path, j, kid);
                lemma_visits_transitive(g, t.lower_root(i), path, kid);
                lemma_owns_below(i, path, kid);
            }
            assert forall|j: int| 0 <= j < h.kids(path).len() implies deeper(
                path,
                #[trigger] h.kids(path)[j],
            ) by {
                assert(h.kids(path)[j] == g.kids(path)[j]);
            }
        } else {
            lemma_stays_cached(t, i, path);
        }
    } else {
        assert(before.visits(root, path));
        assert(before.node_ok(path));
        assert(h.nodes[path] == before.nodes[path]) by {
            if !is_upper(path) && t.rehashed(prefix, i) {
                assert(!lower_run(t, i).visits(t.lower_root(i), path));
            }
        }
        assert(h.kids(path) == before.kids(path));
        assert forall|j: int| 0 <= j < h.kids(path).len() implies reached(
            t,
            #[trigger] h.kids(path)[j],
        ) by {
            let kid = before.kids(path)[j];
            assert(deeper(path, kid));
            assert(before.visits(kid, kid));
            lemma_visits_step(before, path, j, kid);
            lemma_visits_transitive(before, root, path, kid);
        }
        assert forall|j: int| 0 <= j < h.kids(path).len() implies deeper(
            path,
            #[trigger] h.kids(path)[j],
        ) by {
            assert(h.kids(path)[j] == before.kids(path)[j]);
        }
    }
}

/// What hashing goes to from a path that is reached is reached.
proof fn lemma_reached_below(t: TrieModel, from: Seq<u8>, to: Seq<u8>)
    requires
        t.root_ready(),
        t.placed(),
        reached(t, from),
        t.lower_hashed().hashing(t.upper_keys()).visits(from, to),
    ensures
        reached(t, to),
    decreases MAX_PATH_LEN - from.len(),
{
    let h = t.lower_hashed().hashing(t.upper_keys());
    if from != to {
        let j = choose|j: int|
            0 <= j < h.kids(from).len() && deeper(from, #[trigger] h.kids(from)[j]) && h.visits(
                h.kids(from)[j],
                to,
            );
        lemma_reached_ok(t, from);
        assert(reached(t, h.kids(from)[j]));
        lemma_reached_below(t, h.kids(from)[j], to);
    }
}

/// After the changed lower subtries were hashed, the trie can be hashed from its root.
pub proof fn lemma_upper_hashable(t: TrieModel)
    requires
        t.root_ready(),
        t.placed(),
    ensures
        t.lower_hashed().upper_hashable(t.upper_keys()),
{
    let left = t.upper_keys();
    let h = t.lower_hashed().hashing(left);
    let root = Seq::<u8>::empty();
    assert(t.hashing(left).visits(root, root));
    assert forall|path: Seq<u8>| #[trigger] h.visits(root, path) implies h.node_ok(path) by {
        lemma_reached_below(t, root, path);
        lemma_reached_ok(t, path);
    }
}

/// The lower subtrie that a key belongs to is the one with the index of the key.
proof fn lemma_key_rehashed(t: TrieModel, prefix: PrefixModel, key: Seq<u8>)
    requires
        t.placed(),
        prefix.keys.contains(key),
    ensures
        t.in_rehashed(prefix, key) == (!is_upper(key) && {
            let i = lower_index_of(key);
            &&& 0 <= i < NUM_LOWER_SUBTRIES
            &&& t.lower[i] is Some
            &&& t.lower_root(i).is_prefix_of(key)
            &&& t.lower[i]->0.nodes.contains_key(t.lower_root(i))
        }),
{
    if t.in_rehashed(prefix, key) {
        let i = choose|i: int| #[trigger]
            t.rehashed(prefix, i) && t.lower_root(i).is_prefix_of(key);
        lemma_prefix_transitive(lower_path(i), t.lower_root(i), key);
        lemma_prefix_pointwise(lower_path(i), key);
        assert(lower_path(i)[0] == key[0] && lower_path(i)[1] == key[1]);
    }
    if !is_upper(key) {
        let i = lower_index_of(key);
        if 0 <= i < NUM_LOWER_SUBTRIES && t.lower[i] is Some && t.lower_root(i).is_prefix_of(key)
            && t.lower[i]->0.nodes.contains_key(t.lower_root(i)) {
            assert(t.rehashed(prefix, i));
        }
    }
}

impl ParallelSparseTrie {
    /// Returns the changed keys that belong to no lower subtrie that is hashed on its own.
    fn keys_above(&self) -> (above: Vec<Nibbles>)
        requires
            self.well_formed(),
        ensures
            path_set(above@) == self@.prefix.keys.filter(
                |key: Seq<u8>| !self@.in_rehashed(self@.prefix, key),
            ),
    {
        let ghost t = self@;
        let keys = self.prefix_set.keys();
        let mut above: Vec<Nibbles> = Vec::new();
        let mut i: usize = 0;
        proof {
            lemma_placed(*self);
        }
        while i < keys.len()
            invariant
                i <= keys@.len(),
                t == self@,
                self.well_formed(),
                t.placed(),
                path_set(keys@) == t.prefix.keys,
                forall|j: int|
                    0 <= j < above@.len() ==> t.prefix.keys.contains(
                        (#[trigger] above@[j]).model(),
                    ) && !t.in_rehashed(t.prefix, above@[j].model()),
                forall|j: int|
                    0 <= j < i ==> t.in_rehashed(t.prefix, (#[trigger] keys@[j]).model())
                        || all_nibbles(above@).contains(keys@[j].model()),
            decreases keys@.len() - i,
        {
            let key = keys[i];
            let ghost k = key.model();
            let ghost before = all_nibbles(above@);
            proof {
                assert(all_nibbles(keys@)[i as int] == k);
                assert(t.prefix.keys.contains(k));
                lemma_key_rehashed(t, t.prefix, k);
            }
            let below = match SparseSubtrieType::from_path(&key) {
                SparseSubtrieType::Upper => false,
                SparseSubtrieType::Lower(index) => match &self.lower_subtries[index] {
                    Some(subtrie) => key.starts_with(&subtrie.path) && subtrie.nodes.contains_key(
                        &subtrie.path,
                    ),
                    None => false,
                },
            };
            if !below {
                above.push(key);
                proof {
                    assert(all_nibbles(above@) =~= before.push(k));
                    assert(all_nibbles(above@)[before.len() as int] == k);
                    assert forall|x: Seq<u8>| before.contains(x) implies all_nibbles(
                        above@,
                    ).contains(x) by {
                        assert(all_nibbles(above@)[before.index_of(x)] == x);
                    }
                }
            }
            i += 1;
        }
        proof {
            let left = t.prefix.keys.filter(|key: Seq<u8>| !t.in_rehashed(t.prefix, key));
            assert forall|x: Seq<u8>| path_set(above@).contains(x) == left.contains(x) by {
                if path_set(above@).contains(x) {
                    let j = all_nibbles(above@).index_of(x);
                    assert(above@[j].model() == x);
                }
                if left.contains(x) {
                    let j = all_nibbles(keys@).index_of(x);
                    assert(keys@[j].model() == x);
                }
            }
            assert(path_set(above@) =~= left);
        }
        above
    }

    /// Computes the root hash.
    ///
    /// The changed lower subtries are hashed first, then the nodes above them. Where nothing has
    /// changed, the hashes that nodes keep are used. If those are right, the result is the Merkle
    /// root that the trie stands for, and the hashes that are newly kept are right too. A hash that
    /// is not right does no harm in a whole trie, if a changed key touches its node.
    ///
    /// It can be computed again, and is the same as long as the trie does not change.
    ///
    /// If updates are recorded, what became of every changed branch that this goes through is.
    pub fn root(&mut self) -> (hash: B256)
        requires
            old(self).well_formed(),
            old(self)@.root_ready(),
        ensures
            final(self).well_formed(),
            hash.model() == old(self)@.root_hash(),
            final(self)@ == old(self)@.rooted(),
            old(self)@.hashes_right() ==> hash.model() == old(self)@.merkle_root(),
            old(self)@.whole() && old(self)@.right_but_touched() ==> hash.model() == old(
                self,
            )@.merkle_root(),
            old(self)@.hashes_right() ==> forall|path: Seq<u8>| #[trigger]
                old(self)@.root_visits(path) ==> final(self)@.kept_right(path),
            old(self)@.true_hashes() ==> final(self)@.true_hashes(),
            old(self)@.sound() ==> final(self)@.sound(),
            old(self)@.whole() ==> final(self)@.whole(),
            final(self)@.root_ready(),
            final(self)@.root_hash() == hash.model(),
            forall|path: Seq<u8>| #[trigger]
                old(self)@.root_records(path) ==> old(self)@.updates_at(final(self)@, path) is Some
                    && noted(
                    old(self)@.run_at(path),
                    old(self)@.updates_at(old(self)@, path)->0,
                    old(self)@.updates_at(final(self)@, path)->0,
                    path,
                ),
    {
        proof {
            lemma_placed(*self);
            lemma_upper_hashable(self@);
        }
        // The nodes of the upper subtrie have changed with the lower ones that are below them.
        let heads = self.prefix_set.heads();
        let above = self.keys_above();
        self.update_lower_subtrie_hashes();
        let mut keys = PrefixSetMut::default();
        core::mem::swap(&mut keys, &mut self.prefix_set);
        keys.extend_keys(heads);
        keys.extend_keys(above);
        proof {
            assert(keys@.frozen() =~= old(self)@.upper_keys()) by {
                if !old(self)@.prefix.all {
                    let t = old(self)@;
                    assert forall|key: Seq<u8>| #[trigger] t.remaining(t.prefix).keys.contains(
                        key,
                    ) implies !t.in_rehashed(t.prefix, key) by {
                        if t.in_rehashed(t.prefix, key) {
                            let i = choose|i: int| #[trigger]
                                t.rehashed(t.prefix, i) && t.lower_root(i).is_prefix_of(key);
                            assert(t.changed(t.prefix, i));
                        }
                    }
                    assert(keys@.keys =~= t.upper_keys().keys);
                } else {
                    assert(old(self)@.prefix.frozen().heads() =~= Set::empty());
                    assert(old(self)@.upper_keys().keys =~= Set::empty());
                }
            }
        }
        let ghost lower = old(self)@.lower_hashed();
        let mut prefix_set = keys.freeze();
        proof {
            lemma_prefix_apart(lower, self@, prefix_set@);
        }
        let root_rlp = self.update_upper_subtrie_hashes(&mut prefix_set);
        proof {
            let t = old(self)@;
            if t.whole() && t.right_but_touched() {
                lemma_right_but_touched(t);
            }
            if t.hashes_right() {
                assert(t.root_visits(Seq::empty()));
                lemma_root_encoded(t, Seq::empty());
                assert forall|path: Seq<u8>| #[trigger] t.root_visits(path) implies self@.kept_right(
                    path,
                ) by {
                    lemma_rooted_right(t, path);
                }
            }
            if t.true_hashes() {
                lemma_rooted_true(t);
            }
            lemma_root_again(t);
            assert forall|path: Seq<u8>| #[trigger] t.root_records(path) implies t.updates_at(
                t.rooted(),
                path,
            ) is Some && noted(
                t.run_at(path),
                t.updates_at(t, path)->0,
                t.updates_at(t.rooted(), path)->0,
                path,
            ) by {
                lemma_recorded(t, path);
            }
            if t.sound() {
                lemma_rooted_alike(t);
                lemma_alike_sound(t, t.rooted());
            }
            if t.whole() {
                lemma_alike_whole(t, t.rooted());
            }
        }
        match root_rlp.as_hash() {
            Some(hash) => hash,
            None => hash_of(root_rlp.as_slice()),
        }
    }
}

/// A trie that is well formed has its subtries in place.
pub proof fn lemma_placed(trie: ParallelSparseTrie)
    requires
        trie.well_formed(),
    ensures
        trie@.placed(),
{
    assert forall|i: int| 0 <= i < NUM_LOWER_SUBTRIES implies ((#[trigger] trie@.lower[i]) matches Some(
        subtrie,
    ) ==> lower_path(i).is_prefix_of(subtrie.path)) by {
        assert(lower_well_formed(i, trie.lower_subtries@[i]));
    }
}

/// Hashing a trie from its root does not ask for its own changed keys.
proof fn lemma_prefix_apart(a: TrieModel, b: TrieModel, prefix: PrefixModel)
    requires
        b == (TrieModel { prefix: b.prefix, ..a }),
    ensures
        a.hashing(prefix) == b.hashing(prefix),
        b.upper_hashed(prefix) == (TrieModel { prefix: b.prefix, ..a.upper_hashed(prefix) }),
{
    assert(a.all_nodes() =~= b.all_nodes()) by {
        assert forall|path: Seq<u8>| a.has_node(path) == b.has_node(path) && a.node(path) == b.node(
            path,
        ) by {}
    }
    let f = a.hashing(prefix).source;
    let g = b.hashing(prefix).source;
    assert(f =~= g);
    let nodes = a.hashing(prefix).hashed_nodes(Seq::empty());
    assert(b.with_nodes(nodes).upper.nodes =~= a.with_nodes(nodes).upper.nodes);
    assert(b.with_nodes(nodes).lower =~= a.with_nodes(nodes).lower);
}

}
