//! A subtrie: its nodes, what it keeps beside them, and the hashing of its nodes.

use crate::hash_run::{
    cost, headed_run, lemma_end, lemma_nibbles_below, lemma_start, lemma_step, run_start,
    run_step, running, Run,
};
use crate::hashing::{
    all_headed, asked, branch_stored, encode, encoded_node, fresh, fresh_kids, hash_mask_from,
    hashes_from, kid_paths, kid_rlps, latest, mask_has, mask_nonempty, ready, record_branch,
    rlp_step, step_ok, tree_mask_from, Encoded, Hashing, PathItem, RlpItem, Source, StepState,
};
use crate::model::{child_nibbles, headed, nibbles_below, Model, NodeModel};
use crate::node::{SparseNode, SparseNodeType};
use crate::outside::{
    all_hash_bytes, child_path_at, child_paths, child_rlps, clear_child_paths,
    count_child_paths, empty_root_hash, encode_branch, encode_extension, encode_leaf,
    new_compact_branch, no_child_paths, no_child_rlps, push_child_path, resize_child_rlps,
    same_path, set_child_rlp, ChildPaths, ChildRlps, MAX_PATH_LEN,
};
use crate::path::SparseSubtrieType;
use crate::path_map::PathMap;
use crate::prefix_set::{PrefixModel, PrefixSet};
use crate::trie::root_after;
use crate::updates::{updates_of, SparseTrieUpdates, UpdatesModel};
use alloy_primitives::B256;
use alloy_trie::{Nibbles, TrieMask};
use alloy_trie::nodes::RlpNode;
use vstd::prelude::*;

verus! {

/// A node that waits for being encoded.
#[derive(Clone, PartialEq, Eq, Debug)]
pub struct RlpNodePathStackItem {
    /// The path of the node.
    pub path: Nibbles,
    /// Whether the path is in the prefix set, if that has been asked.
    pub is_in_prefix_set: Option<bool>,
}

impl Model for RlpNodePathStackItem {
    type M = PathItem;

    open spec fn model(&self) -> PathItem {
        PathItem { path: self.path.model(), touched: self.is_in_prefix_set }
    }
}

/// An encoded node that waits for its parent.
#[derive(Clone, PartialEq, Eq, Debug)]
pub struct RlpNodeStackItem {
    /// The path of the node.
    pub path: Nibbles,
    /// The RLP of the node.
    pub rlp_node: RlpNode,
    /// The kind of the node.
    pub node_type: SparseNodeType,
}

impl Model for RlpNodeStackItem {
    type M = RlpItem;

    open spec fn model(&self) -> RlpItem {
        RlpItem { path: self.path.model(), rlp: self.rlp_node.model(), kind: self.node_type }
    }
}

/// Buffers for hashing a subtrie, kept for being used again.
#[derive(Clone, PartialEq, Eq, Debug)]
pub struct SparseSubtrieBuffers {
    /// The nodes that wait for being encoded.
    pub path_stack: Vec<RlpNodePathStackItem>,
    /// The encoded nodes that wait for their parents.
    pub rlp_node_stack: Vec<RlpNodeStackItem>,
    /// The paths of the children of a branch.
    pub branch_child_buf: ChildPaths,
    /// The RLP of the children of a branch.
    pub branch_value_stack_buf: ChildRlps,
    /// The RLP of a node.
    pub rlp_buf: Vec<u8>,
}

impl Default for SparseSubtrieBuffers {
    fn default() -> (buffers: Self)
        ensures
            buffers.idle(),
    {
        SparseSubtrieBuffers {
            path_stack: Vec::new(),
            rlp_node_stack: Vec::new(),
            branch_child_buf: no_child_paths(),
            branch_value_stack_buf: no_child_rlps(),
            rlp_buf: Vec::new(),
        }
    }
}

impl SparseSubtrieBuffers {
    /// The nodes that wait for being encoded.
    pub open spec fn paths(&self) -> Seq<PathItem> {
        self.path_stack@.map_values(|item: RlpNodePathStackItem| item.model())
    }

    /// The encoded nodes that wait for their parents.
    pub open spec fn rlps(&self) -> Seq<RlpItem> {
        self.rlp_node_stack@.map_values(|item: RlpNodeStackItem| item.model())
    }

    /// No node waits: hashing is not under way.
    pub open spec fn idle(&self) -> bool {
        self.path_stack@.len() == 0 && self.rlp_node_stack@.len() == 0
    }
}

/// What a subtrie keeps beside its nodes.
#[derive(Clone, PartialEq, Eq, Debug)]
pub struct SparseSubtrieInner {
    /// For a branch, the children below which the database keeps a branch.
    pub branch_node_tree_masks: PathMap<TrieMask>,
    /// For a branch, the children that the database keeps as a hash.
    pub branch_node_hash_masks: PathMap<TrieMask>,
    /// The values of the leaves, by their full paths.
    pub values: PathMap<Vec<u8>>,
    /// The updates, if they are recorded.
    pub updates: Option<SparseTrieUpdates>,
    /// Buffers for hashing.
    pub buffers: SparseSubtrieBuffers,
}

impl Default for SparseSubtrieInner {
    fn default() -> (inner: Self)
        ensures
            inner.source() == (Source {
                values: Map::empty(),
                tree_masks: Map::empty(),
                hash_masks: Map::empty(),
            }),
            inner.updates is None,
            inner.buffers.idle(),
    {
        SparseSubtrieInner {
            branch_node_tree_masks: PathMap::new(),
            branch_node_hash_masks: PathMap::new(),
            values: PathMap::new(),
            updates: None,
            buffers: SparseSubtrieBuffers::default(),
        }
    }
}

/// The source that a node is encoded with: that of the subtrie which holds it.
pub open spec fn owner_source(inner: SparseSubtrieInner, owner: Option<&SparseSubtrieInner>) -> Source {
    match owner {
        Some(other) => other.source(),
        None => inner.source(),
    }
}

impl SparseSubtrieInner {
    /// The values and masks.
    pub open spec fn source(&self) -> Source {
        Source {
            values: self.values@,
            tree_masks: self.branch_node_tree_masks@,
            hash_masks: self.branch_node_hash_masks@,
        }
    }

    /// What a step of hashing works on, at the given node.
    pub open spec fn step_state(&self, node: NodeModel) -> StepState {
        StepState {
            node,
            updates: updates_of(self.updates),
            paths: self.buffers.paths(),
            rlps: self.buffers.rlps(),
        }
    }

    /// Returns true if the latest encoded node is the one at the given path.
    fn latest_is(&self, path: &Nibbles) -> (yes: bool)
        ensures
            yes == (self.buffers.rlps().len() > 0 && self.buffers.rlps().last().path
                == path.model()),
    {
        let len = self.buffers.rlp_node_stack.len();
        len > 0 && same_path(&self.buffers.rlp_node_stack[len - 1].path, path)
    }

    /// Puts an encoded node on the stack.
    fn push_rlp(&mut self, path: Nibbles, rlp_node: RlpNode, node_type: SparseNodeType)
        ensures
            final(self).buffers.rlps() == old(self).buffers.rlps().push(
                RlpItem { path: path.model(), rlp: rlp_node.model(), kind: node_type },
            ),
            final(self).buffers.paths() == old(self).buffers.paths(),
            final(self).source() == old(self).source(),
            final(self).updates == old(self).updates,
    {
        self.buffers.rlp_node_stack.push(RlpNodeStackItem { path, rlp_node, node_type });
        assert(self.buffers.rlps() =~= old(self).buffers.rlps().push(
            RlpItem { path: path.model(), rlp: rlp_node.model(), kind: node_type },
        ));
    }

    /// Puts a waiting node on the stack.
    fn push_path(&mut self, path: Nibbles, is_in_prefix_set: Option<bool>)
        ensures
            final(self).buffers.paths() == old(self).buffers.paths().push(
                PathItem { path: path.model(), touched: is_in_prefix_set },
            ),
            final(self).buffers.rlps() == old(self).buffers.rlps(),
            final(self).buffers.branch_child_buf == old(self).buffers.branch_child_buf,
            final(self).source() == old(self).source(),
            final(self).updates == old(self).updates,
    {
        self.buffers.path_stack.push(RlpNodePathStackItem { path, is_in_prefix_set });
        assert(self.buffers.paths() =~= old(self).buffers.paths().push(
            PathItem { path: path.model(), touched: is_in_prefix_set },
        ));
    }

    /// Takes the latest encoded node off the stack.
    fn pop_rlp(&mut self) -> (item: RlpNodeStackItem)
        requires
            old(self).buffers.rlps().len() > 0,
        ensures
            item.model() == old(self).buffers.rlps().last(),
            final(self).buffers.rlps() == old(self).buffers.rlps().drop_last(),
            final(self).buffers.paths() == old(self).buffers.paths(),
            final(self).buffers.branch_child_buf == old(self).buffers.branch_child_buf,
            final(self).buffers.branch_value_stack_buf == old(
                self,
            ).buffers.branch_value_stack_buf,
            final(self).source() == old(self).source(),
            final(self).updates == old(self).updates,
    {
        let item = self.buffers.rlp_node_stack.pop().unwrap();
        assert(self.buffers.rlps() =~= old(self).buffers.rlps().drop_last());
        item
    }

    /// Collects the paths of the children of a branch, the last child first.
    fn collect_children(&mut self, path: Nibbles, state_mask: TrieMask)
        requires
            path.model().len() < MAX_PATH_LEN || child_nibbles(state_mask.model()).len() == 0,
        ensures
            child_paths(final(self).buffers.branch_child_buf) == child_nibbles(
                state_mask.model(),
            ).reverse().map_values(|n: u8| path.model().push(n)),
            final(self).buffers.paths() == old(self).buffers.paths(),
            final(self).buffers.rlps() == old(self).buffers.rlps(),
            final(self).source() == old(self).source(),
            final(self).updates == old(self).updates,
    {
        clear_child_paths(&mut self.buffers.branch_child_buf);
        let ghost p = path.model();
        let ghost mask = state_mask.model();
        let ghost mut got = Seq::<u8>::empty();
        let mut bit: u8 = 16;
        assert(nibbles_below(mask, 16) + got.reverse() =~= child_nibbles(mask));
        assert(child_paths(self.buffers.branch_child_buf) =~= got.map_values(|n: u8| p.push(n)));
        while bit > 0
            invariant
                bit <= 16,
                p == path.model(),
                mask == state_mask.model(),
                p.len() < MAX_PATH_LEN || child_nibbles(mask).len() == 0,
                nibbles_below(mask, bit as int) + got.reverse() == child_nibbles(mask),
                child_paths(self.buffers.branch_child_buf) == got.map_values(|n: u8| p.push(n)),
                self.buffers.path_stack == old(self).buffers.path_stack,
                self.buffers.rlp_node_stack == old(self).buffers.rlp_node_stack,
                self.source() == old(self).source(),
                self.updates == old(self).updates,
            decreases bit,
        {
            let ghost below = nibbles_below(mask, bit - 1);
            bit -= 1;
            if state_mask.is_bit_set(bit) {
                proof {
                    assert(nibbles_below(mask, bit + 1) == below.push(bit));
                    assert((below.push(bit) + got.reverse()).len() > 0);
                    assert(below + got.push(bit).reverse() =~= below.push(bit) + got.reverse());
                    assert(got.push(bit).map_values(|n: u8| p.push(n)) =~= got.map_values(
                        |n: u8| p.push(n),
                    ).push(p.push(bit)));
                    got = got.push(bit);
                }
                let mut child = path;
                child.push_unchecked(bit);
                push_child_path(&mut self.buffers.branch_child_buf, child);
            }
        }
        assert(nibbles_below(mask, 0) + got.reverse() =~= got.reverse());
        assert(got =~= child_nibbles(mask).reverse());
    }

    /// Leaves a branch waiting for its children, which have been collected.
    fn defer_branch(&mut self, path: Nibbles, touched: bool, kids: Ghost<Seq<Seq<u8>>>)
        requires
            child_paths(old(self).buffers.branch_child_buf) == kids@.reverse(),
        ensures
            final(self).buffers.paths() == old(self).buffers.paths().push(
                PathItem { path: path.model(), touched: Some(touched) },
            ) + fresh_kids(kids@),
            final(self).buffers.rlps() == old(self).buffers.rlps(),
            final(self).source() == old(self).source(),
            final(self).updates == old(self).updates,
    {
        self.push_path(path, Some(touched));
        let ghost held = self.buffers.paths();
        let count = count_child_paths(&self.buffers.branch_child_buf);
        let mut i: usize = 0;
        assert(held + fresh_kids(kids@).take(0) =~= held);
        while i < count
            invariant
                i <= count,
                count == kids@.len(),
                child_paths(self.buffers.branch_child_buf) == kids@.reverse(),
                self.buffers.paths() == held + fresh_kids(kids@).take(i as int),
                self.buffers.rlps() == old(self).buffers.rlps(),
                self.source() == old(self).source(),
                self.updates == old(self).updates,
            decreases count - i,
        {
            let child_path = child_path_at(&self.buffers.branch_child_buf, i);
            self.push_path(child_path, None);
            proof {
                let items = fresh_kids(kids@);
                assert(items[i as int] == fresh(child_path.model()));
                assert(items.take(i + 1) =~= items.take(i as int).push(items[i as int]));
                assert(held + items.take(i + 1) =~= (held + items.take(i as int)).push(
                    items[i as int],
                ));
            }
            i += 1;
        }
        assert(fresh_kids(kids@).take(i as int) =~= fresh_kids(kids@));
        clear_child_paths(&mut self.buffers.branch_child_buf);
    }

    /// Takes the encoded children of a branch, which have been collected, off the stack, unless
    /// they are not the latest encoded nodes. With `record`, finds the masks and the hashes that
    /// the database keeps of the branch.
    fn gather_children(
        &mut self,
        path: &Nibbles,
        state_mask: TrieMask,
        record: bool,
        owner: Option<&SparseSubtrieInner>,
    ) -> (gathered: Option<BranchParts>)
        requires
            child_paths(old(self).buffers.branch_child_buf) == child_nibbles(
                state_mask.model(),
            ).reverse().map_values(|n: u8| path.model().push(n)),
            ({
                let kids = branch_kids(path.model(), state_mask.model());
                let rlps = old(self).buffers.rlps();
                ready(rlps, kids) || rlps.len() == 0 || rlps.last().path != kids.last()
            }),
        ensures
            final(self).buffers.paths() == old(self).buffers.paths(),
            final(self).source() == old(self).source(),
            final(self).updates == old(self).updates,
            gathered is Some == ready(
                old(self).buffers.rlps(),
                branch_kids(path.model(), state_mask.model()),
            ),
            match gathered {
                None => {
                    &&& final(self).buffers.rlps() == old(self).buffers.rlps()
                    &&& final(self).buffers.branch_child_buf == old(self).buffers.branch_child_buf
                },
                Some(parts) => {
                    let nibbles = child_nibbles(state_mask.model());
                    let rlps = old(self).buffers.rlps();
                    let kids = latest(rlps, nibbles.len() as int);
                    let src = owner_source(*old(self), owner);
                    &&& final(self).buffers.rlps() == rlps.take(rlps.len() - nibbles.len())
                    &&& child_rlps(final(self).buffers.branch_value_stack_buf) == kid_rlps(kids)
                    &&& record ==> parts.tree_mask.model() == tree_mask_from(
                        src,
                        path.model(),
                        nibbles,
                        kids,
                        0,
                    )
                    &&& record ==> parts.hash_mask.model() == hash_mask_from(
                        src,
                        path.model(),
                        nibbles,
                        kids,
                        0,
                    )
                    &&& record ==> all_hash_bytes(parts.hashes@) == hashes_from(
                        src,
                        path.model(),
                        nibbles,
                        kids,
                        0,
                    ).reverse()
                },
            },
    {
        let ghost p = path.model();
        let ghost nibbles = child_nibbles(state_mask.model());
        let ghost kids = branch_kids(p, state_mask.model());
        let ghost rlps = old(self).buffers.rlps();
        let ghost encoded = latest(rlps, nibbles.len() as int);
        let ghost src = owner_source(*old(self), owner);
        let count = count_child_paths(&self.buffers.branch_child_buf);
        resize_child_rlps(&mut self.buffers.branch_value_stack_buf, count);
        let mut tree_mask = TrieMask::default();
        let mut hash_mask = TrieMask::default();
        let mut hashes: Vec<B256> = Vec::new();
        let mut i: usize = 0;
        proof {
            lemma_nibbles_below(state_mask.model(), 16);
            assert(rlps.take(rlps.len() as int) =~= rlps);
            assert(all_hash_bytes(hashes@) =~= Seq::<Seq<u8>>::empty().reverse());
        }
        while i < count
            invariant
                i <= count,
                count == nibbles.len(),
                count == kids.len(),
                p == path.model(),
                nibbles == child_nibbles(state_mask.model()),
                kids == branch_kids(p, state_mask.model()),
                encoded == latest(rlps, nibbles.len() as int),
                rlps == old(self).buffers.rlps(),
                src == owner_source(*old(self), owner),
                forall|j: int| 0 <= j < nibbles.len() ==> (#[trigger] nibbles[j]) < 16,
                child_paths(self.buffers.branch_child_buf) == nibbles.reverse().map_values(
                    |n: u8| p.push(n),
                ),
                self.buffers.branch_child_buf == old(self).buffers.branch_child_buf,
                ready(rlps, kids) || rlps.len() == 0 || rlps.last().path != kids.last(),
                i > 0 ==> ready(rlps, kids),
                i <= rlps.len(),
                self.buffers.rlps() == rlps.take(rlps.len() - i),
                self.buffers.paths() == old(self).buffers.paths(),
                self.source() == old(self).source(),
                self.updates == old(self).updates,
                child_rlps(self.buffers.branch_value_stack_buf).len() == count,
                forall|j: int|
                    count - i <= j < count ==> #[trigger] child_rlps(
                        self.buffers.branch_value_stack_buf,
                    )[j] == encoded[j].rlp,
                record ==> tree_mask.model() == tree_mask_from(src, p, nibbles, encoded, count - i),
                record ==> hash_mask.model() == hash_mask_from(src, p, nibbles, encoded, count - i),
                record ==> all_hash_bytes(hashes@) == hashes_from(
                    src,
                    p,
                    nibbles,
                    encoded,
                    count - i,
                ).reverse(),
            decreases count - i,
        {
            let child_path = child_path_at(&self.buffers.branch_child_buf, i);
            let ghost place = count - i - 1;
            assert(child_path.model() == kids[place]);
            if !self.latest_is(&child_path) {
                proof {
                    if ready(rlps, kids) {
                        assert(rlps[rlps.len() - kids.len() + place].path == kids[place]);
                    }
                    assert(i == 0);
                    assert(rlps.take(rlps.len() - i) =~= rlps);
                }
                return None;
            }
            proof {
                if i == 0 {
                    assert(rlps.take(rlps.len() - i) =~= rlps);
                    assert(rlps.last().path == kids.last());
                }
                assert(ready(rlps, kids));
            }
            let item = self.pop_rlp();
            proof {
                assert(rlps.take(rlps.len() - i).drop_last() =~= rlps.take(rlps.len() - (i + 1)));
                assert(item.model() == rlps[rlps.len() - i - 1]);
                assert(encoded[place] == item.model().encoded());
            }
            let child = item.rlp_node;
            if record {
                let nibble = child_path.get_unchecked(path.len());
                assert(nibble == nibbles[place]);
                let (tree_masks, hash_masks) = match owner {
                    Some(other) => (&other.branch_node_tree_masks, &other.branch_node_hash_masks),
                    None => (&self.branch_node_tree_masks, &self.branch_node_hash_masks),
                };
                let in_tree = match item.node_type.store_in_db_trie() {
                    Some(store) => store,
                    // A blinded node has the bit that the database gave it.
                    None => item.node_type.is_hash() && bit_at(tree_masks, path, nibble),
                };
                if in_tree {
                    tree_mask.set_bit(nibble);
                }
                if item.node_type.is_branch() || (item.node_type.is_hash() && bit_at(
                    hash_masks,
                    path,
                    nibble,
                )) {
                    if let Some(hash) = child.as_hash() {
                        let ghost before = hashes@;
                        hash_mask.set_bit(nibble);
                        hashes.push(hash);
                        proof {
                            let rest = hashes_from(src, p, nibbles, encoded, place + 1);
                            assert((seq![hash.model()] + rest).reverse() =~= rest.reverse().push(
                                hash.model(),
                            ));
                            assert(all_hash_bytes(hashes@) =~= all_hash_bytes(before).push(
                                hash.model(),
                            ));
                        }
                    }
                }
            }
            // The children were collected last one first.
            set_child_rlp(&mut self.buffers.branch_value_stack_buf, count - i - 1, child);
            i += 1;
        }
        proof {
            assert(kids.len() == 0 ==> ready(rlps, kids));
            assert(child_rlps(self.buffers.branch_value_stack_buf) =~= kid_rlps(encoded));
        }
        Some(BranchParts { tree_mask, hash_mask, hashes })
    }
}

impl SparseSubtrieInner {
    /// Records what became of a branch that is not the root, and returns whether it is stored.
    fn record_branch_update(
        &mut self,
        path: Nibbles,
        state_mask: TrieMask,
        parts: BranchParts,
        owner: Option<&SparseSubtrieInner>,
        kids: Ghost<Seq<Encoded>>,
    ) -> (store: bool)
        requires
            old(self).updates is Some,
            path.model().len() > 0,
            kids@.len() == child_nibbles(state_mask.model()).len(),
            ({
                let nibbles = child_nibbles(state_mask.model());
                let src = owner_source(*old(self), owner);
                &&& parts.tree_mask.model() == tree_mask_from(src, path.model(), nibbles, kids@, 0)
                &&& parts.hash_mask.model() == hash_mask_from(src, path.model(), nibbles, kids@, 0)
                &&& all_hash_bytes(parts.hashes@) == hashes_from(
                    src,
                    path.model(),
                    nibbles,
                    kids@,
                    0,
                ).reverse()
            }),
        ensures
            ({
                let src = owner_source(*old(self), owner);
                let mask = state_mask.model();
                &&& store == branch_stored(src, path.model(), mask, kids@)
                &&& updates_of(final(self).updates) == Some(
                    record_branch(
                        src,
                        path.model(),
                        NodeModel::new_branch(mask),
                        kids@,
                        updates_of(old(self).updates)->0,
                    ),
                )
            }),
            final(self).source() == old(self).source(),
            final(self).buffers == old(self).buffers,
    {
        let BranchParts { tree_mask, hash_mask, hashes } = parts;
        let store = !tree_mask.is_empty() || !hash_mask.is_empty();
        let was = match owner {
            Some(other) => has_bits(&other.branch_node_tree_masks, &path) || has_bits(
                &other.branch_node_hash_masks,
                &path,
            ),
            None => has_bits(&self.branch_node_tree_masks, &path) || has_bits(
                &self.branch_node_hash_masks,
                &path,
            ),
        };
        let ghost src = owner_source(*self, owner);
        let ghost nibbles = child_nibbles(state_mask.model());
        match &mut self.updates {
            Some(updates) => {
                if store {
                    let ghost given = all_hash_bytes(hashes@);
                    let hashes = reversed(hashes);
                    proof {
                        lemma_branch_masks(src, path.model(), state_mask.model(), kids@, 0);
                        let all = hashes_from(src, path.model(), nibbles, kids@, 0);
                        assert(all.reverse().reverse() =~= all);
                    }
                    let branch = new_compact_branch(state_mask, tree_mask, hash_mask, hashes, None);
                    updates.updated_nodes.insert(path, branch);
                } else if was {
                    // The branch was stored and is no more.
                    let _ = updates.updated_nodes.remove(&path);
                    updates.removed_nodes.insert(path);
                } else {
                    // The branch was not stored and is not now.
                    let _ = updates.updated_nodes.remove(&path);
                }
            },
            None => {},
        }
        store
    }
}

/// The hashes in reverse order.
fn reversed(hashes: Vec<B256>) -> (turned: Vec<B256>)
    ensures
        all_hash_bytes(turned@) == all_hash_bytes(hashes@).reverse(),
{
    let mut turned: Vec<B256> = Vec::new();
    let mut i: usize = hashes.len();
    while i > 0
        invariant
            i <= hashes@.len(),
            turned@.len() == hashes@.len() - i,
            forall|j: int|
                0 <= j < turned@.len() ==> #[trigger] turned@[j] == hashes@[hashes@.len() - 1 - j],
        decreases i,
    {
        i -= 1;
        turned.push(hashes[i]);
    }
    assert(all_hash_bytes(turned@) =~= all_hash_bytes(hashes@).reverse());
    turned
}

/// A nibble before all others of a mask comes first.
pub proof fn lemma_nibbles_insert(mask: Set<u8>, nibble: u8, bound: int)
    requires
        0 <= bound <= 16,
        forall|n: u8| mask.contains(n) ==> nibble < n,
    ensures
        nibbles_below(mask.insert(nibble), bound) == if nibble < bound {
            seq![nibble] + nibbles_below(mask, bound)
        } else {
            Seq::empty()
        },
        nibble >= bound ==> nibbles_below(mask, bound).len() == 0,
    decreases bound,
{
    if bound > 0 {
        lemma_nibbles_insert(mask, nibble, bound - 1);
        let last = (bound - 1) as u8;
        if nibble < bound - 1 {
            if mask.contains(last) {
                assert((seq![nibble] + nibbles_below(mask, bound - 1)).push(last) =~= seq![nibble]
                    + nibbles_below(mask, bound - 1).push(last));
            }
        } else if nibble == bound - 1 {
            assert(!mask.contains(last));
            assert(Seq::<u8>::empty().push(nibble) =~= seq![nibble] + Seq::<u8>::empty());
        } else {
            assert(!mask.contains(last));
        }
    }
}

/// The masks that the database keeps of a branch lie within its children, and there is one hash for
/// each nibble of the hash mask.
proof fn lemma_branch_masks(
    src: Source,
    path: Seq<u8>,
    mask: Set<u8>,
    kids: Seq<Encoded>,
    from: int,
)
    requires
        0 <= from <= child_nibbles(mask).len(),
        kids.len() == child_nibbles(mask).len(),
    ensures
        ({
            let nibbles = child_nibbles(mask);
            let tree = tree_mask_from(src, path, nibbles, kids, from);
            let hash = hash_mask_from(src, path, nibbles, kids, from);
            &&& tree.subset_of(mask)
            &&& hash.subset_of(mask)
            &&& forall|n: u8| hash.contains(n) ==> exists|i: int|
                from <= i < nibbles.len() && #[trigger] nibbles[i] == n
            &&& child_nibbles(hash).len() == hashes_from(src, path, nibbles, kids, from).len()
        }),
    decreases child_nibbles(mask).len() - from,
{
    let nibbles = child_nibbles(mask);
    lemma_nibbles_below(mask, 16);
    if from < nibbles.len() {
        lemma_branch_masks(src, path, mask, kids, from + 1);
        let rest = hash_mask_from(src, path, nibbles, kids, from + 1);
        assert forall|n: u8| rest.contains(n) implies nibbles[from] < n by {
            let i = choose|i: int| from + 1 <= i < nibbles.len() && #[trigger] nibbles[i] == n;
            assert(nibbles[from] < nibbles[i]);
        }
        lemma_nibbles_insert(rest, nibbles[from], 16);
    } else {
        lemma_no_nibbles(16);
    }
}

/// The empty mask has no nibbles.
pub proof fn lemma_no_nibbles(bound: int)
    ensures
        nibbles_below(Set::<u8>::empty(), bound).len() == 0,
    decreases bound,
{
    if bound > 0 {
        lemma_no_nibbles(bound - 1);
    }
}

impl SparseSubtrieInner {
    /// Does one step of hashing, at the node of `stack_item`.
    ///
    /// A node is encoded from the hash it keeps, if nothing below it has changed; a leaf from its
    /// value; an extension or a branch from its children, if those are the latest encoded nodes.
    /// It then keeps its new hash and is put on the stack of encoded nodes. Otherwise it is put
    /// back on the stack of waiting nodes, with its children on top.
    ///
    /// `owner` is what the subtrie that holds the node keeps, if it is not this one.
    pub fn rlp_node(
        &mut self,
        prefix_set: &mut PrefixSet,
        stack_item: RlpNodePathStackItem,
        node: &mut SparseNode,
        owner: Option<&SparseSubtrieInner>,
    )
        requires
            old(prefix_set).well_formed(),
            step_ok(
                old(prefix_set)@,
                owner_source(*old(self), owner),
                stack_item.model(),
                old(self).step_state(old(node).model()),
            ),
        ensures
            final(prefix_set).well_formed(),
            final(prefix_set)@ == old(prefix_set)@,
            final(self).source() == old(self).source(),
            final(self).step_state(final(node).model()) == rlp_step(
                old(prefix_set)@,
                owner_source(*old(self), owner),
                stack_item.model(),
                old(self).step_state(old(node).model()),
            ),
            all_headed(old(self).buffers.rlps()) ==> all_headed(final(self).buffers.rlps()),
    {
        let path = stack_item.path;
        let ghost p = path.model();
        let ghost src = owner_source(*self, owner);
        let ghost before = self.step_state(node.model());
        let ghost rlps = self.buffers.rlps();
        match *node {
            SparseNode::Empty => {
                let rlp_node = RlpNode::word_rlp(&empty_root_hash());
                self.push_rlp(path, rlp_node, SparseNodeType::Empty);
            },
            SparseNode::Hash(hash) => {
                // A blinded node is known by its hash only.
                let rlp_node = RlpNode::word_rlp(&hash);
                self.push_rlp(path, rlp_node, SparseNodeType::Hash);
            },
            SparseNode::Leaf { key, hash } => {
                let mut full_path = path;
                full_path.extend(&key);
                let kept = match hash {
                    Some(hash) => if in_prefix_set(
                        prefix_set,
                        stack_item.is_in_prefix_set,
                        &full_path,
                    ) {
                        None
                    } else {
                        Some(hash)
                    },
                    None => None,
                };
                match kept {
                    Some(hash) => {
                        let rlp_node = RlpNode::word_rlp(&hash);
                        self.push_rlp(path, rlp_node, SparseNodeType::Leaf);
                    },
                    None => {
                        self.buffers.rlp_buf.clear();
                        let value = match owner {
                            Some(other) => other.values.get(&full_path),
                            None => self.values.get(&full_path),
                        };
                        let rlp_node = encode_leaf(
                            &key,
                            value.unwrap(),
                            &mut self.buffers.rlp_buf,
                        );
                        *node = SparseNode::Leaf { key, hash: rlp_node.as_hash() };
                        proof {
                            assert(ready(rlps, kid_paths(p, before.node)));
                            assert(rlps.take(rlps.len() as int) =~= rlps);
                        }
                        self.push_rlp(path, rlp_node, SparseNodeType::Leaf);
                    },
                }
            },
            SparseNode::Extension { key, hash, store_in_db_trie } => {
                let mut child_path = path;
                child_path.extend(&key);
                let touched = in_prefix_set(prefix_set, stack_item.is_in_prefix_set, &path);
                match (hash, store_in_db_trie) {
                    (Some(hash), Some(_)) if !touched => {
                        let rlp_node = RlpNode::word_rlp(&hash);
                        self.push_rlp(
                            path,
                            rlp_node,
                            SparseNodeType::Extension { store_in_db_trie },
                        );
                    },
                    _ => {
                        let ghost kids = kid_paths(p, before.node);
                        if self.latest_is(&child_path) {
                            assert(ready(rlps, kids)) by {
                                assert(rlps[rlps.len() - kids.len() + 0] == rlps.last());
                            }
                            let item = self.pop_rlp();
                            assert(rlps.drop_last() =~= rlps.take(rlps.len() - kids.len()));
                            assert(latest(rlps, 1)[0] == item.model().encoded());
                            self.buffers.rlp_buf.clear();
                            let rlp_node = encode_extension(
                                &key,
                                &item.rlp_node,
                                &mut self.buffers.rlp_buf,
                            );
                            // The flag is that of the branch below.
                            let store_in_db_trie = item.node_type.store_in_db_trie();
                            *node = SparseNode::Extension {
                                key,
                                hash: rlp_node.as_hash(),
                                store_in_db_trie,
                            };
                            self.push_rlp(
                                path,
                                rlp_node,
                                SparseNodeType::Extension { store_in_db_trie },
                            );
                        } else {
                            proof {
                                if ready(rlps, kids) {
                                    assert(rlps[rlps.len() - kids.len() + 0].path == kids[0]);
                                }
                            }
                            self.push_path(path, Some(touched));
                            self.push_path(child_path, None);
                            assert(self.buffers.paths() =~= before.paths.push(
                                PathItem { path: p, touched: Some(touched) },
                            ) + fresh_kids(kids));
                        }
                    },
                }
            },
            SparseNode::Branch { state_mask, hash, store_in_db_trie } => {
                let touched = in_prefix_set(prefix_set, stack_item.is_in_prefix_set, &path);
                match (hash, store_in_db_trie) {
                    (Some(hash), Some(_)) if !touched => {
                        let rlp_node = RlpNode::word_rlp(&hash);
                        self.push_rlp(path, rlp_node, SparseNodeType::Branch { store_in_db_trie });
                    },
                    _ => {
                        *node = self.rlp_branch(path, state_mask, touched, *node, owner);
                    },
                }
            },
        }
    }

    /// Does one step of hashing at a branch whose hash is not to be used, and returns the branch
    /// as it then is.
    fn rlp_branch(
        &mut self,
        path: Nibbles,
        state_mask: TrieMask,
        touched: bool,
        node: SparseNode,
        owner: Option<&SparseSubtrieInner>,
    ) -> (branch: SparseNode)
        requires
            node matches SparseNode::Branch { state_mask: mask, .. } && mask == state_mask,
            path.model().len() < MAX_PATH_LEN || child_nibbles(state_mask.model()).len() == 0,
            ({
                let kids = branch_kids(path.model(), state_mask.model());
                let rlps = old(self).buffers.rlps();
                ready(rlps, kids) || rlps.len() == 0 || rlps.last().path != kids.last()
            }),
        ensures
            final(self).source() == old(self).source(),
            ({
                let p = path.model();
                let rlps = old(self).buffers.rlps();
                let kids = branch_kids(p, state_mask.model());
                let src = owner_source(*old(self), owner);
                if ready(rlps, kids) {
                    let encoded_kids = latest(rlps, kids.len() as int);
                    let record = old(self).updates is Some && touched;
                    let encoded = encode(src, record, p, node.model(), encoded_kids);
                    &&& branch.model() == encoded_node(node.model(), encoded)
                    &&& updates_of(final(self).updates) == if record {
                        Some(
                            record_branch(
                                src,
                                p,
                                node.model(),
                                encoded_kids,
                                updates_of(old(self).updates)->0,
                            ),
                        )
                    } else {
                        updates_of(old(self).updates)
                    }
                    &&& final(self).buffers.paths() == old(self).buffers.paths()
                    &&& final(self).buffers.rlps() == rlps.take(rlps.len() - kids.len()).push(
                        RlpItem::of(p, encoded),
                    )
                    &&& headed(encoded.rlp)
                } else {
                    &&& branch == node
                    &&& updates_of(final(self).updates) == updates_of(old(self).updates)
                    &&& final(self).buffers.paths() == old(self).buffers.paths().push(
                        PathItem { path: p, touched: Some(touched) },
                    ) + fresh_kids(kids)
                    &&& final(self).buffers.rlps() == rlps
                }
            }),
    {
        let ghost p = path.model();
        let ghost kids = branch_kids(p, state_mask.model());
        let ghost rlps = self.buffers.rlps();
        let ghost encoded_kids = latest(rlps, kids.len() as int);
        let record = self.updates.is_some() && touched;
        self.collect_children(path, state_mask);
        let gathered = self.gather_children(&path, state_mask, record, owner);
        match gathered {
            None => {
                proof {
                    assert(child_nibbles(state_mask.model()).reverse().map_values(
                        |n: u8| p.push(n),
                    ) =~= kids.reverse());
                }
                self.defer_branch(path, touched, Ghost(kids));
                node
            },
            Some(parts) => {
                self.buffers.rlp_buf.clear();
                let rlp_node = encode_branch(
                    &self.buffers.branch_value_stack_buf,
                    state_mask,
                    &mut self.buffers.rlp_buf,
                );
                let store = if record && !path.is_empty() {
                    self.record_branch_update(
                        path,
                        state_mask,
                        parts,
                        owner,
                        Ghost(encoded_kids),
                    )
                } else {
                    false
                };
                let hash = rlp_node.as_hash();
                self.push_rlp(
                    path,
                    rlp_node,
                    SparseNodeType::Branch { store_in_db_trie: Some(store) },
                );
                SparseNode::Branch { state_mask, hash, store_in_db_trie: Some(store) }
            },
        }
    }
}

/// Returns true if a path is in the prefix set, given what is known of it.
fn in_prefix_set(prefix_set: &mut PrefixSet, known: Option<bool>, path: &Nibbles) -> (yes: bool)
    requires
        old(prefix_set).well_formed(),
    ensures
        final(prefix_set).well_formed(),
        final(prefix_set)@ == old(prefix_set)@,
        yes == asked(old(prefix_set)@, known, path.model()),
{
    match known {
        Some(yes) => yes,
        None => prefix_set.contains(path),
    }
}

/// The paths of the children of a branch.
pub open spec fn branch_kids(path: Seq<u8>, mask: Set<u8>) -> Seq<Seq<u8>> {
    child_nibbles(mask).map_values(|n: u8| path.push(n))
}

/// What the database keeps of a branch beside its children. The hashes are those of the hash mask,
/// the last one first.
struct BranchParts {
    tree_mask: TrieMask,
    hash_mask: TrieMask,
    hashes: Vec<B256>,
}

/// Returns true if the mask of a path has a nibble.
fn bit_at(masks: &PathMap<TrieMask>, path: &Nibbles, nibble: u8) -> (yes: bool)
    requires
        nibble < 16,
    ensures
        yes == mask_has(masks@, path.model(), nibble),
{
    match masks.get(path) {
        Some(mask) => mask.is_bit_set(nibble),
        None => false,
    }
}

/// Returns true if a path has a mask with nibbles.
fn has_bits(masks: &PathMap<TrieMask>, path: &Nibbles) -> (yes: bool)
    ensures
        yes == mask_nonempty(masks@, path.model()),
{
    match masks.get(path) {
        Some(mask) => !mask.is_empty(),
        None => false,
    }
}

/// The model of a subtrie.
#[verifier::ext_equal]
pub struct SubtrieModel {
    pub path: Seq<u8>,
    pub nodes: Map<Seq<u8>, NodeModel>,
    pub src: Source,
    pub updates: Option<UpdatesModel>,
}

impl SubtrieModel {
    /// The subtrie without nodes at a path.
    pub open spec fn empty(path: Seq<u8>) -> Self {
        SubtrieModel {
            path,
            nodes: Map::empty(),
            src: Source {
                values: Map::empty(),
                tree_masks: Map::empty(),
                hash_masks: Map::empty(),
            },
            updates: None,
        }
    }

    /// The subtrie that has nothing recorded, and records if `retain` says so.
    pub open spec fn with_updates(self, retain: bool) -> Self {
        SubtrieModel {
            updates: if retain {
                Some(UpdatesModel::none())
            } else {
                None
            },
            ..self
        }
    }

    /// The subtrie after its updates were taken: if it recorded, it goes on with nothing recorded.
    pub open spec fn updates_taken(self) -> Self {
        self.with_updates(self.updates is Some)
    }

    /// What hashing the subtrie starts from.
    pub open spec fn hashing(self, prefix: PrefixModel) -> Hashing {
        Hashing {
            prefix,
            recording: self.updates is Some,
            nodes: self.nodes,
            source: |path: Seq<u8>| self.src,
        }
    }

    /// The subtrie after its nodes were hashed.
    pub open spec fn hashed(self, prefix: PrefixModel) -> Self {
        SubtrieModel {
            nodes: self.hashing(prefix).hashed_nodes(self.path),
            updates: match self.updates {
                Some(updates) => Some(self.hashing(prefix).hashed_updates(self.path, updates)),
                None => None,
            },
            ..self
        }
    }

    /// The RLP of the root of the subtrie.
    pub open spec fn root_rlp(self, prefix: PrefixModel) -> Seq<u8> {
        self.hashing(prefix).encoded(self.path).rlp
    }

    /// Hashing the subtrie finds every node it needs.
    pub open spec fn hashable(self, prefix: PrefixModel) -> bool {
        self.hashing(prefix).hashable(self.path)
    }
}

/// A subtrie: a map from paths to nodes, and what is kept beside the nodes.
#[derive(Clone, PartialEq, Eq, Debug)]
pub struct SparseSubtrie {
    /// The full path of the root of the subtrie.
    ///
    /// That of a lower subtrie starts with the nibbles that subtries are indexed by. There is a node
    /// at it, unless the subtrie has none.
    pub path: Nibbles,
    /// The nodes by their full paths.
    pub nodes: PathMap<SparseNode>,
    /// What is kept beside the nodes.
    pub inner: SparseSubtrieInner,
}

impl Default for SparseSubtrie {
    fn default() -> (subtrie: Self)
        ensures
            subtrie@ == SubtrieModel::empty(Seq::empty()),
            subtrie.idle(),
    {
        Self::new(Nibbles::new())
    }
}

impl SparseSubtrie {
    /// The model of the subtrie.
    pub open spec fn view(&self) -> SubtrieModel {
        SubtrieModel {
            path: self.path.model(),
            nodes: self.nodes@,
            src: self.inner.source(),
            updates: updates_of(self.inner.updates),
        }
    }

    /// Hashing is not under way.
    pub open spec fn idle(&self) -> bool {
        self.inner.buffers.idle()
    }

    /// Creates a subtrie without nodes.
    pub fn new(path: Nibbles) -> (subtrie: Self)
        ensures
            subtrie@ == SubtrieModel::empty(path.model()),
            subtrie.idle(),
    {
        SparseSubtrie { path, nodes: PathMap::new(), inner: SparseSubtrieInner::default() }
    }

    /// Makes a path at which a node was revealed the path of the subtrie, if it is shorter than the
    /// one it has, or if there is no node at that one. The path of the upper subtrie stays.
    pub(crate) fn anchor(&mut self, path: Nibbles)
        ensures
            final(self)@ == (SubtrieModel {
                path: root_after(path.model(), old(self)@.ok()),
                ..old(self)@
            }),
            final(self).inner == old(self).inner,
    {
        if !SparseSubtrieType::path_len_is_upper(path.len()) && (path.len() < self.path.len()
            || !self.nodes.contains_key(&self.path)) {
            self.path = path;
        }
    }

    /// Configures the subtrie to record updates of branches, or not to.
    pub fn with_updates(self, retain_updates: bool) -> (subtrie: Self)
        ensures
            subtrie@ == self@.with_updates(retain_updates),
            self.idle() ==> subtrie.idle(),
    {
        let mut subtrie = self;
        subtrie.inner.updates = if retain_updates {
            Some(SparseTrieUpdates::default())
        } else {
            None
        };
        subtrie
    }

    /// Returns the updates recorded so far. If the subtrie recorded, it goes on with a new set of
    /// updates.
    pub fn take_updates(&mut self) -> (updates: SparseTrieUpdates)
        ensures
            updates@ == match old(self)@.updates {
                Some(recorded) => recorded,
                None => UpdatesModel::none(),
            },
            final(self)@ == old(self)@.updates_taken(),
            old(self).idle() ==> final(self).idle(),
    {
        match self.inner.updates.take() {
            Some(updates) => {
                self.inner.updates = Some(SparseTrieUpdates::default());
                updates
            },
            None => SparseTrieUpdates::default(),
        }
    }

    /// Computes the RLP of the root of the subtrie, and the hashes of all nodes that this goes
    /// through.
    ///
    /// It starts at the root, goes down to the leaves, and encodes the nodes from the leaves back
    /// up to the root. A node whose path is in the prefix set is encoded anew.
    pub fn update_hashes(&mut self, prefix_set: &mut PrefixSet) -> (rlp_node: RlpNode)
        requires
            old(self).idle(),
            old(prefix_set).well_formed(),
            old(self)@.hashable(old(prefix_set)@),
        ensures
            rlp_node.model() == old(self)@.root_rlp(old(prefix_set)@),
            final(self)@ == old(self)@.hashed(old(prefix_set)@),
            final(self).idle(),
            final(prefix_set).well_formed(),
            final(prefix_set)@ == old(prefix_set)@,
            old(self)@.hashing(old(prefix_set)@).headed_from(old(self)@.path),
    {
        let ghost h = self@.hashing(prefix_set@);
        let ghost root = self.path.model();
        let ghost before = updates_of(self.inner.updates);
        self.inner.push_path(self.path, None);
        proof {
            lemma_start(h, root, before);
            assert(self.run() =~= run_start(h, root, before));
        }
        while self.inner.buffers.path_stack.len() > 0
            invariant
                h == old(self)@.hashing(old(prefix_set)@),
                h.hashable(root),
                root == old(self).path.model(),
                before == updates_of(old(self).inner.updates),
                running(h, root, before, self.run()),
                headed_run(h, root, self.run()),
                self.path == old(self).path,
                self.inner.source() == old(self).inner.source(),
                prefix_set.well_formed(),
                prefix_set@ == old(prefix_set)@,
            decreases cost(self.run().paths),
        {
            let ghost r = self.run();
            proof {
                lemma_step(h, root, before, r);
            }
            let stack_item = self.inner.buffers.path_stack.pop().unwrap();
            let path = stack_item.path;
            assert(self.inner.buffers.paths() =~= r.paths.drop_last());
            assert(stack_item.model() == r.paths.last());
            let node = self.nodes.get_mut(&path).unwrap();
            self.inner.rlp_node(prefix_set, stack_item, node, None);
            assert(self.run() =~= run_step(h, r));
        }
        proof {
            lemma_end(h, root, before, self.run());
        }
        let root_item = self.inner.pop_rlp();
        assert(self.inner.buffers.paths().len() == 0);
        assert(self.inner.buffers.rlps().len() == 0);
        root_item.rlp_node
    }

    /// The state of hashing.
    spec fn run(&self) -> Run {
        Run {
            paths: self.inner.buffers.paths(),
            rlps: self.inner.buffers.rlps(),
            nodes: self.nodes@,
            updates: updates_of(self.inner.updates),
        }
    }
}

}
