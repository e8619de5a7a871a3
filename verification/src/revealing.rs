//! Revealing nodes of a subtrie.

use crate::error::{outcome, ErrorModel, SparseTrieErrorKind, SparseTrieResult};
use crate::hashing::Source;
use crate::model::{
    child_nibbles, model_seq, nibbles_below, MasksModel, Model, NodeModel, TrieNodeModel,
};
use crate::node::{SparseNode, TrieMasks, TrieNode};
use crate::order::{lemma_prefix_pointwise, lemma_prefix_transitive};
use crate::outside::{decode_node, decoded_node, hash_after_header, same_hash, MAX_PATH_LEN};
use crate::path::{is_upper, SparseSubtrieType};
use crate::subtrie::{SparseSubtrie, SubtrieModel};
use alloy_primitives::B256;
use alloy_trie::Nibbles;
use vstd::prelude::*;

verus! {

/// Whether two paths belong both to the upper subtrie or both to lower ones.
pub open spec fn same_level(a: Seq<u8>, b: Seq<u8>) -> bool {
    is_upper(a) == is_upper(b)
}

/// One more than the length of the longest item, or nothing without items.
pub open spec fn widest(items: Seq<Seq<u8>>) -> nat
    decreases items.len(),
{
    if items.len() == 0 {
        0
    } else {
        let rest = widest(items.drop_last());
        let last = items.last().len() + 1;
        if rest < last {
            last
        } else {
            rest
        }
    }
}

/// Every item is shorter than the bound.
pub proof fn lemma_widest(items: Seq<Seq<u8>>, i: int)
    requires
        0 <= i < items.len(),
    ensures
        items[i].len() < widest(items),
    decreases items.len(),
{
    if i < items.len() - 1 {
        lemma_widest(items.drop_last(), i);
    }
}

/// A bound on all items is no smaller than the widest.
proof fn lemma_widest_below(items: Seq<Seq<u8>>, bound: nat)
    requires
        forall|i: int| 0 <= i < items.len() ==> (#[trigger] items[i]).len() < bound,
    ensures
        widest(items) <= bound,
    decreases items.len(),
{
    if items.len() > 0 {
        assert forall|i: int| 0 <= i < items.drop_last().len() implies (
            #[trigger] items.drop_last()[i]).len() < bound by {
            assert(items.drop_last()[i] == items[i]);
        }
        lemma_widest_below(items.drop_last(), bound);
        assert(items.last() == items[items.len() - 1]);
    }
}

/// A bound on the lengths of the children of a node.
pub open spec fn child_bound(node: TrieNodeModel) -> nat {
    match node {
        TrieNodeModel::Branch { stack, .. } => widest(stack),
        TrieNodeModel::Extension { child, .. } => child.len() + 1,
        _ => 0,
    }
}

/// The bound on the children is no larger than any other.
pub proof fn lemma_child_bound(node: TrieNodeModel, bound: nat)
    requires
        node.children_below(bound),
    ensures
        child_bound(node) <= bound,
{
    if let TrieNodeModel::Branch { stack, .. } = node {
        lemma_widest_below(stack, bound);
    }
}

/// A subtrie and how revealing ended.
#[verifier::ext_equal]
pub struct Revealed {
    pub subtrie: SubtrieModel,
    pub result: Result<(), ErrorModel>,
}

/// Why no child can be read from its RLP node, if that is so.
pub open spec fn unreadable(path: Seq<u8>, child: Seq<u8>) -> Option<ErrorModel> {
    if child.len() == 33 {
        None
    } else {
        match decoded_node(child) {
            Ok(node) => if node.children_below(child.len()) {
                None
            } else {
                Some(ErrorModel::Reveal { path, node: NodeModel::Empty })
            },
            Err(error) => Some(ErrorModel::Rlp(error)),
        }
    }
}

impl SubtrieModel {
    /// The subtrie with a node at a path.
    pub open spec fn put(self, path: Seq<u8>, node: NodeModel) -> Self {
        SubtrieModel { nodes: self.nodes.insert(path, node), ..self }
    }

    /// The subtrie with a value at a full path.
    pub open spec fn put_value(self, path: Seq<u8>, value: Seq<u8>) -> Self {
        SubtrieModel {
            src: Source { values: self.src.values.insert(path, value), ..self.src },
            ..self
        }
    }

    /// The subtrie with the masks that are known for a path.
    pub open spec fn put_masks(self, path: Seq<u8>, masks: MasksModel) -> Self {
        SubtrieModel {
            src: Source {
                tree_masks: match masks.tree {
                    Some(mask) => self.src.tree_masks.insert(path, mask),
                    None => self.src.tree_masks,
                },
                hash_masks: match masks.hash {
                    Some(mask) => self.src.hash_masks.insert(path, mask),
                    None => self.src.hash_masks,
                },
                ..self.src
            },
            ..self
        }
    }

    /// The hash of the blinded node at a path, if there is one.
    pub open spec fn blinded(self, path: Seq<u8>) -> Option<Seq<u8>> {
        if self.nodes.contains_key(path) {
            match self.nodes[path] {
                NodeModel::Hash(hash) => Some(hash),
                _ => None,
            }
        } else {
            None
        }
    }

    /// Revealing succeeds.
    pub open spec fn ok(self) -> Revealed {
        Revealed { subtrie: self, result: Ok(()) }
    }

    /// Revealing fails, because a node cannot stand at a path.
    pub open spec fn refused(self, path: Seq<u8>, node: NodeModel) -> Revealed {
        Revealed { subtrie: self, result: Err(ErrorModel::Reveal { path, node }) }
    }

    /// Reveals a node. A node that has been revealed stays. The hash of a blinded node is kept in
    /// the node that takes its place. Children are revealed first, if they belong to the same level
    /// of the trie: where that fails, the node is not revealed.
    pub open spec fn with_revealed(
        self,
        path: Seq<u8>,
        node: TrieNodeModel,
        masks: MasksModel,
    ) -> Revealed
        decreases child_bound(node), 2int, 0int,
    {
        if self.nodes.contains_key(path) && !(self.nodes[path] is Hash) {
            self.ok()
        } else {
            let hash = self.blinded(path);
            let shown = match node {
                TrieNodeModel::EmptyRoot => {
                    if path.len() == 0 && self.path.len() == 0 {
                        self.put(path, NodeModel::Empty).ok()
                    } else {
                        self.refused(path, NodeModel::Empty)
                    }
                },
                TrieNodeModel::Branch { stack, mask } => {
                    if path.len() >= MAX_PATH_LEN && child_nibbles(mask).len() > 0 {
                        self.refused(path, NodeModel::new_branch(mask))
                    } else {
                        let kids = self.reveal_kids(path, stack, child_nibbles(mask), 0);
                        if kids.result is Err {
                            kids
                        } else {
                            kids.subtrie.put(
                                path,
                                NodeModel::Branch {
                                    mask,
                                    hash,
                                    store: if hash is Some {
                                        Some(masks.nonempty())
                                    } else {
                                        None
                                    },
                                },
                            ).ok()
                        }
                    }
                },
                TrieNodeModel::Extension { key, child } => {
                    let ext = NodeModel::Extension { key, hash, store: None };
                    if path.len() + key.len() > MAX_PATH_LEN {
                        self.refused(path, NodeModel::new_ext(key))
                    } else if key.len() == 0 {
                        // The child is where the extension is.
                        match unreadable(path, child) {
                            Some(error) => Revealed { subtrie: self, result: Err(error) },
                            None => self.put(path, ext).ok(),
                        }
                    } else if same_level(path, path + key) {
                        let below = self.reveal_child(path + key, child);
                        if below.result is Err {
                            below
                        } else {
                            below.subtrie.put(path, ext).ok()
                        }
                    } else {
                        self.put(path, ext).ok()
                    }
                },
                TrieNodeModel::Leaf { key, value } => {
                    if path.len() + key.len() > MAX_PATH_LEN {
                        self.refused(path, NodeModel::new_leaf(key))
                    } else {
                        self.put(path, NodeModel::Leaf { key, hash }).put_value(
                            path + key,
                            value,
                        ).ok()
                    }
                },
            };
            if shown.result is Err {
                shown
            } else {
                shown.subtrie.put_masks(path, masks).ok()
            }
        }
    }

    /// Reveals the children of a branch from number `from` on, as far as they belong to the level
    /// of the branch, up to the first that fails.
    pub open spec fn reveal_kids(
        self,
        path: Seq<u8>,
        stack: Seq<Seq<u8>>,
        nibbles: Seq<u8>,
        from: int,
    ) -> Revealed
        decreases widest(stack), 1int, nibbles.len() - from,
    {
        let place = stack.len() - nibbles.len() + from;
        if from >= nibbles.len() || !(0 <= place < stack.len()) {
            self.ok()
        } else {
            let kid = path.push(nibbles[from]);
            let next = if same_level(path, kid) {
                proof {
                    lemma_widest(stack, place);
                }
                self.reveal_child(kid, stack[place])
            } else {
                self.ok()
            };
            if next.result is Err {
                next
            } else {
                next.subtrie.reveal_kids(path, stack, nibbles, from + 1)
            }
        }
    }

    /// Reveals a child from its RLP node. One of 33 bytes is a hash, and the child is blinded;
    /// another one is the child itself.
    pub open spec fn reveal_child(self, path: Seq<u8>, child: Seq<u8>) -> Revealed
        decreases child.len(), 3int, 0int,
    {
        if child.len() == 33 {
            let hash = child.skip(1);
            if !self.nodes.contains_key(path) {
                self.put(path, NodeModel::Hash(hash)).ok()
            } else if self.blinded(path) is Some && self.blinded(path)->0 != hash {
                self.refused(path, NodeModel::Hash(hash))
            } else {
                self.ok()
            }
        } else {
            match decoded_node(child) {
                Ok(node) => {
                    if node.children_below(child.len()) {
                        proof {
                            lemma_child_bound(node, child.len());
                        }
                        self.with_revealed(path, node, MasksModel::none())
                    } else {
                        // No node is decoded from fewer bytes than its children have.
                        self.refused(path, NodeModel::Empty)
                    }
                },
                Err(error) => Revealed { subtrie: self, result: Err(ErrorModel::Rlp(error)) },
            }
        }
    }
}

/// The nibbles below a bound come first among the nibbles of a mask.
pub proof fn lemma_nibbles_prefix(mask: Set<u8>, bound: int, all: int)
    requires
        0 <= bound <= all <= 16,
    ensures
        nibbles_below(mask, bound).len() <= nibbles_below(mask, all).len(),
        nibbles_below(mask, all).take(nibbles_below(mask, bound).len() as int) == nibbles_below(
            mask,
            bound,
        ),
    decreases all,
{
    if bound < all {
        lemma_nibbles_prefix(mask, bound, all - 1);
        let below = nibbles_below(mask, all - 1);
        assert(nibbles_below(mask, all).take(nibbles_below(mask, bound).len() as int) =~= below.take(
            nibbles_below(mask, bound).len() as int,
        ));
    } else {
        assert(nibbles_below(mask, all).take(nibbles_below(mask, all).len() as int)
            =~= nibbles_below(mask, all));
    }
}

impl SparseSubtrie {
    /// Returns true if the paths of a node and its child belong to the same level of the trie.
    pub fn is_child_same_level(current_path: &Nibbles, child_path: &Nibbles) -> (same: bool)
        ensures
            same == same_level(current_path.model(), child_path.model()),
    {
        match (SparseSubtrieType::from_path(current_path), SparseSubtrieType::from_path(child_path)) {
            (SparseSubtrieType::Upper, SparseSubtrieType::Upper) => true,
            (SparseSubtrieType::Lower(_), SparseSubtrieType::Lower(_)) => true,
            _ => false,
        }
    }

    /// Reveals a node, and its children as far as they belong to the same level of the trie.
    ///
    /// A node that does not fit at the path is refused: one whose path would be too long, and the
    /// root of a trie that holds nothing at any other place than the root of the trie.
    pub fn reveal_node(
        &mut self,
        path: Nibbles,
        node: &TrieNode,
        masks: TrieMasks,
    ) -> (result: SparseTrieResult<()>)
        requires
            node.model().well_formed(),
        ensures
            (Revealed { subtrie: final(self)@, result: outcome(result) }) == old(self)@.with_revealed(
                path.model(),
                node.model(),
                masks.model(),
            ),
            final(self).inner.buffers == old(self).inner.buffers,
            final(self).path == old(self).path,
        decreases child_bound(node.model()), 2int, 0int,
    {
        let ghost p = path.model();
        let hash: Option<B256> = match self.nodes.get(&path) {
            Some(SparseNode::Hash(hash)) => Some(*hash),
            // The node has been revealed.
            Some(_) => return Ok(()),
            None => None,
        };
        match node {
            TrieNode::EmptyRoot => {
                if !path.is_empty() || !self.path.is_empty() {
                    return Err(SparseTrieErrorKind::Reveal { path, node: SparseNode::Empty });
                }
                self.nodes.insert(path, SparseNode::Empty);
            },
            TrieNode::Branch(branch) => {
                let ghost stack = model_seq(branch.stack@);
                let ghost mask = branch.state_mask.model();
                let ghost nibbles = child_nibbles(mask);
                let count = branch.state_mask.count_bits() as usize;
                if path.len() >= MAX_PATH_LEN && count > 0 {
                    return Err(
                        SparseTrieErrorKind::Reveal {
                            path,
                            node: SparseNode::new_branch(branch.state_mask),
                        },
                    );
                }
                let mut stack_ptr: usize = branch.stack.len() - count;
                let mut idx: u8 = 0;
                while idx < 16
                    invariant
                        idx <= 16,
                        p == path.model(),
                        stack == model_seq(branch.stack@),
                        mask == branch.state_mask.model(),
                        nibbles == child_nibbles(mask),
                        *node == TrieNode::Branch(*branch),
                        old(self)@.nodes.contains_key(p) ==> old(self)@.nodes[p] is Hash,
                        p.len() < MAX_PATH_LEN || nibbles.len() == 0,
                        nibbles.len() <= stack.len(),
                        stack_ptr == stack.len() - nibbles.len() + nibbles_below(
                            mask,
                            idx as int,
                        ).len(),
                        self.inner.buffers == old(self).inner.buffers,
                        self.path == old(self).path,
                        old(self)@.reveal_kids(p, stack, nibbles, 0) == self@.reveal_kids(
                            p,
                            stack,
                            nibbles,
                            nibbles_below(mask, idx as int).len() as int,
                        ),
                    decreases 16 - idx,
                {
                    let ghost from = nibbles_below(mask, idx as int).len() as int;
                    proof {
                        lemma_nibbles_prefix(mask, idx + 1, 16);
                    }
                    if branch.state_mask.is_bit_set(idx) {
                        proof {
                            let more = nibbles_below(mask, idx + 1);
                            assert(more == nibbles_below(mask, idx as int).push(idx));
                            assert(nibbles.take(more.len() as int)[from] == idx);
                            assert(nibbles[from] == idx);
                            assert(stack_ptr < branch.stack.len());
                        }
                        let mut child_path = path;
                        child_path.push_unchecked(idx);
                        if Self::is_child_same_level(&path, &child_path) {
                            // Only a child of the same level is in this subtrie.
                            proof {
                                lemma_widest(stack, stack_ptr as int);
                            }
                            let child = branch.stack[stack_ptr].as_slice();
                            match self.reveal_node_or_hash(child_path, child) {
                                Ok(()) => {},
                                Err(error) => {
                                    return Err(error);
                                },
                            }
                        }
                        stack_ptr += 1;
                    }
                    idx += 1;
                }
                let store_in_db_trie = match hash {
                    Some(_) => Some(
                        (match masks.hash_mask {
                            Some(mask) => !mask.is_empty(),
                            None => false,
                        }) || (match masks.tree_mask {
                            Some(mask) => !mask.is_empty(),
                            None => false,
                        }),
                    ),
                    None => None,
                };
                // The hash of a blinded node is kept.
                self.nodes.insert(
                    path,
                    SparseNode::Branch { state_mask: branch.state_mask, hash, store_in_db_trie },
                );
            },
            TrieNode::Extension(ext) => {
                if path.len() + ext.key.len() > MAX_PATH_LEN {
                    return Err(
                        SparseTrieErrorKind::Reveal { path, node: SparseNode::new_ext(ext.key) },
                    );
                }
                let mut child_path = path;
                child_path.extend(&ext.key);
                let child = ext.child.as_slice();
                if ext.key.is_empty() {
                    // The child is where the extension is, and only has to be one.
                    if child.len() != 33 {
                        match decode_node(child) {
                            Ok(_) => {},
                            Err(error) => {
                                return Err(SparseTrieErrorKind::Rlp(error));
                            },
                        }
                    }
                } else if Self::is_child_same_level(&path, &child_path) {
                    match self.reveal_node_or_hash(child_path, child) {
                        Ok(()) => {},
                        Err(error) => {
                            return Err(error);
                        },
                    }
                }
                self.nodes.insert(
                    path,
                    SparseNode::Extension { key: ext.key, hash, store_in_db_trie: None },
                );
            },
            TrieNode::Leaf(leaf) => {
                if path.len() + leaf.key.len() > MAX_PATH_LEN {
                    return Err(
                        SparseTrieErrorKind::Reveal { path, node: SparseNode::new_leaf(leaf.key) },
                    );
                }
                let mut full_path = path;
                full_path.extend(&leaf.key);
                self.nodes.insert(path, SparseNode::Leaf { key: leaf.key, hash });
                self.inner.values.insert(full_path, leaf.value.clone());
            },
        }
        let ghost shown = self@;
        if let Some(tree_mask) = masks.tree_mask {
            self.inner.branch_node_tree_masks.insert(path, tree_mask);
        }
        if let Some(hash_mask) = masks.hash_mask {
            self.inner.branch_node_hash_masks.insert(path, hash_mask);
        }
        assert(self@ =~= shown.put_masks(p, masks.model()));
        Ok(())
    }

    /// Reveals a child from its RLP node: one of 33 bytes is the hash of a blinded child, another
    /// one is the child itself.
    ///
    /// Fails if a blinded node with another hash stands at the path.
    pub fn reveal_node_or_hash(&mut self, path: Nibbles, child: &[u8]) -> (result: SparseTrieResult<
        (),
    >)
        ensures
            (Revealed { subtrie: final(self)@, result: outcome(result) }) == old(
                self,
            )@.reveal_child(path.model(), child@),
            final(self).inner.buffers == old(self).inner.buffers,
            final(self).path == old(self).path,
        decreases child@.len(), 3int, 0int,
    {
        if child.len() == 33 {
            let hash = hash_after_header(child);
            match self.nodes.get(&path) {
                Some(SparseNode::Hash(previous)) => {
                    if !same_hash(previous, &hash) {
                        return Err(
                            SparseTrieErrorKind::Reveal { path, node: SparseNode::Hash(hash) },
                        );
                    }
                },
                Some(_) => {},
                None => {
                    self.nodes.insert(path, SparseNode::Hash(hash));
                },
            }
            return Ok(());
        }
        match decode_node(child) {
            Ok(node) => {
                proof {
                    lemma_child_bound(node.model(), child@.len());
                }
                self.reveal_node(path, &node, TrieMasks::none())
            },
            Err(error) => Err(SparseTrieErrorKind::Rlp(error)),
        }
    }
}

/// Whether a subtrie has all that another one has: revealed nodes are the same, and a blinded node
/// is still there, blinded or not.
pub open spec fn grown(before: SubtrieModel, after: SubtrieModel) -> bool {
    &&& after.updates == before.updates
    &&& forall|p: Seq<u8>| #[trigger]
        before.nodes.contains_key(p) ==> after.nodes.contains_key(p) && (before.nodes[p] !is Hash
            ==> after.nodes[p] == before.nodes[p])
    &&& forall|full: Seq<u8>| #[trigger]
        before.src.values.contains_key(full) ==> after.src.values.contains_key(full)
}

/// Growing is transitive.
pub proof fn lemma_grown_transitive(a: SubtrieModel, b: SubtrieModel, c: SubtrieModel)
    requires
        grown(a, b),
        grown(b, c),
    ensures
        grown(a, c),
{
    assert forall|p: Seq<u8>| #[trigger] a.nodes.contains_key(p) implies c.nodes.contains_key(p)
        && (a.nodes[p] !is Hash ==> c.nodes[p] == a.nodes[p]) by {
        assert(b.nodes.contains_key(p));
    }
    assert forall|full: Seq<u8>| #[trigger]
        a.src.values.contains_key(full) implies c.src.values.contains_key(full) by {
        assert(b.src.values.contains_key(full));
    }
}

/// Revealing a node, whether it succeeds or fails, leaves every node that has been revealed as it
/// is, and takes nothing away.
pub proof fn lemma_reveal_grows(
    s: SubtrieModel,
    path: Seq<u8>,
    node: TrieNodeModel,
    masks: MasksModel,
)
    ensures
        grown(s, s.with_revealed(path, node, masks).subtrie),
        s.with_revealed(path, node, masks).subtrie.path == s.path,
    decreases child_bound(node), 2int, 0int,
{
    if !(s.nodes.contains_key(path) && !(s.nodes[path] is Hash)) {
        match node {
            TrieNodeModel::Branch { stack, mask } => {
                if !(path.len() >= MAX_PATH_LEN && child_nibbles(mask).len() > 0) {
                    lemma_kids_grow(s, path, stack, child_nibbles(mask), 0);
                }
            },
            TrieNodeModel::Extension { key, child } => {
                if path.len() + key.len() <= MAX_PATH_LEN && same_level(path, path + key) {
                    lemma_child_grows(s, path + key, child);
                }
            },
            _ => {},
        }
    }
}

/// Revealing the children of a branch takes nothing away.
pub proof fn lemma_kids_grow(
    s: SubtrieModel,
    path: Seq<u8>,
    stack: Seq<Seq<u8>>,
    nibbles: Seq<u8>,
    from: int,
)
    ensures
        grown(s, s.reveal_kids(path, stack, nibbles, from).subtrie),
        s.reveal_kids(path, stack, nibbles, from).subtrie.path == s.path,
    decreases widest(stack), 1int, nibbles.len() - from,
{
    let place = stack.len() - nibbles.len() + from;
    if !(from >= nibbles.len() || !(0 <= place < stack.len())) {
        let kid = path.push(nibbles[from]);
        let next = if same_level(path, kid) {
            lemma_widest(stack, place);
            lemma_child_grows(s, kid, stack[place]);
            s.reveal_child(kid, stack[place])
        } else {
            s.ok()
        };
        if next.result is Ok {
            lemma_kids_grow(next.subtrie, path, stack, nibbles, from + 1);
            lemma_grown_transitive(
                s,
                next.subtrie,
                next.subtrie.reveal_kids(path, stack, nibbles, from + 1).subtrie,
            );
        }
    }
}

/// Revealing a child takes nothing away.
pub proof fn lemma_child_grows(s: SubtrieModel, path: Seq<u8>, child: Seq<u8>)
    ensures
        grown(s, s.reveal_child(path, child).subtrie),
        s.reveal_child(path, child).subtrie.path == s.path,
    decreases child.len(), 3int, 0int,
{
    if child.len() != 33 {
        match decoded_node(child) {
            Ok(node) => {
                if node.children_below(child.len()) {
                    lemma_child_bound(node, child.len());
                    lemma_reveal_grows(s, path, node, MasksModel::none());
                }
            },
            Err(_) => {},
        }
    }
}

/// After a node was revealed where none had been, it is there, with the hash of the blinded node
/// whose place it took. Its key fits, and a leaf has its value.
pub proof fn lemma_revealed_node(
    s: SubtrieModel,
    path: Seq<u8>,
    node: TrieNodeModel,
    masks: MasksModel,
)
    requires
        s.with_revealed(path, node, masks).result is Ok,
        s.nodes.contains_key(path) ==> s.nodes[path] is Hash,
    ensures
        ({
            let after = s.with_revealed(path, node, masks).subtrie;
            let hash = s.blinded(path);
            &&& after.nodes.contains_key(path)
            &&& match node {
                TrieNodeModel::EmptyRoot => path.len() == 0 && after.nodes[path]
                    == NodeModel::Empty,
                TrieNodeModel::Branch { mask, .. } => after.nodes[path] == (NodeModel::Branch {
                    mask,
                    hash,
                    store: if hash is Some {
                        Some(masks.nonempty())
                    } else {
                        None
                    },
                }),
                TrieNodeModel::Extension { key, .. } => {
                    &&& path.len() + key.len() <= MAX_PATH_LEN
                    &&& after.nodes[path] == (NodeModel::Extension { key, hash, store: None })
                },
                TrieNodeModel::Leaf { key, value } => {
                    &&& path.len() + key.len() <= MAX_PATH_LEN
                    &&& after.nodes[path] == (NodeModel::Leaf { key, hash })
                    &&& after.src.values.contains_key(path + key)
                    &&& after.src.values[path + key] == value
                },
            }
        }),
{
}

/// Whether two subtries are the same but for what lies below a path.
pub open spec fn same_elsewhere(a: SubtrieModel, b: SubtrieModel, path: Seq<u8>) -> bool {
    &&& forall|p: Seq<u8>|
        !path.is_prefix_of(p) ==> (#[trigger] a.nodes.contains_key(p) == b.nodes.contains_key(p)
            && a.nodes[p] == b.nodes[p])
    &&& forall|p: Seq<u8>|
        !path.is_prefix_of(p) ==> (#[trigger] a.src.values.contains_key(p)
            == b.src.values.contains_key(p) && a.src.values[p] == b.src.values[p])
}

/// What is the same but below a path is the same but below a shorter one.
pub proof fn lemma_same_elsewhere(
    a: SubtrieModel,
    b: SubtrieModel,
    c: SubtrieModel,
    path: Seq<u8>,
    kid: Seq<u8>,
)
    requires
        same_elsewhere(a, b, path),
        same_elsewhere(b, c, kid),
        path.is_prefix_of(kid),
    ensures
        same_elsewhere(a, c, path),
{
    assert forall|p: Seq<u8>| !path.is_prefix_of(p) implies !kid.is_prefix_of(p) by {
        if kid.is_prefix_of(p) {
            lemma_prefix_transitive(path, kid, p);
        }
    }
    assert forall|p: Seq<u8>| !path.is_prefix_of(p) implies (#[trigger] a.nodes.contains_key(p)
        == c.nodes.contains_key(p) && a.nodes[p] == c.nodes[p]) by {
        assert(a.nodes.contains_key(p) == b.nodes.contains_key(p));
        assert(b.nodes.contains_key(p) == c.nodes.contains_key(p));
    }
    assert forall|p: Seq<u8>| !path.is_prefix_of(p) implies (#[trigger] a.src.values.contains_key(p)
        == c.src.values.contains_key(p) && a.src.values[p] == c.src.values[p]) by {
        assert(a.src.values.contains_key(p) == b.src.values.contains_key(p));
        assert(b.src.values.contains_key(p) == c.src.values.contains_key(p));
    }
}

/// Revealing the child of an extension leaves what is at the path of the extension.
pub proof fn lemma_child_off(s: SubtrieModel, path: Seq<u8>, key: Seq<u8>, child: Seq<u8>)
    requires
        key.len() > 0,
    ensures
        ({
            let below = s.reveal_child(path + key, child).subtrie;
            &&& path.is_prefix_of(path + key)
            &&& below.nodes.contains_key(path) == s.nodes.contains_key(path)
            &&& below.nodes[path] == s.nodes[path]
        }),
{
    lemma_prefix_pointwise(path, path + key);
    lemma_prefix_pointwise(path + key, path);
    lemma_child_below(s, path + key, child);
    assert(s.nodes.contains_key(path) == s.reveal_child(path + key, child).subtrie.nodes.contains_key(path));
}

/// Revealing a node changes nothing but what lies below its path.
pub proof fn lemma_reveal_below(
    s: SubtrieModel,
    path: Seq<u8>,
    node: TrieNodeModel,
    masks: MasksModel,
)
    ensures
        same_elsewhere(s, s.with_revealed(path, node, masks).subtrie, path),
    decreases child_bound(node), 2int, 0int,
{
    lemma_prefix_pointwise(path, path);
    if !(s.nodes.contains_key(path) && !(s.nodes[path] is Hash)) {
        match node {
            TrieNodeModel::Branch { stack, mask } => {
                if !(path.len() >= MAX_PATH_LEN && child_nibbles(mask).len() > 0) {
                    lemma_kids_below(s, path, stack, child_nibbles(mask), 0);
                    let kids = s.reveal_kids(path, stack, child_nibbles(mask), 0);
                    assert(same_elsewhere(s, s, path));
                    lemma_same_elsewhere(s, s, kids.subtrie, path, path);
                    let after = s.with_revealed(path, node, masks).subtrie;
                    assert(same_elsewhere(kids.subtrie, after, path));
                    lemma_same_elsewhere(s, kids.subtrie, after, path, path);
                }
            },
            TrieNodeModel::Extension { key, child } => {
                if path.len() + key.len() <= MAX_PATH_LEN && key.len() > 0 && same_level(
                    path,
                    path + key,
                ) {
                    let below = s.reveal_child(path + key, child);
                    lemma_child_below(s, path + key, child);
                    lemma_prefix_pointwise(path, path + key);
                    assert(same_elsewhere(s, s, path));
                    lemma_same_elsewhere(s, s, below.subtrie, path, path + key);
                    let after = s.with_revealed(path, node, masks).subtrie;
                    assert(same_elsewhere(below.subtrie, after, path));
                    lemma_same_elsewhere(s, below.subtrie, after, path, path);
                }
            },
            TrieNodeModel::Leaf { key, .. } => {
                lemma_prefix_pointwise(path, path + key);
            },
            _ => {},
        }
    }
}

/// Revealing the children of a branch changes nothing but what lies below the branch.
pub proof fn lemma_kids_below(
    s: SubtrieModel,
    path: Seq<u8>,
    stack: Seq<Seq<u8>>,
    nibbles: Seq<u8>,
    from: int,
)
    ensures
        same_elsewhere(s, s.reveal_kids(path, stack, nibbles, from).subtrie, path),
    decreases widest(stack), 1int, nibbles.len() - from,
{
    let place = stack.len() - nibbles.len() + from;
    lemma_prefix_pointwise(path, path);
    if !(from >= nibbles.len() || !(0 <= place < stack.len())) {
        let kid = path.push(nibbles[from]);
        lemma_prefix_pointwise(path, kid);
        let next = if same_level(path, kid) {
            lemma_widest(stack, place);
            lemma_child_below(s, kid, stack[place]);
            s.reveal_child(kid, stack[place])
        } else {
            s.ok()
        };
        assert(same_elsewhere(s, s, path));
        assert(same_elsewhere(s, next.subtrie, kid));
        lemma_same_elsewhere(s, s, next.subtrie, path, kid);
        if next.result is Ok {
            lemma_kids_below(next.subtrie, path, stack, nibbles, from + 1);
            lemma_same_elsewhere(
                s,
                next.subtrie,
                next.subtrie.reveal_kids(path, stack, nibbles, from + 1).subtrie,
                path,
                path,
            );
        }
    }
}

/// Revealing a child changes nothing but what lies below its path.
pub proof fn lemma_child_below(s: SubtrieModel, path: Seq<u8>, child: Seq<u8>)
    ensures
        same_elsewhere(s, s.reveal_child(path, child).subtrie, path),
    decreases child.len(), 3int, 0int,
{
    lemma_prefix_pointwise(path, path);
    if child.len() != 33 {
        match decoded_node(child) {
            Ok(node) => {
                if node.children_below(child.len()) {
                    lemma_child_bound(node, child.len());
                    lemma_reveal_below(s, path, node, MasksModel::none());
                }
            },
            Err(_) => {},
        }
    }
}

}
