//! What hashing a trie computes: the RLP of each node, the hashes that nodes keep, and the updates
//! of branches that are recorded.

use crate::model::{child_nibbles, hash_rlp, headed, rlp_hash, NodeModel};
use crate::node::{stored, SparseNodeType};
use crate::outside::{
    branch_node_rlp, compact_branch, empty_root_bytes, extension_node_rlp, leaf_node_rlp,
    MAX_PATH_LEN,
};
use crate::prefix_set::PrefixModel;
use crate::updates::UpdatesModel;
use vstd::prelude::*;

verus! {

/// What a subtrie keeps beside its nodes.
#[verifier::ext_equal]
pub struct Source {
    /// The values of the leaves, by their full paths.
    pub values: Map<Seq<u8>, Seq<u8>>,
    /// The children of a branch below which the database keeps a branch.
    pub tree_masks: Map<Seq<u8>, Set<u8>>,
    /// The children of a branch that the database keeps as a hash.
    pub hash_masks: Map<Seq<u8>, Set<u8>>,
}

/// The RLP of a node, and what is known of the node.
#[verifier::ext_equal]
pub struct Encoded {
    pub rlp: Seq<u8>,
    pub kind: SparseNodeType,
}

/// A node that waits for being encoded. `touched` tells whether its path is in the prefix set, once
/// that has been asked; a node whose children wait with it has been asked.
#[verifier::ext_equal]
pub struct PathItem {
    pub path: Seq<u8>,
    pub touched: Option<bool>,
}

/// An encoded node that waits for its parent.
#[verifier::ext_equal]
pub struct RlpItem {
    pub path: Seq<u8>,
    pub rlp: Seq<u8>,
    pub kind: SparseNodeType,
}

impl RlpItem {
    /// The item for an encoded node.
    pub open spec fn of(path: Seq<u8>, encoded: Encoded) -> Self {
        RlpItem { path, rlp: encoded.rlp, kind: encoded.kind }
    }

    /// The encoded node.
    pub open spec fn encoded(self) -> Encoded {
        Encoded { rlp: self.rlp, kind: self.kind }
    }
}

/// The item of a node that has not been looked at.
pub open spec fn fresh(path: Seq<u8>) -> PathItem {
    PathItem { path, touched: None }
}

/// Whether a path counts as changed, given what an earlier question said.
pub open spec fn asked(prefix: PrefixModel, touched: Option<bool>, path: Seq<u8>) -> bool {
    match touched {
        Some(yes) => yes,
        None => prefix.touches(path),
    }
}

/// Whether a node is encoded from what it keeps: an empty or blinded node always is, another one
/// where its hash is known and nothing below it has changed.
pub open spec fn cached(
    prefix: PrefixModel,
    touched: Option<bool>,
    path: Seq<u8>,
    node: NodeModel,
) -> bool {
    match node {
        NodeModel::Empty => true,
        NodeModel::Hash(_) => true,
        NodeModel::Leaf { key, hash } => hash is Some && !asked(prefix, touched, path + key),
        NodeModel::Extension { hash, store, .. } => hash is Some && store is Some && !asked(
            prefix,
            touched,
            path,
        ),
        NodeModel::Branch { hash, store, .. } => hash is Some && store is Some && !asked(
            prefix,
            touched,
            path,
        ),
    }
}

/// The encoding of a node from what it keeps.
pub open spec fn answer(node: NodeModel) -> Encoded {
    match node {
        NodeModel::Empty => Encoded {
            rlp: hash_rlp(empty_root_bytes()),
            kind: SparseNodeType::Empty,
        },
        NodeModel::Hash(hash) => Encoded { rlp: hash_rlp(hash), kind: SparseNodeType::Hash },
        NodeModel::Leaf { hash, .. } => Encoded {
            rlp: hash_rlp(hash->0),
            kind: SparseNodeType::Leaf,
        },
        NodeModel::Extension { hash, store, .. } => Encoded {
            rlp: hash_rlp(hash->0),
            kind: SparseNodeType::Extension { store_in_db_trie: store },
        },
        NodeModel::Branch { hash, store, .. } => Encoded {
            rlp: hash_rlp(hash->0),
            kind: SparseNodeType::Branch { store_in_db_trie: store },
        },
    }
}

/// The paths of the children of a node, in ascending order.
pub open spec fn kid_paths(path: Seq<u8>, node: NodeModel) -> Seq<Seq<u8>> {
    match node {
        NodeModel::Extension { key, .. } => seq![path + key],
        NodeModel::Branch { mask, .. } => child_nibbles(mask).map_values(|n: u8| path.push(n)),
        _ => Seq::empty(),
    }
}

/// Whether a map of masks has a nibble in the mask of a path.
pub open spec fn mask_has(masks: Map<Seq<u8>, Set<u8>>, path: Seq<u8>, nibble: u8) -> bool {
    masks.contains_key(path) && masks[path].contains(nibble)
}

/// Whether a map of masks has a mask with nibbles at a path.
pub open spec fn mask_nonempty(masks: Map<Seq<u8>, Set<u8>>, path: Seq<u8>) -> bool {
    masks.contains_key(path) && masks[path] != Set::<u8>::empty()
}

/// Whether the child of a branch belongs into its tree mask: a branch is stored below it, or it is
/// blinded and the database has it there.
pub open spec fn child_in_tree(src: Source, path: Seq<u8>, nibble: u8, kid: Encoded) -> bool {
    match stored(kid.kind) {
        Some(yes) => yes,
        None => kid.kind is Hash && mask_has(src.tree_masks, path, nibble),
    }
}

/// Whether the child of a branch belongs into its hash mask: it has a hash, and it is a branch, or
/// blinded and the database has it there.
pub open spec fn child_hashed(src: Source, path: Seq<u8>, nibble: u8, kid: Encoded) -> bool {
    rlp_hash(kid.rlp) is Some && (kid.kind is Branch || (kid.kind is Hash && mask_has(
        src.hash_masks,
        path,
        nibble,
    )))
}

/// The tree mask of a branch, from its child number `from` on.
pub open spec fn tree_mask_from(
    src: Source,
    path: Seq<u8>,
    nibbles: Seq<u8>,
    kids: Seq<Encoded>,
    from: int,
) -> Set<u8>
    decreases nibbles.len() - from,
{
    if from >= nibbles.len() {
        Set::empty()
    } else {
        let rest = tree_mask_from(src, path, nibbles, kids, from + 1);
        if child_in_tree(src, path, nibbles[from], kids[from]) {
            rest.insert(nibbles[from])
        } else {
            rest
        }
    }
}

/// The hash mask of a branch, from its child number `from` on.
pub open spec fn hash_mask_from(
    src: Source,
    path: Seq<u8>,
    nibbles: Seq<u8>,
    kids: Seq<Encoded>,
    from: int,
) -> Set<u8>
    decreases nibbles.len() - from,
{
    if from >= nibbles.len() {
        Set::empty()
    } else {
        let rest = hash_mask_from(src, path, nibbles, kids, from + 1);
        if child_hashed(src, path, nibbles[from], kids[from]) {
            rest.insert(nibbles[from])
        } else {
            rest
        }
    }
}

/// The hashes of the children in the hash mask of a branch, from its child number `from` on, in
/// ascending order of the nibbles.
pub open spec fn hashes_from(
    src: Source,
    path: Seq<u8>,
    nibbles: Seq<u8>,
    kids: Seq<Encoded>,
    from: int,
) -> Seq<Seq<u8>>
    decreases nibbles.len() - from,
{
    if from >= nibbles.len() {
        Seq::empty()
    } else {
        let rest = hashes_from(src, path, nibbles, kids, from + 1);
        if child_hashed(src, path, nibbles[from], kids[from]) {
            seq![rlp_hash(kids[from].rlp)->0] + rest
        } else {
            rest
        }
    }
}

/// Whether a branch is stored in the database: some child belongs into its tree mask or into its
/// hash mask.
pub open spec fn branch_stored(
    src: Source,
    path: Seq<u8>,
    mask: Set<u8>,
    kids: Seq<Encoded>,
) -> bool {
    let nibbles = child_nibbles(mask);
    ||| tree_mask_from(src, path, nibbles, kids, 0) != Set::<u8>::empty()
    ||| hash_mask_from(src, path, nibbles, kids, 0) != Set::<u8>::empty()
}

/// The RLP of each encoded node.
pub open spec fn kid_rlps(kids: Seq<Encoded>) -> Seq<Seq<u8>> {
    kids.map_values(|kid: Encoded| kid.rlp)
}

/// The encoding of a node whose children are encoded. With `record`, the update of a branch is
/// being recorded.
pub open spec fn encode(
    src: Source,
    record: bool,
    path: Seq<u8>,
    node: NodeModel,
    kids: Seq<Encoded>,
) -> Encoded {
    match node {
        NodeModel::Leaf { key, .. } => Encoded {
            rlp: leaf_node_rlp(key, src.values[path + key]),
            kind: SparseNodeType::Leaf,
        },
        NodeModel::Extension { key, .. } => Encoded {
            rlp: extension_node_rlp(key, kids[0].rlp),
            kind: SparseNodeType::Extension { store_in_db_trie: stored(kids[0].kind) },
        },
        NodeModel::Branch { mask, .. } => Encoded {
            rlp: branch_node_rlp(kid_rlps(kids), mask),
            kind: SparseNodeType::Branch {
                store_in_db_trie: Some(record && path.len() > 0 && branch_stored(src, path, mask, kids)),
            },
        },
        _ => answer(node),
    }
}

/// A node after it was encoded: it keeps the hash, if the encoding is one, and whether it is
/// stored.
pub open spec fn encoded_node(node: NodeModel, encoded: Encoded) -> NodeModel {
    let hash = rlp_hash(encoded.rlp);
    match node {
        NodeModel::Leaf { key, .. } => NodeModel::Leaf { key, hash },
        NodeModel::Extension { key, .. } => NodeModel::Extension {
            key,
            hash,
            store: stored(encoded.kind),
        },
        NodeModel::Branch { mask, .. } => NodeModel::Branch {
            mask,
            hash,
            store: stored(encoded.kind),
        },
        _ => node,
    }
}

/// The branch as the database keeps it.
pub open spec fn compact(
    src: Source,
    path: Seq<u8>,
    mask: Set<u8>,
    kids: Seq<Encoded>,
) -> alloy_trie::BranchNodeCompact {
    let nibbles = child_nibbles(mask);
    compact_branch(
        mask,
        tree_mask_from(src, path, nibbles, kids, 0),
        hash_mask_from(src, path, nibbles, kids, 0),
        hashes_from(src, path, nibbles, kids, 0),
        None,
    )
}

/// Whether the database had a mask with nibbles for the branch at a path.
pub open spec fn was_stored(src: Source, path: Seq<u8>) -> bool {
    mask_nonempty(src.tree_masks, path) || mask_nonempty(src.hash_masks, path)
}

/// The updates after a node was encoded, where they are being recorded. Only a branch that is not
/// the root counts: it is written if it is stored, and dropped if it was stored and is no more.
pub open spec fn record_branch(
    src: Source,
    path: Seq<u8>,
    node: NodeModel,
    kids: Seq<Encoded>,
    updates: UpdatesModel,
) -> UpdatesModel {
    match node {
        NodeModel::Branch { mask, .. } => {
            if path.len() == 0 {
                updates
            } else if branch_stored(src, path, mask, kids) {
                updates.update(path, compact(src, path, mask, kids))
            } else if was_stored(src, path) {
                updates.remove(path)
            } else {
                updates.forget(path)
            }
        },
        _ => updates,
    }
}

// One step.

/// What one step of hashing works on.
#[verifier::ext_equal]
pub struct StepState {
    pub node: NodeModel,
    pub updates: Option<UpdatesModel>,
    /// The nodes that wait for being encoded, the next one last.
    pub paths: Seq<PathItem>,
    /// The encoded nodes that wait for their parents, the latest last.
    pub rlps: Seq<RlpItem>,
}

/// Whether the latest encoded nodes are those at the given paths.
pub open spec fn ready(rlps: Seq<RlpItem>, kids: Seq<Seq<u8>>) -> bool {
    &&& rlps.len() >= kids.len()
    &&& forall|i: int|
        0 <= i < kids.len() ==> (#[trigger] rlps[rlps.len() - kids.len() + i]).path == kids[i]
}

/// All encoded nodes of 33 bytes are hashes.
pub open spec fn all_headed(rlps: Seq<RlpItem>) -> bool {
    forall|i: int| 0 <= i < rlps.len() ==> headed((#[trigger] rlps[i]).rlp)
}

/// The latest encoded nodes.
pub open spec fn latest(rlps: Seq<RlpItem>, count: int) -> Seq<Encoded> {
    Seq::new(count as nat, |i: int| rlps[rlps.len() - count + i].encoded())
}

/// The items of children that have not been looked at, the first child last.
pub open spec fn fresh_kids(kids: Seq<Seq<u8>>) -> Seq<PathItem> {
    Seq::new(kids.len(), |i: int| fresh(kids[kids.len() - 1 - i]))
}

/// One step of hashing, at the node of `item`. It is encoded if it keeps what it needs or if its
/// children are the latest encoded nodes; otherwise it waits for them.
pub open spec fn rlp_step(
    prefix: PrefixModel,
    src: Source,
    item: PathItem,
    s: StepState,
) -> StepState {
    let kids = kid_paths(item.path, s.node);
    if cached(prefix, item.touched, item.path, s.node) {
        StepState { rlps: s.rlps.push(RlpItem::of(item.path, answer(s.node))), ..s }
    } else if ready(s.rlps, kids) {
        let encoded_kids = latest(s.rlps, kids.len() as int);
        let record = s.updates is Some && asked(prefix, item.touched, item.path);
        let encoded = encode(src, record, item.path, s.node, encoded_kids);
        StepState {
            node: encoded_node(s.node, encoded),
            updates: if record {
                Some(record_branch(src, item.path, s.node, encoded_kids, s.updates->0))
            } else {
                s.updates
            },
            paths: s.paths,
            rlps: s.rlps.take(s.rlps.len() - kids.len()).push(RlpItem::of(item.path, encoded)),
        }
    } else {
        let again = PathItem {
            path: item.path,
            touched: Some(asked(prefix, item.touched, item.path)),
        };
        StepState { paths: s.paths.push(again) + fresh_kids(kids), ..s }
    }
}

/// What a step needs: paths that fit, the value of a leaf that is encoded anew, and of the children
/// of a node either all as the latest encoded nodes, or not even the last one.
pub open spec fn step_ok(prefix: PrefixModel, src: Source, item: PathItem, s: StepState) -> bool {
    let kids = kid_paths(item.path, s.node);
    &&& node_fits(prefix, src, item.touched, item.path, s.node)
    &&& ready(s.rlps, kids) || s.rlps.len() == 0 || s.rlps.last().path != kids.last()
}

/// The paths that hashing a node goes through fit, and a leaf that is encoded anew has a value.
pub open spec fn node_fits(
    prefix: PrefixModel,
    src: Source,
    touched: Option<bool>,
    path: Seq<u8>,
    node: NodeModel,
) -> bool {
    match node {
        NodeModel::Leaf { key, .. } => {
            &&& path.len() + key.len() <= MAX_PATH_LEN
            &&& cached(prefix, touched, path, node) || src.values.contains_key(path + key)
        },
        NodeModel::Extension { key, .. } => path.len() + key.len() <= MAX_PATH_LEN,
        NodeModel::Branch { mask, .. } => cached(prefix, touched, path, node) || path.len()
            < MAX_PATH_LEN || child_nibbles(mask).len() == 0,
        _ => true,
    }
}

// The whole.

/// What hashing starts from.
pub struct Hashing {
    /// The keys that have changed.
    pub prefix: PrefixModel,
    /// Whether updates are recorded.
    pub recording: bool,
    /// The nodes by their paths.
    pub nodes: Map<Seq<u8>, NodeModel>,
    /// What the subtrie of a path keeps beside its nodes.
    pub source: spec_fn(Seq<u8>) -> Source,
}

impl Hashing {
    /// Whether the node at a path is encoded anew.
    pub open spec fn opens(self, path: Seq<u8>) -> bool {
        self.nodes.contains_key(path) && !cached(self.prefix, None, path, self.nodes[path])
    }

    /// The children that are encoded for the node at a path.
    pub open spec fn kids(self, path: Seq<u8>) -> Seq<Seq<u8>> {
        if self.opens(path) {
            kid_paths(path, self.nodes[path])
        } else {
            Seq::empty()
        }
    }

    /// Whether the node at `to` is encoded when that at `from` is.
    pub open spec fn visits(self, from: Seq<u8>, to: Seq<u8>) -> bool
        decreases MAX_PATH_LEN - from.len(),
    {
        from == to || exists|i: int|
            0 <= i < self.kids(from).len() && deeper(from, #[trigger] self.kids(from)[i])
                && self.visits(self.kids(from)[i], to)
    }

    /// The encodings of the children of a node.
    pub open spec fn encoded_kids(self, path: Seq<u8>) -> Seq<Encoded>
        decreases MAX_PATH_LEN - path.len(), 0int,
    {
        Seq::new(
            self.kids(path).len(),
            |i: int|
                if deeper(path, self.kids(path)[i]) {
                    self.encoded(self.kids(path)[i])
                } else {
                    arbitrary()
                },
        )
    }

    /// Whether the update of the node at a path is recorded.
    pub open spec fn records(self, path: Seq<u8>) -> bool {
        self.recording && self.prefix.touches(path)
    }

    /// The encoding of the node at a path.
    pub open spec fn encoded(self, path: Seq<u8>) -> Encoded
        decreases MAX_PATH_LEN - path.len(), 1int,
    {
        if self.opens(path) {
            encode(
                (self.source)(path),
                self.records(path),
                path,
                self.nodes[path],
                self.encoded_kids(path),
            )
        } else {
            answer(self.nodes[path])
        }
    }

    /// The node at a path after hashing from `root`.
    pub open spec fn hashed_node(self, root: Seq<u8>, path: Seq<u8>) -> NodeModel {
        if self.visits(root, path) && self.opens(path) {
            encoded_node(self.nodes[path], self.encoded(path))
        } else {
            self.nodes[path]
        }
    }

    /// The nodes after hashing from `root`: those that were encoded anew keep their hashes, all
    /// others are as before.
    pub open spec fn hashed_nodes(self, root: Seq<u8>) -> Map<Seq<u8>, NodeModel> {
        Map::new(
            |path: Seq<u8>| self.nodes.contains_key(path),
            |path: Seq<u8>| self.hashed_node(root, path),
        )
    }

    /// Whether hashing from `root` records what became of the branch at a path.
    pub open spec fn recorded(self, root: Seq<u8>, path: Seq<u8>) -> bool {
        &&& self.visits(root, path)
        &&& self.opens(path)
        &&& self.records(path)
        &&& self.nodes[path] is Branch
        &&& path.len() > 0
    }

    /// Whether the branch at a path is stored in the database.
    pub open spec fn stores(self, path: Seq<u8>) -> bool {
        branch_stored(
            (self.source)(path),
            path,
            self.nodes[path]->Branch_mask,
            self.encoded_kids(path),
        )
    }

    /// The updates after hashing from `root`. What is recorded of a branch concerns its own path
    /// only.
    pub open spec fn hashed_updates(self, root: Seq<u8>, updates: UpdatesModel) -> UpdatesModel {
        UpdatesModel {
            updated: Map::new(
                |path: Seq<u8>|
                    if self.recorded(root, path) {
                        self.stores(path)
                    } else {
                        updates.updated.contains_key(path)
                    },
                |path: Seq<u8>|
                    if self.recorded(root, path) {
                        compact(
                            (self.source)(path),
                            path,
                            self.nodes[path]->Branch_mask,
                            self.encoded_kids(path),
                        )
                    } else {
                        updates.updated[path]
                    },
            ),
            removed: Set::new(
                |path: Seq<u8>|
                    updates.removed.contains(path) || (self.recorded(root, path) && !self.stores(
                        path,
                    ) && was_stored((self.source)(path), path)),
            ),
            wiped: updates.wiped,
        }
    }

    /// Hashing from `root` finds every node it needs, and all paths fit.
    pub open spec fn hashable(self, root: Seq<u8>) -> bool {
        forall|path: Seq<u8>| #[trigger]
            self.visits(root, path) ==> self.node_ok(path)
    }

    /// All nodes that hashing from `root` goes through, if they are encoded with 33 bytes, are
    /// encoded as hashes.
    pub open spec fn headed_from(self, root: Seq<u8>) -> bool {
        forall|path: Seq<u8>| #[trigger]
            self.visits(root, path) ==> headed(self.encoded(path).rlp)
    }

    /// There is a node at a path; it fits; and its children are below it.
    pub open spec fn node_ok(self, path: Seq<u8>) -> bool {
        &&& self.nodes.contains_key(path)
        &&& node_fits(self.prefix, (self.source)(path), None, path, self.nodes[path])
        &&& forall|i: int|
            0 <= i < self.kids(path).len() ==> deeper(path, #[trigger] self.kids(path)[i])
    }
}

/// Whether a path is longer than another and not too long.
pub open spec fn deeper(path: Seq<u8>, kid: Seq<u8>) -> bool {
    path.len() < kid.len() <= MAX_PATH_LEN
}

}
