//! What removing a leaf does to a trie.

use crate::error::ErrorModel;
use crate::hashing::Source;
use crate::model::{child_nibbles, NodeModel};
use crate::outside::{decoded_node, MAX_PATH_LEN};
use crate::path::is_upper;
use crate::prefix_set::PrefixModel;
use crate::provider::RevealedModel;
use crate::subtrie::SubtrieModel;
use crate::trie::TrieModel;
use vstd::prelude::*;

verus! {

/// Where the way to a leaf goes on from a node.
#[verifier::ext_equal]
pub enum NextModel {
    /// The node is the leaf.
    Found,
    /// The way goes on at a path.
    ContinueFrom(Seq<u8>),
    /// The leaf is not in the trie.
    NotFound,
}

/// Where the way to the leaf with a full path goes on from the node at a path. A blinded node is in
/// the way.
pub open spec fn next_to_leaf(
    from: Seq<u8>,
    node: NodeModel,
    full: Seq<u8>,
) -> Result<NextModel, ErrorModel> {
    match node {
        NodeModel::Empty => Ok(NextModel::NotFound),
        NodeModel::Hash(hash) => Err(ErrorModel::BlindedNode { path: from, hash }),
        NodeModel::Leaf { key, .. } => if from + key == full {
            Ok(NextModel::Found)
        } else {
            Ok(NextModel::NotFound)
        },
        NodeModel::Extension { key, .. } => if full.len() > from.len() && (from
            + key).is_prefix_of(full) {
            Ok(NextModel::ContinueFrom(from + key))
        } else {
            Ok(NextModel::NotFound)
        },
        NodeModel::Branch { mask, .. } => if full.len() > from.len() && mask.contains(
            full[from.len() as int],
        ) {
            Ok(NextModel::ContinueFrom(from.push(full[from.len() as int])))
        } else {
            Ok(NextModel::NotFound)
        },
    }
}

/// How a walk to a leaf ends.
#[verifier::ext_equal]
pub enum WalkEnd {
    /// The leaf is not in the trie.
    Missing,
    /// A blinded node is in the way.
    Blocked(ErrorModel),
    /// The leaf is at `path`; `branch` is the last branch above it, and `ext` the extension that
    /// leads to that branch, as far as there are such.
    Leaf { path: Seq<u8>, branch: Option<Seq<u8>>, ext: Option<Seq<u8>> },
}

/// A walk to a leaf. The nodes that it went through keep their hashes no more.
#[verifier::ext_equal]
pub struct Walk {
    pub trie: TrieModel,
    pub end: WalkEnd,
}

/// How removing a leaf ended.
#[verifier::ext_equal]
pub struct Removed {
    pub trie: TrieModel,
    pub result: Result<(), ErrorModel>,
}

/// The branch with one child left becomes the child with a longer key, or an extension to it.
pub open spec fn merged_branch(nibble: u8, child: NodeModel) -> NodeModel {
    match child {
        NodeModel::Leaf { key, .. } => NodeModel::new_leaf(seq![nibble] + key),
        NodeModel::Extension { key, .. } => NodeModel::new_ext(seq![nibble] + key),
        _ => NodeModel::new_ext(seq![nibble]),
    }
}

/// Whether a branch with one child left takes the place of the child.
pub open spec fn takes_child(child: NodeModel) -> bool {
    child is Leaf || child is Extension
}

/// The extension becomes its child with a longer key, unless the child is a branch.
pub open spec fn merged_ext(key: Seq<u8>, child: NodeModel) -> Option<NodeModel> {
    match child {
        NodeModel::Leaf { key: rest, .. } => Some(NodeModel::new_leaf(key + rest)),
        NodeModel::Extension { key: rest, .. } => Some(NodeModel::new_ext(key + rest)),
        _ => None,
    }
}

/// The path of a subtrie without the node at a path: where that was an extension at the root of a
/// lower subtrie, the path that it leads to.
pub open spec fn root_without(subtrie: SubtrieModel, path: Seq<u8>) -> Seq<u8> {
    if !is_upper(path) && subtrie.path == path && subtrie.nodes.contains_key(path)
        && subtrie.nodes[path] is Extension {
        path + subtrie.nodes[path]->Extension_key
    } else {
        subtrie.path
    }
}

impl TrieModel {
    /// The trie with a node in the subtrie that its path belongs to.
    pub open spec fn put_node(self, path: Seq<u8>, node: NodeModel) -> Self {
        self.with_subtrie_at(path, self.subtrie_at(path).put(path, node))
    }

    /// The trie without the node at a path. Where that was an extension at the root of a lower
    /// subtrie, what it leads to is the root now.
    pub open spec fn drop_node(self, path: Seq<u8>) -> Self {
        let subtrie = self.subtrie_at(path);
        self.with_subtrie_at(
            path,
            SubtrieModel {
                path: root_without(subtrie, path),
                nodes: subtrie.nodes.remove(path),
                ..subtrie
            },
        )
    }

    /// The trie without the value at a full path, in the subtrie that `at` belongs to.
    pub open spec fn drop_value(self, at: Seq<u8>, full: Seq<u8>) -> Self {
        let subtrie = self.subtrie_at(at);
        self.with_subtrie_at(
            at,
            SubtrieModel {
                src: Source { values: subtrie.src.values.remove(full), ..subtrie.src },
                ..subtrie
            },
        )
    }

    /// The trie with a value at a full path, in the subtrie that `at` belongs to.
    pub open spec fn put_value(self, at: Seq<u8>, full: Seq<u8>, value: Seq<u8>) -> Self {
        self.with_subtrie_at(at, self.subtrie_at(at).put_value(full, value))
    }

    /// Walks to the leaf with a full path.
    pub open spec fn walk(
        self,
        full: Seq<u8>,
        at: Seq<u8>,
        branch: Option<Seq<u8>>,
        ext: Option<Seq<u8>>,
    ) -> Walk
        decreases full.len() - at.len(),
    {
        let node = self.node(at);
        match next_to_leaf(at, node, full) {
            Err(error) => Walk { trie: self, end: WalkEnd::Blocked(error) },
            Ok(NextModel::NotFound) => Walk { trie: self, end: WalkEnd::Missing },
            Ok(NextModel::Found) => Walk {
                trie: self,
                end: WalkEnd::Leaf { path: at, branch, ext },
            },
            Ok(NextModel::ContinueFrom(next)) => {
                if at.len() < next.len() <= full.len() {
                    let cleared = self.put_node(at, node.with_hash(None));
                    if node is Branch {
                        // An extension that leads to an earlier branch does not lead to this one.
                        let leads = if branch is Some && ext is Some && branch->0.len()
                            > ext->0.len() {
                            None
                        } else {
                            ext
                        };
                        cleared.walk(full, next, Some(at), leads)
                    } else {
                        cleared.walk(full, next, branch, Some(at))
                    }
                } else {
                    arbitrary()
                }
            },
        }
    }

    /// There is a node at each path that the walk to a leaf goes to, and each step leads down.
    pub open spec fn walk_ok(self, full: Seq<u8>, at: Seq<u8>) -> bool
        decreases full.len() - at.len(),
    {
        &&& self.has_node(at)
        &&& next_to_leaf(at, self.node(at), full) matches Ok(NextModel::ContinueFrom(next))
            ==> at.len() < next.len() <= full.len() && self.walk_ok(full, next)
    }

    /// The trie after the leaf at a path was taken out. Its full path counts as changed.
    pub open spec fn unlinked(self, full: Seq<u8>, path: Seq<u8>) -> Self {
        let subtrie = self.subtrie_at(path);
        let without = self.with_subtrie_at(
            path,
            SubtrieModel {
                nodes: subtrie.nodes.remove(path),
                src: Source { values: subtrie.src.values.remove(full), ..subtrie.src },
                ..subtrie
            },
        );
        TrieModel {
            prefix: PrefixModel { all: self.prefix.all, keys: self.prefix.keys.insert(full) },
            ..without
        }
    }

    /// The trie after a node took the place of its child. The value of a leaf moves with it from a
    /// lower subtrie to the upper one.
    pub open spec fn moved(self, parent: Seq<u8>, node: NodeModel, child: Seq<u8>) -> Self {
        match node {
            NodeModel::Leaf { key, .. } => {
                if is_upper(parent) && !is_upper(child) {
                    let full = parent + key;
                    let value = self.subtrie_at(child).src.values[full];
                    self.drop_value(child, full).put_value(parent, full, value)
                } else {
                    self
                }
            },
            _ => self,
        }
    }

    /// The trie after the branch at a path was recorded to be gone, if updates are recorded.
    pub open spec fn recorded_gone(self, path: Seq<u8>) -> Self {
        match self.updates {
            Some(updates) => {
                let subtrie = self.subtrie_at(path);
                let forgot = SubtrieModel {
                    updates: match subtrie.updates {
                        Some(own) => Some(own.forget(path)),
                        None => None,
                    },
                    ..subtrie
                };
                TrieModel {
                    updates: Some(updates.remove(path)),
                    ..self.with_subtrie_at(path, forgot)
                }
            },
            None => self,
        }
    }

    /// The mask of the branch at a path without one child.
    pub open spec fn mask_without(self, branch: Seq<u8>, leaf: Seq<u8>) -> Set<u8> {
        self.node(branch)->Branch_mask.remove(leaf[branch.len() as int])
    }

    /// The path of the only child that is left in a mask.
    pub open spec fn only_child(branch: Seq<u8>, mask: Set<u8>) -> Seq<u8> {
        branch.push(child_nibbles(mask)[0])
    }

    /// The path of the blinded node that has to be known for removing a leaf, if there is one: the
    /// only child that is left below the last branch above the leaf.
    pub open spec fn asks(self, full: Seq<u8>) -> Option<Seq<u8>> {
        let walk = self.walk(full, Seq::empty(), None, None);
        match walk.end {
            WalkEnd::Leaf { path, branch: Some(branch), .. } => {
                let mask = walk.trie.mask_without(branch, path);
                let child = TrieModel::only_child(branch, mask);
                if path.len() > 0 && child_nibbles(mask).len() == 1 && walk.trie.node(
                    child,
                ) is Hash {
                    Some(child)
                } else {
                    None
                }
            },
            _ => None,
        }
    }

    /// Reveals a blinded node, and its children, from what a provider answered.
    pub open spec fn reveal_reply(
        self,
        path: Seq<u8>,
        reply: Result<Option<RevealedModel>, ErrorModel>,
    ) -> Removed {
        match reply {
            Err(error) => Removed { trie: self, result: Err(error) },
            Ok(None) => Removed {
                trie: self,
                result: Err(ErrorModel::NodeNotFoundInProvider { path }),
            },
            Ok(Some(revealed)) => match decoded_node(revealed.node) {
                Err(error) => Removed { trie: self, result: Err(ErrorModel::Rlp(error)) },
                Ok(node) => {
                    let after = self.with_revealed(path, node, revealed.masks);
                    Removed { trie: after.trie, result: after.result }
                },
            },
        }
    }

    /// The trie after the only child left of a branch was known: the branch is merged with it.
    pub open spec fn merged(self, branch: Seq<u8>, child: Seq<u8>) -> Self {
        let node = self.node(child);
        let new = merged_branch(child.last(), node);
        let taken = if takes_child(node) {
            self.drop_node(child).moved(branch, new, child)
        } else {
            self
        };
        taken.recorded_gone(branch).put_node(branch, new)
    }

    /// The trie after the extension above a branch was merged with what became of the branch.
    pub open spec fn ext_merged(self, ext: Option<Seq<u8>>, branch: Seq<u8>) -> Self {
        match ext {
            Some(above) => {
                match merged_ext(self.node(above)->Extension_key, self.node(branch)) {
                    Some(new) => self.put_node(above, new).drop_node(branch).moved(
                        above,
                        new,
                        branch,
                    ),
                    None => self,
                }
            },
            None => self,
        }
    }

    /// Removes the leaf with a full path. `reply` is what the provider answers, if it is asked.
    pub open spec fn leaf_removed(
        self,
        full: Seq<u8>,
        reply: Result<Option<RevealedModel>, ErrorModel>,
    ) -> Removed {
        let walk = self.walk(full, Seq::empty(), None, None);
        match walk.end {
            WalkEnd::Missing => Removed { trie: walk.trie, result: Ok(()) },
            WalkEnd::Blocked(error) => Removed { trie: walk.trie, result: Err(error) },
            WalkEnd::Leaf { path, branch, ext } => {
                let without = walk.trie.unlinked(full, path);
                if path.len() == 0 {
                    Removed { trie: without.put_node(path, NodeModel::Empty), result: Ok(()) }
                } else {
                    match branch {
                        None => Removed { trie: without, result: Ok(()) },
                        Some(above) => {
                            let mask = walk.trie.mask_without(above, path);
                            if child_nibbles(mask).len() == 1 {
                                without.child_left(
                                    above,
                                    TrieModel::only_child(above, mask),
                                    ext,
                                    reply,
                                )
                            } else {
                                let after = without.put_node(above, NodeModel::new_branch(mask));
                                Removed { trie: after.ext_merged(ext, above), result: Ok(()) }
                            }
                        },
                    }
                }
            },
        }
    }

    /// What becomes of a branch with one child left, and of the extension above it.
    pub open spec fn child_left(
        self,
        branch: Seq<u8>,
        child: Seq<u8>,
        ext: Option<Seq<u8>>,
        reply: Result<Option<RevealedModel>, ErrorModel>,
    ) -> Removed {
        let known = if self.node(child) is Hash {
            self.reveal_reply(child, reply)
        } else {
            Removed { trie: self, result: Ok(()) }
        };
        if known.result is Err {
            known
        } else {
            Removed {
                trie: known.trie.merged(branch, child).ext_merged(ext, branch),
                result: Ok(()),
            }
        }
    }

    /// The leaf with a full path can be removed: the walk to it finds its nodes; a leaf below the
    /// root has a branch above it; the extension that leads to the branch, if there is one, ends
    /// there; and the only child that is left of the branch, if that is so, is there, fits, and has
    /// its value, if it is a leaf whose value has to move.
    pub open spec fn removable(self, full: Seq<u8>) -> bool {
        let walk = self.walk(full, Seq::empty(), None, None);
        &&& self.walk_ok(full, Seq::empty())
        &&& walk.end matches WalkEnd::Leaf { path, branch, ext } ==> path.len() > 0 ==> {
            &&& branch is Some
            &&& ext matches Some(above) ==> above + walk.trie.node(above)->Extension_key
                == branch->0
            &&& child_nibbles(walk.trie.mask_without(branch->0, path)).len() == 1 ==> {
                let child = TrieModel::only_child(
                    branch->0,
                    walk.trie.mask_without(branch->0, path),
                );
                &&& walk.trie.has_node(child)
                &&& walk.trie.node(child) !is Empty
                &&& walk.trie.child_fits(branch->0, ext, child)
            }
        }
    }

    /// A child that may take the place of its parents has a key that fits, and if it is a leaf
    /// whose value has to move, its value is there.
    pub open spec fn child_fits(
        self,
        branch: Seq<u8>,
        ext: Option<Seq<u8>>,
        child: Seq<u8>,
    ) -> bool {
        match self.node(child) {
            NodeModel::Leaf { key, .. } => {
                &&& child.len() + key.len() <= MAX_PATH_LEN
                &&& !is_upper(child) && (is_upper(branch) || (ext is Some && is_upper(ext->0)))
                    ==> self.source_at(child).values.contains_key(child + key)
            },
            NodeModel::Extension { key, .. } => child.len() + key.len() <= MAX_PATH_LEN,
            _ => true,
        }
    }
}

}
