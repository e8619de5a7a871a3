//! What a trie records for its database.

use crate::path_map::{PathMap, PathSet};
use alloy_trie::BranchNodeCompact;
use vstd::prelude::*;

verus! {

/// The model of recorded updates.
#[verifier::ext_equal]
pub struct UpdatesModel {
    pub updated: Map<Seq<u8>, BranchNodeCompact>,
    pub removed: Set<Seq<u8>>,
    pub wiped: bool,
}

impl UpdatesModel {
    /// The updates of a trie in which nothing happened.
    pub open spec fn none() -> Self {
        UpdatesModel { updated: Map::empty(), removed: Set::empty(), wiped: false }
    }

    /// These updates followed by others.
    pub open spec fn followed_by(self, other: Self) -> Self {
        UpdatesModel {
            updated: self.updated.union_prefer_right(other.updated),
            removed: self.removed.union(other.removed),
            wiped: self.wiped || other.wiped,
        }
    }

    /// The updates after a branch was written.
    pub open spec fn update(self, path: Seq<u8>, branch: BranchNodeCompact) -> Self {
        UpdatesModel { updated: self.updated.insert(path, branch), ..self }
    }

    /// The updates after the branch at a path was dropped.
    pub open spec fn remove(self, path: Seq<u8>) -> Self {
        UpdatesModel {
            updated: self.updated.remove(path),
            removed: self.removed.insert(path),
            ..self
        }
    }

    /// The updates without what was recorded to be written at a path.
    pub open spec fn forget(self, path: Seq<u8>) -> Self {
        UpdatesModel { updated: self.updated.remove(path), ..self }
    }
}

/// The branches that a trie wrote and dropped.
#[derive(Clone, PartialEq, Eq, Debug)]
pub struct SparseTrieUpdates {
    /// The branches that were written.
    pub updated_nodes: PathMap<BranchNodeCompact>,
    /// The paths of the branches that were dropped.
    pub removed_nodes: PathSet,
    /// Whether the trie was emptied as a whole.
    pub wiped: bool,
}

impl Default for SparseTrieUpdates {
    fn default() -> (updates: Self)
        ensures
            updates@ == UpdatesModel::none(),
    {
        SparseTrieUpdates {
            updated_nodes: PathMap::new(),
            removed_nodes: PathSet::new(),
            wiped: false,
        }
    }
}

impl SparseTrieUpdates {
    /// The recorded updates.
    pub open spec fn view(&self) -> UpdatesModel {
        UpdatesModel {
            updated: self.updated_nodes@,
            removed: self.removed_nodes@,
            wiped: self.wiped,
        }
    }

    /// Adds updates that were recorded later.
    pub fn extend(&mut self, other: Self)
        ensures
            final(self)@ == old(self)@.followed_by(other@),
    {
        self.updated_nodes.extend(other.updated_nodes);
        self.removed_nodes.extend(other.removed_nodes);
        self.wiped = self.wiped || other.wiped;
    }
}

/// The model of updates that may not be recorded.
pub open spec fn updates_of(updates: Option<SparseTrieUpdates>) -> Option<UpdatesModel> {
    match updates {
        Some(u) => Some(u@),
        None => None,
    }
}

}
