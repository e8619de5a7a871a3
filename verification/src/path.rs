//! Where in the trie a path belongs, and the order of paths.

use crate::model::Model;
use crate::outside::MAX_PATH_LEN;
use alloy_trie::Nibbles;
use vstd::prelude::*;

verus! {

/// The length, in nibbles, from which on a path belongs to a lower subtrie. Shorter paths belong to
/// the upper subtrie.
pub const UPPER_TRIE_MAX_DEPTH: usize = 2;

/// The number of lower subtries: one for each path of [`UPPER_TRIE_MAX_DEPTH`] nibbles.
pub const NUM_LOWER_SUBTRIES: usize = 256;

/// Whether a sequence can be a path: it is not too long, and its items are nibbles.
pub open spec fn is_path(path: Seq<u8>) -> bool {
    &&& path.len() <= MAX_PATH_LEN
    &&& forall|i: int| 0 <= i < path.len() ==> (#[trigger] path[i]) < 16
}

/// Whether a path belongs to the upper subtrie.
pub open spec fn is_upper(path: Seq<u8>) -> bool {
    path.len() < UPPER_TRIE_MAX_DEPTH
}

/// The index of the lower subtrie that a path belongs to, made of its first two nibbles.
pub open spec fn lower_index_of(path: Seq<u8>) -> int {
    path[0] * 16 + path[1]
}

/// The path of the lower subtrie with an index.
pub open spec fn lower_path(index: int) -> Seq<u8> {
    seq![(index / 16) as u8, (index % 16) as u8]
}

/// The kind of subtrie that a path belongs to:
/// - paths of fewer than [`UPPER_TRIE_MAX_DEPTH`] nibbles belong to the upper subtrie;
/// - all others belong to one of the lower subtries, which the first [`UPPER_TRIE_MAX_DEPTH`]
///   nibbles choose.
#[derive(Clone, Copy, PartialEq, Eq, Structural, Debug)]
pub enum SparseSubtrieType {
    /// The upper subtrie.
    Upper,
    /// The lower subtrie with the given index.
    Lower(usize),
}

/// The kind of subtrie that a path belongs to.
pub open spec fn subtrie_type(path: Seq<u8>) -> SparseSubtrieType {
    if is_upper(path) {
        SparseSubtrieType::Upper
    } else {
        SparseSubtrieType::Lower(lower_index_of(path) as usize)
    }
}

impl SparseSubtrieType {
    /// Returns true if a node at a path of the given length is placed in the upper subtrie.
    pub fn path_len_is_upper(len: usize) -> (upper: bool)
        ensures
            upper == (len < UPPER_TRIE_MAX_DEPTH),
    {
        len < UPPER_TRIE_MAX_DEPTH
    }

    /// Returns the type of subtrie based on the given path.
    pub fn from_path(path: &Nibbles) -> (kind: Self)
        ensures
            kind == subtrie_type(path.model()),
            kind matches SparseSubtrieType::Lower(index) ==> index == lower_index_of(path.model())
                && index < NUM_LOWER_SUBTRIES && lower_path(index as int) == path.model().take(2),
    {
        if Self::path_len_is_upper(path.len()) {
            Self::Upper
        } else {
            Self::Lower(path_subtrie_index_unchecked(path))
        }
    }

    /// Returns the index of the lower subtrie, if it is one.
    pub fn lower_index(&self) -> (index: Option<usize>)
        ensures
            index == match *self {
                SparseSubtrieType::Upper => None,
                SparseSubtrieType::Lower(index) => Some(index),
            },
    {
        match self {
            Self::Upper => None,
            Self::Lower(index) => Some(*index),
        }
    }
}

/// Makes it known that a path is not too long, and that its items are nibbles.
pub(crate) fn know_path(path: &Nibbles)
    ensures
        is_path(path.model()),
{
    let _ = path.len();
}

/// Converts the first [`UPPER_TRIE_MAX_DEPTH`] nibbles of the path into the index of a lower
/// subtrie, which is below [`NUM_LOWER_SUBTRIES`].
pub fn path_subtrie_index_unchecked(path: &Nibbles) -> (index: usize)
    requires
        !is_upper(path.model()),
    ensures
        index == lower_index_of(path.model()),
        index < NUM_LOWER_SUBTRIES,
        lower_path(index as int) == path.model().take(2),
{
    let byte = path.get_byte_unchecked(0);
    assert(path.model().take(2) =~= seq![path.model()[0], path.model()[1]]);
    byte as usize
}

}
