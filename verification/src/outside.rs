//! What this library takes from the crates that define nibble paths, hashes, RLP nodes and hash
//! maps: the declared types, names for what their values hold, and the contracts of the calls.

use crate::model::{child_nibbles, hash_rlp, headed, lex_less, rlp_hash, Model, TrieNodeModel};
use crate::node::{BranchNode, ExtensionNode, LeafNode, TrieNode};
use alloy_primitives::{keccak256, FixedBytes, B256};
use alloy_rlp::Decodable;
use alloy_trie::{BranchNodeCompact, Nibbles, TrieMask, EMPTY_ROOT_HASH};
use alloy_trie::nodes::{BranchNodeRef, ExtensionNodeRef, LeafNodeRef, RlpNode};
use smallvec::SmallVec;
use vstd::prelude::*;

verus! {

/// The longest path, in nibbles, that a [`Nibbles`] value can hold.
pub const MAX_PATH_LEN: usize = 64;

// Nibble paths.

/// `nybbles::Nibbles`: a sequence of at most [`MAX_PATH_LEN`] nibbles.
#[verifier::external_type_specification]
#[verifier::external_body]
pub struct ExNibbles(Nibbles);

/// The nibbles that a path holds, first nibble first.
pub uninterp spec fn nibbles_of(path: Nibbles) -> Seq<u8>;

/// `Nibbles::clone` copies the path.
pub assume_specification[ <Nibbles as Clone>::clone ](path: &Nibbles) -> (copy: Nibbles)
    ensures
        copy == *path,
;

/// `Nibbles::new` makes the empty path.
pub assume_specification[ Nibbles::new ]() -> (path: Nibbles)
    ensures
        nibbles_of(path) == Seq::<u8>::empty(),
;

/// `Nibbles::len` counts the nibbles. There are never more than [`MAX_PATH_LEN`], and as they are
/// packed two to a byte, each of them is below 16.
pub assume_specification[ Nibbles::len ](path: &Nibbles) -> (len: usize)
    ensures
        len == nibbles_of(*path).len(),
        len <= MAX_PATH_LEN,
        forall|i: int| 0 <= i < len ==> (#[trigger] nibbles_of(*path)[i]) < 16,
;

/// `Nibbles::is_empty` tells whether there are no nibbles.
pub assume_specification[ Nibbles::is_empty ](path: &Nibbles) -> (empty: bool)
    ensures
        empty == (nibbles_of(*path).len() == 0),
;

/// `Nibbles::get_unchecked` reads the nibble at an index, and panics past the end. A nibble is
/// below 16.
pub assume_specification[ Nibbles::get_unchecked ](path: &Nibbles, i: usize) -> (nibble: u8)
    requires
        i < nibbles_of(*path).len(),
    ensures
        nibble == nibbles_of(*path)[i as int],
        nibble < 16,
;

/// `Nibbles::get_byte_unchecked` joins the nibble at an index and the one after it into a byte,
/// the first one on top.
pub assume_specification[ Nibbles::get_byte_unchecked ](path: &Nibbles, i: usize) -> (byte: u8)
    requires
        i + 1 < nibbles_of(*path).len(),
    ensures
        nibbles_of(*path)[i as int] == byte / 16,
        nibbles_of(*path)[i as int + 1] == byte % 16,
;

/// `Nibbles::push_unchecked` appends one nibble. It checks neither the room nor the nibble.
pub assume_specification[ Nibbles::push_unchecked ](path: &mut Nibbles, nibble: u8)
    requires
        nibbles_of(*old(path)).len() < MAX_PATH_LEN,
        nibble < 16,
    ensures
        nibbles_of(*final(path)) == nibbles_of(*old(path)).push(nibble),
;

/// `Nibbles::extend` appends another path, and panics if the result does not fit.
pub assume_specification[ Nibbles::extend ](path: &mut Nibbles, other: &Nibbles)
    requires
        nibbles_of(*old(path)).len() + nibbles_of(*other).len() <= MAX_PATH_LEN,
    ensures
        nibbles_of(*final(path)) == nibbles_of(*old(path)) + nibbles_of(*other),
;

/// `Nibbles::starts_with` tells whether the other path is a prefix of this one.
pub assume_specification[ Nibbles::starts_with ](path: &Nibbles, other: &Nibbles) -> (yes: bool)
    ensures
        yes == nibbles_of(*other).is_prefix_of(nibbles_of(*path)),
;

/// `Nibbles::slice` with the range `..len` keeps the first `len` nibbles, and panics if there are
/// fewer.
#[verifier::external_body]
pub(crate) fn slice_to(path: &Nibbles, len: usize) -> (head: Nibbles)
    requires
        len <= nibbles_of(*path).len(),
    ensures
        nibbles_of(head) == nibbles_of(*path).take(len as int),
{
    path.slice(..len)
}

/// `Nibbles` as `PartialEq`: two paths are equal when they hold the same nibbles.
#[verifier::external_body]
pub(crate) fn same_path(a: &Nibbles, b: &Nibbles) -> (same: bool)
    ensures
        same == (nibbles_of(*a) =~= nibbles_of(*b)),
{
    a == b
}

/// `Nibbles` as `PartialOrd`: paths are ordered nibble by nibble, a proper prefix first.
#[verifier::external_body]
pub(crate) fn path_before(a: &Nibbles, b: &Nibbles) -> (before: bool)
    ensures
        before == lex_less(nibbles_of(*a), nibbles_of(*b)),
{
    a < b
}

/// The nibbles of each path of a sequence.
pub open spec fn all_nibbles(paths: Seq<Nibbles>) -> Seq<Seq<u8>> {
    paths.map_values(|p: Nibbles| nibbles_of(p))
}

/// `slice::sort_unstable` on paths: the same paths, each as often as before, in the order of
/// `Nibbles`.
#[verifier::external_body]
pub(crate) fn sort_paths(paths: &mut Vec<Nibbles>)
    ensures
        all_nibbles(final(paths)@).to_multiset() == all_nibbles(old(paths)@).to_multiset(),
        forall|i: int, j: int|
            0 <= i < j < final(paths)@.len() ==> !#[trigger] lex_less(
                nibbles_of(final(paths)@[j]),
                nibbles_of(final(paths)@[i]),
            ),
{
    paths.sort_unstable();
}

// Child masks.

/// `alloy_trie::TrieMask`: a set of child nibbles.
#[verifier::external_type_specification]
#[verifier::external_body]
pub struct ExTrieMask(TrieMask);

/// The child nibbles that are set in a mask.
pub uninterp spec fn mask_bits(mask: TrieMask) -> Set<u8>;

/// `TrieMask::clone` copies the mask.
pub assume_specification[ <TrieMask as Clone>::clone ](mask: &TrieMask) -> (copy: TrieMask)
    ensures
        copy == *mask,
;

/// `TrieMask::default` has no bit set.
pub assume_specification[ <TrieMask as Default>::default ]() -> (mask: TrieMask)
    ensures
        mask_bits(mask) == Set::<u8>::empty(),
;

/// `TrieMask::is_bit_set` tells whether a nibble is in the mask. The shift overflows on 16 and
/// more.
pub assume_specification[ TrieMask::is_bit_set ](mask: TrieMask, index: u8) -> (set: bool)
    requires
        index < 16,
    ensures
        set == mask_bits(mask).contains(index),
;

/// `TrieMask::is_empty` tells whether no bit is set. A mask has no bits but those of the nibbles.
pub assume_specification[ TrieMask::is_empty ](mask: TrieMask) -> (empty: bool)
    ensures
        empty == (mask_bits(mask) =~= Set::<u8>::empty()),
        empty == (child_nibbles(mask_bits(mask)).len() == 0),
;

/// `TrieMask::count_bits` counts the nibbles in the mask.
pub assume_specification[ TrieMask::count_bits ](mask: TrieMask) -> (count: u8)
    ensures
        count == child_nibbles(mask_bits(mask)).len(),
;

/// `TrieMask::first_set_bit_index` gives the smallest nibble in the mask, if there is one.
pub assume_specification[ TrieMask::first_set_bit_index ](mask: TrieMask) -> (first: Option<u8>)
    ensures
        match first {
            Some(nibble) => child_nibbles(mask_bits(mask)).len() > 0 && nibble == child_nibbles(
                mask_bits(mask),
            )[0],
            None => child_nibbles(mask_bits(mask)).len() == 0,
        },
;

/// `TrieMask::set_bit` adds a nibble to the mask.
pub assume_specification[ TrieMask::set_bit ](mask: &mut TrieMask, index: u8)
    requires
        index < 16,
    ensures
        mask_bits(*final(mask)) == mask_bits(*old(mask)).insert(index),
;

/// `TrieMask::unset_bit` takes a nibble out of the mask.
pub assume_specification[ TrieMask::unset_bit ](mask: &mut TrieMask, index: u8)
    requires
        index < 16,
    ensures
        mask_bits(*final(mask)) == mask_bits(*old(mask)).remove(index),
;

// Hashes and RLP nodes.

/// `alloy_primitives::FixedBytes`, of which `B256` is the one of 32 bytes.
#[verifier::external_type_specification]
#[verifier::external_body]
pub struct ExFixedBytes<const N: usize>(FixedBytes<N>);

/// The bytes of a hash.
pub uninterp spec fn hash_bytes(hash: B256) -> Seq<u8>;

/// `B256` as `PartialEq`: two hashes are equal when their bytes are.
#[verifier::external_body]
pub(crate) fn same_hash(a: &B256, b: &B256) -> (same: bool)
    ensures
        same == (hash_bytes(*a) =~= hash_bytes(*b)),
{
    a == b
}

/// `B256::from_slice` on what follows the first byte. It panics unless that has 32 bytes.
#[verifier::external_body]
pub(crate) fn hash_after_header(rlp: &[u8]) -> (hash: B256)
    requires
        rlp@.len() == 33,
    ensures
        hash_bytes(hash) == rlp@.skip(1),
{
    B256::from_slice(&rlp[1..])
}

/// What `keccak256` gives for some bytes.
pub uninterp spec fn keccak(bytes: Seq<u8>) -> Seq<u8>;

/// `keccak256` hashes bytes.
#[verifier::external_body]
pub(crate) fn hash_of(bytes: &[u8]) -> (hash: B256)
    ensures
        hash_bytes(hash) == keccak(bytes@),
{
    keccak256(bytes)
}

/// The root hash of the trie that holds nothing: the hash of the RLP of the empty string.
pub open spec fn empty_root_bytes() -> Seq<u8> {
    seq![
        0x56u8, 0xe8, 0x1f, 0x17, 0x1b, 0xcc, 0x55, 0xa6, 0xff, 0x83, 0x45, 0xe6, 0x92, 0xc0, 0xf8,
        0x6e, 0x5b, 0x48, 0xe0, 0x1b, 0x99, 0x6c, 0xad, 0xc0, 0x01, 0x62, 0x2f, 0xb5, 0xe3, 0x63,
        0xb4, 0x21,
    ]
}

/// The constant `alloy_trie::EMPTY_ROOT_HASH`.
#[verifier::external_body]
pub(crate) fn empty_root_hash() -> (hash: B256)
    ensures
        hash_bytes(hash) == empty_root_bytes(),
{
    EMPTY_ROOT_HASH
}

/// `alloy_trie::nodes::RlpNode`: the RLP of a node, or that of its hash where it is long.
#[verifier::external_type_specification]
#[verifier::external_body]
pub struct ExRlpNode(RlpNode);

/// The bytes of an RLP node.
pub uninterp spec fn rlp_bytes(node: RlpNode) -> Seq<u8>;

/// `RlpNode::clone` copies the bytes.
pub assume_specification[ <RlpNode as Clone>::clone ](node: &RlpNode) -> (copy: RlpNode)
    ensures
        rlp_bytes(copy) == rlp_bytes(*node),
;

/// `RlpNode::as_slice` gives the bytes.
pub assume_specification[ RlpNode::as_slice ](node: &RlpNode) -> (bytes: &[u8])
    ensures
        bytes@ == rlp_bytes(*node),
;

/// `RlpNode::word_rlp` puts the RLP header of a string of 32 bytes before the hash.
pub assume_specification[ RlpNode::word_rlp ](word: &B256) -> (node: RlpNode)
    ensures
        rlp_bytes(node) == hash_rlp(hash_bytes(*word)),
        rlp_bytes(node).len() == 33,
;

/// `RlpNode::as_hash` gives what follows the first byte of an RLP node of 33 bytes, and nothing
/// for one of any other length.
pub assume_specification[ RlpNode::as_hash ](node: &RlpNode) -> (hash: Option<B256>)
    ensures
        hash is Some == rlp_hash(rlp_bytes(*node)) is Some,
        hash is Some ==> hash_bytes(hash->0) == rlp_hash(rlp_bytes(*node))->0,
;

/// What `LeafNodeRef::rlp` gives for a leaf with a key and a value, on an empty buffer.
pub uninterp spec fn leaf_node_rlp(key: Seq<u8>, value: Seq<u8>) -> Seq<u8>;

/// `LeafNodeRef::rlp` encodes a leaf, and hashes the encoding where it has 32 bytes or more: with 33
/// bytes the result is the RLP of a hash. What the buffer holds afterwards is not stated.
#[verifier::external_body]
pub(crate) fn encode_leaf(key: &Nibbles, value: &Vec<u8>, buf: &mut Vec<u8>) -> (node: RlpNode)
    requires
        old(buf)@.len() == 0,
    ensures
        rlp_bytes(node) == leaf_node_rlp(nibbles_of(*key), value@),
        headed(rlp_bytes(node)),
{
    LeafNodeRef { key, value }.rlp(buf)
}

/// What `ExtensionNodeRef::rlp` gives for an extension with a key and a child, on an empty buffer.
pub uninterp spec fn extension_node_rlp(key: Seq<u8>, child: Seq<u8>) -> Seq<u8>;

/// `ExtensionNodeRef::rlp` encodes an extension, and hashes the encoding where it has 32 bytes or
/// more: with 33 bytes the result is the RLP of a hash. What the buffer holds afterwards is not
/// stated.
#[verifier::external_body]
pub(crate) fn encode_extension(key: &Nibbles, child: &RlpNode, buf: &mut Vec<u8>) -> (node: RlpNode)
    requires
        old(buf)@.len() == 0,
    ensures
        rlp_bytes(node) == extension_node_rlp(nibbles_of(*key), rlp_bytes(*child)),
        headed(rlp_bytes(node)),
{
    ExtensionNodeRef::new(key, child).rlp(buf)
}

/// What `BranchNodeRef::rlp` gives for a branch with one child for each nibble of a mask, in the
/// order of the nibbles, on an empty buffer.
pub uninterp spec fn branch_node_rlp(children: Seq<Seq<u8>>, mask: Set<u8>) -> Seq<u8>;

/// `BranchNodeRef::rlp` encodes a branch, and hashes the encoding where it has 32 bytes or more:
/// with 33 bytes the result is the RLP of a hash. It panics where there are fewer children than
/// nibbles in the mask. What the buffer holds afterwards is not stated.
#[verifier::external_body]
pub(crate) fn encode_branch(children: &ChildRlps, mask: TrieMask, buf: &mut Vec<u8>) -> (node: RlpNode)
    requires
        child_rlps(*children).len() == child_nibbles(mask_bits(mask)).len(),
        old(buf)@.len() == 0,
    ensures
        rlp_bytes(node) == branch_node_rlp(child_rlps(*children), mask_bits(mask)),
        headed(rlp_bytes(node)),
{
    BranchNodeRef::new(&children.buf, mask).rlp(buf)
}

/// `alloy_rlp::Error`: why a decoder refused its input.
#[verifier::external_type_specification]
#[verifier::external_body]
pub struct ExRlpError(alloy_rlp::Error);

/// What `TrieNode::decode` makes of some bytes.
pub uninterp spec fn decoded_node(bytes: Seq<u8>) -> Result<TrieNodeModel, alloy_rlp::Error>;

/// `TrieNode::decode` reads a node from its RLP. A branch has one child for each nibble of its
/// mask, and a child is a proper part of the bytes that it was read from.
#[verifier::external_body]
pub(crate) fn decode_node(bytes: &[u8]) -> (node: Result<TrieNode, alloy_rlp::Error>)
    ensures
        match node {
            Ok(n) => decoded_node(bytes@) == Ok::<TrieNodeModel, alloy_rlp::Error>(n.model())
                && n.model().well_formed() && n.model().children_below(bytes@.len()),
            Err(e) => decoded_node(bytes@) == Err::<TrieNodeModel, alloy_rlp::Error>(e),
        },
{
    Ok(
        match alloy_trie::nodes::TrieNode::decode(&mut &bytes[..])? {
            alloy_trie::nodes::TrieNode::EmptyRoot => TrieNode::EmptyRoot,
            alloy_trie::nodes::TrieNode::Branch(branch) => TrieNode::Branch(
                BranchNode { stack: branch.stack, state_mask: branch.state_mask },
            ),
            alloy_trie::nodes::TrieNode::Extension(ext) => TrieNode::Extension(
                ExtensionNode { key: ext.key, child: ext.child },
            ),
            alloy_trie::nodes::TrieNode::Leaf(leaf) => TrieNode::Leaf(
                LeafNode { key: leaf.key, value: leaf.value },
            ),
        },
    )
}

/// `alloy_trie::BranchNodeCompact`: a branch as the database of a trie keeps it.
#[verifier::external_type_specification]
#[verifier::external_body]
pub struct ExBranchNodeCompact(BranchNodeCompact);

/// What `BranchNodeCompact::new` makes of its masks and hashes.
pub uninterp spec fn compact_branch(
    state_mask: Set<u8>,
    tree_mask: Set<u8>,
    hash_mask: Set<u8>,
    hashes: Seq<Seq<u8>>,
    root_hash: Option<Seq<u8>>,
) -> BranchNodeCompact;

/// The bytes of each hash of a sequence.
pub open spec fn all_hash_bytes(hashes: Seq<B256>) -> Seq<Seq<u8>> {
    hashes.map_values(|h: B256| hash_bytes(h))
}

/// `BranchNodeCompact::new` keeps its arguments. It panics unless the tree mask and the hash mask
/// lie within the state mask and there is one hash for each nibble of the hash mask.
#[verifier::external_body]
pub(crate) fn new_compact_branch(
    state_mask: TrieMask,
    tree_mask: TrieMask,
    hash_mask: TrieMask,
    hashes: Vec<B256>,
    root_hash: Option<B256>,
) -> (node: BranchNodeCompact)
    requires
        mask_bits(tree_mask).subset_of(mask_bits(state_mask)),
        mask_bits(hash_mask).subset_of(mask_bits(state_mask)),
        child_nibbles(mask_bits(hash_mask)).len() == hashes@.len(),
    ensures
        node == compact_branch(
            mask_bits(state_mask),
            mask_bits(tree_mask),
            mask_bits(hash_mask),
            all_hash_bytes(hashes@),
            match root_hash {
                Some(h) => Some(hash_bytes(h)),
                None => None,
            },
        ),
{
    BranchNodeCompact::new(state_mask, tree_mask, hash_mask, hashes, root_hash)
}

// Buffers for the children of a branch.

/// The paths of the children of a branch, in a `SmallVec` of 16.
#[verifier::external_body]
#[derive(PartialEq, Eq, Debug)]
pub struct ChildPaths {
    buf: SmallVec<[Nibbles; 16]>,
}

impl Clone for ChildPaths {
    /// `SmallVec::clone` holds the same items.
    #[verifier::external_body]
    fn clone(&self) -> (copy: Self)
        ensures
            child_paths(copy) == child_paths(*self),
    {
        ChildPaths { buf: self.buf.clone() }
    }
}

/// The paths that a buffer of child paths holds.
pub uninterp spec fn child_paths(paths: ChildPaths) -> Seq<Seq<u8>>;

/// `SmallVec::new` holds nothing.
#[verifier::external_body]
pub(crate) fn no_child_paths() -> (paths: ChildPaths)
    ensures
        child_paths(paths) == Seq::<Seq<u8>>::empty(),
{
    ChildPaths { buf: SmallVec::new() }
}

/// `SmallVec::clear` drops all items.
#[verifier::external_body]
pub(crate) fn clear_child_paths(paths: &mut ChildPaths)
    ensures
        child_paths(*final(paths)) == Seq::<Seq<u8>>::empty(),
{
    paths.buf.clear();
}

/// `SmallVec::push` appends an item.
#[verifier::external_body]
pub(crate) fn push_child_path(paths: &mut ChildPaths, path: Nibbles)
    ensures
        child_paths(*final(paths)) == child_paths(*old(paths)).push(nibbles_of(path)),
{
    paths.buf.push(path);
}

/// `SmallVec::len` counts the items.
#[verifier::external_body]
pub(crate) fn count_child_paths(paths: &ChildPaths) -> (count: usize)
    ensures
        count == child_paths(*paths).len(),
{
    paths.buf.len()
}

/// `SmallVec` indexed by position, which panics past the end.
#[verifier::external_body]
pub(crate) fn child_path_at(paths: &ChildPaths, i: usize) -> (path: Nibbles)
    requires
        i < child_paths(*paths).len(),
    ensures
        nibbles_of(path) == child_paths(*paths)[i as int],
{
    paths.buf[i]
}

/// The RLP nodes of the children of a branch, in a `SmallVec` of 16.
#[verifier::external_body]
#[derive(PartialEq, Eq, Debug)]
pub struct ChildRlps {
    buf: SmallVec<[RlpNode; 16]>,
}

impl Clone for ChildRlps {
    /// `SmallVec::clone` holds the same items.
    #[verifier::external_body]
    fn clone(&self) -> (copy: Self)
        ensures
            child_rlps(copy) == child_rlps(*self),
    {
        ChildRlps { buf: self.buf.clone() }
    }
}

/// The bytes of the RLP nodes that a buffer holds.
pub uninterp spec fn child_rlps(children: ChildRlps) -> Seq<Seq<u8>>;

/// `SmallVec::new` holds nothing.
#[verifier::external_body]
pub(crate) fn no_child_rlps() -> (children: ChildRlps)
    ensures
        child_rlps(children) == Seq::<Seq<u8>>::empty(),
{
    ChildRlps { buf: SmallVec::new() }
}

/// `SmallVec::resize` cuts the buffer to a length, or fills it up with RLP nodes of no bytes.
#[verifier::external_body]
pub(crate) fn resize_child_rlps(children: &mut ChildRlps, len: usize)
    ensures
        child_rlps(*final(children)) == Seq::new(
            len as nat,
            |i: int|
                if i < child_rlps(*old(children)).len() {
                    child_rlps(*old(children))[i]
                } else {
                    Seq::<u8>::empty()
                },
        ),
{
    children.buf.resize(len, Default::default());
}

/// `SmallVec` indexed by position, written to. It panics past the end.
#[verifier::external_body]
pub(crate) fn set_child_rlp(children: &mut ChildRlps, i: usize, node: RlpNode)
    requires
        i < child_rlps(*old(children)).len(),
    ensures
        child_rlps(*final(children)) == child_rlps(*old(children)).update(i as int, rlp_bytes(node)),
{
    children.buf[i] = node;
}

}
