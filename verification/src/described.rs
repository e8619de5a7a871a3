//! What the database is told of a branch, said nibble by nibble.

use crate::hash_run::lemma_nibbles_below;
use crate::hashing::{
    child_hashed, child_in_tree, hash_mask_from, hashes_from, tree_mask_from, Encoded, Source,
};
use crate::model::child_nibbles;
use crate::node::SparseNodeType;
use crate::subtrie::{lemma_nibbles_insert, lemma_no_nibbles};
use vstd::prelude::*;

verus! {

/// Whether there is a branch in the database below the child of a branch at a nibble: the child is a
/// branch that is stored, or an extension that leads to one, or it is blinded and the database had one
/// there.
pub open spec fn has_tree(src: Source, path: Seq<u8>, n: u8, kid: Encoded) -> bool {
    match kid.kind {
        SparseNodeType::Branch { store_in_db_trie } => store_in_db_trie == Some(true),
        SparseNodeType::Extension { store_in_db_trie } => store_in_db_trie == Some(true),
        SparseNodeType::Hash => src.tree_masks.contains_key(path) && src.tree_masks[path].contains(n),
        _ => false,
    }
}

/// Whether the database keeps the hash of the child of a branch at a nibble: the child has a hash, and it
/// is a branch, or it is blinded and the database had its hash.
pub open spec fn has_hash(src: Source, path: Seq<u8>, n: u8, kid: Encoded) -> bool {
    kid.rlp.len() == 33 && match kid.kind {
        SparseNodeType::Branch { .. } => true,
        SparseNodeType::Hash => src.hash_masks.contains_key(path) && src.hash_masks[path].contains(n),
        _ => false,
    }
}

/// The children of a branch below which the database has a branch.
pub open spec fn trees(
    src: Source,
    path: Seq<u8>,
    mask: Set<u8>,
    kid: spec_fn(u8) -> Encoded,
) -> Set<u8> {
    Set::new(|n: u8| n < 16 && mask.contains(n) && has_tree(src, path, n, kid(n)))
}

/// The children of a branch whose hashes the database keeps.
pub open spec fn hashed_kids(
    src: Source,
    path: Seq<u8>,
    mask: Set<u8>,
    kid: spec_fn(u8) -> Encoded,
) -> Set<u8> {
    Set::new(|n: u8| n < 16 && mask.contains(n) && has_hash(src, path, n, kid(n)))
}

/// The hashes of children, in ascending order of their nibbles.
pub open spec fn hashes_of(nibbles: Set<u8>, kid: spec_fn(u8) -> Encoded) -> Seq<Seq<u8>> {
    Seq::new(child_nibbles(nibbles).len(), |i: int| kid(child_nibbles(nibbles)[i]).rlp.skip(1))
}

/// Whether the database had something of the branch at a path.
pub open spec fn known_before(src: Source, path: Seq<u8>) -> bool {
    ||| exists|n: u8| src.tree_masks.contains_key(path) && #[trigger] src.tree_masks[path].contains(n)
    ||| exists|n: u8| src.hash_masks.contains_key(path) && #[trigger] src.hash_masks[path].contains(n)
}

/// The masks and hashes from some child on.
proof fn lemma_described_from(
    src: Source,
    path: Seq<u8>,
    mask: Set<u8>,
    kids: Seq<Encoded>,
    kid: spec_fn(u8) -> Encoded,
    from: int,
)
    requires
        kids.len() == child_nibbles(mask).len(),
        0 <= from <= kids.len(),
        forall|i: int| 0 <= i < kids.len() ==> #[trigger] kids[i] == kid(child_nibbles(mask)[i]),
    ensures
        ({
            let nibbles = child_nibbles(mask);
            let tree = tree_mask_from(src, path, nibbles, kids, from);
            let hash = hash_mask_from(src, path, nibbles, kids, from);
            let hashes = hashes_from(src, path, nibbles, kids, from);
            &&& forall|n: u8| #[trigger]
                tree.contains(n) == (exists|i: int|
                    from <= i < nibbles.len() && #[trigger] nibbles[i] == n && has_tree(
                        src,
                        path,
                        n,
                        kid(n),
                    ))
            &&& forall|n: u8| #[trigger]
                hash.contains(n) == (exists|i: int|
                    from <= i < nibbles.len() && #[trigger] nibbles[i] == n && has_hash(
                        src,
                        path,
                        n,
                        kid(n),
                    ))
            &&& hashes =~= hashes_of(hash, kid)
        }),
    decreases kids.len() - from,
{
    let nibbles = child_nibbles(mask);
    lemma_nibbles_below(mask, 16);
    if from < nibbles.len() {
        lemma_described_from(src, path, mask, kids, kid, from + 1);
        let n = nibbles[from];
        let tree = tree_mask_from(src, path, nibbles, kids, from);
        let tree_rest = tree_mask_from(src, path, nibbles, kids, from + 1);
        let hash = hash_mask_from(src, path, nibbles, kids, from);
        let rest = hash_mask_from(src, path, nibbles, kids, from + 1);
        assert(kids[from] == kid(n));
        assert(child_in_tree(src, path, n, kid(n)) == has_tree(src, path, n, kid(n)));
        assert(child_hashed(src, path, n, kid(n)) == has_hash(src, path, n, kid(n)));
        assert forall|m: u8| rest.contains(m) implies n < m by {
            let i = choose|i: int| from + 1 <= i < nibbles.len() && #[trigger] nibbles[i] == m;
            assert(nibbles[from] < nibbles[i]);
        }
        assert forall|m: u8| #[trigger] tree.contains(m) == (exists|i: int|
            from <= i < nibbles.len() && #[trigger] nibbles[i] == m && has_tree(
                src,
                path,
                m,
                kid(m),
            )) by {
            if m == n {
                assert(nibbles[from] == m);
            }
            if tree_rest.contains(m) {
                let i = choose|i: int|
                    from + 1 <= i < nibbles.len() && #[trigger] nibbles[i] == m && has_tree(
                        src,
                        path,
                        m,
                        kid(m),
                    );
                assert(nibbles[i] == m);
            }
        }
        assert forall|m: u8| #[trigger] hash.contains(m) == (exists|i: int|
            from <= i < nibbles.len() && #[trigger] nibbles[i] == m && has_hash(
                src,
                path,
                m,
                kid(m),
            )) by {
            if m == n {
                assert(nibbles[from] == m);
            }
            if rest.contains(m) {
                let i = choose|i: int|
                    from + 1 <= i < nibbles.len() && #[trigger] nibbles[i] == m && has_hash(
                        src,
                        path,
                        m,
                        kid(m),
                    );
                assert(nibbles[i] == m);
            }
        }
        lemma_nibbles_insert(rest, n, 16);
        if child_hashed(src, path, n, kids[from]) {
            assert(child_nibbles(hash) == seq![n] + child_nibbles(rest));
            let hashes = hashes_from(src, path, nibbles, kids, from);
            let others = hashes_from(src, path, nibbles, kids, from + 1);
            assert(hashes.len() == 1 + others.len());
            assert forall|j: int| 0 <= j < hashes.len() implies hashes[j] == hashes_of(hash, kid)[j] by {
                if j > 0 {
                    assert(child_nibbles(hash)[j] == child_nibbles(rest)[j - 1]);
                    assert(hashes[j] == others[j - 1]);
                    assert(others[j - 1] == hashes_of(rest, kid)[j - 1]);
                }
            }
        }
    } else {
        lemma_no_nibbles(16);
    }
}

/// The masks and hashes of a branch are those that its children describe.
pub proof fn lemma_described(
    src: Source,
    path: Seq<u8>,
    mask: Set<u8>,
    kids: Seq<Encoded>,
    kid: spec_fn(u8) -> Encoded,
)
    requires
        kids.len() == child_nibbles(mask).len(),
        forall|i: int| 0 <= i < kids.len() ==> #[trigger] kids[i] == kid(child_nibbles(mask)[i]),
    ensures
        tree_mask_from(src, path, child_nibbles(mask), kids, 0) == trees(src, path, mask, kid),
        hash_mask_from(src, path, child_nibbles(mask), kids, 0) == hashed_kids(src, path, mask, kid),
        hashes_from(src, path, child_nibbles(mask), kids, 0) == hashes_of(
            hashed_kids(src, path, mask, kid),
            kid,
        ),
{
    let nibbles = child_nibbles(mask);
    let tree = tree_mask_from(src, path, nibbles, kids, 0);
    let hash = hash_mask_from(src, path, nibbles, kids, 0);
    lemma_described_from(src, path, mask, kids, kid, 0);
    lemma_nibbles_below(mask, 16);
    assert forall|n: u8| tree.contains(n) == trees(src, path, mask, kid).contains(n) by {
        if trees(src, path, mask, kid).contains(n) {
            assert(nibbles.contains(n));
            assert(nibbles[nibbles.index_of(n)] == n);
        }
    }
    assert(tree =~= trees(src, path, mask, kid));
    assert forall|n: u8| hash.contains(n) == hashed_kids(src, path, mask, kid).contains(n) by {
        if hashed_kids(src, path, mask, kid).contains(n) {
            assert(nibbles.contains(n));
            assert(nibbles[nibbles.index_of(n)] == n);
        }
    }
    assert(hash =~= hashed_kids(src, path, mask, kid));
}

}
