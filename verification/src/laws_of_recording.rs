//! What holds of recording updates: what is recorded of a branch, and what becomes of it.

use crate::described::{hashed_kids, hashes_of, known_before, lemma_described, trees};
use crate::due::{key_below, lemma_right_but_touched, lemma_touched_due, lemma_touched_path};
use crate::hash_run::{
    lemma_nibbles_below, lemma_visits_below, lemma_visits_step, lemma_visits_transitive,
};
use crate::hashing::{deeper, was_stored, Encoded, Hashing, Source};
use crate::merkle::{lemma_lower_encoded, lemma_root_encoded};
use crate::model::{child_nibbles, NodeModel};
use crate::node::SparseNodeType;
use crate::normal::lemma_whole_ready;
use crate::order::lemma_prefix_pointwise;
use crate::outside::{compact_branch, MAX_PATH_LEN};
use crate::path::{is_upper, lower_index_of, lower_path, NUM_LOWER_SUBTRIES};
use crate::prefix_set::PrefixModel;
use crate::recorded::{lemma_run_touched, lemma_upper_touched, same_record};
use crate::root::{lemma_owns_below, lemma_upper_hashable, lower_run};
use crate::subtrie::SubtrieModel;
use crate::trie::TrieModel;
use crate::updates::UpdatesModel;
use vstd::prelude::*;

verus! {

// Starting to record, and taking what was recorded.

/// Whether updates say that the branch at a path was dropped.
pub open spec fn drops(updates: Option<UpdatesModel>, p: Seq<u8>) -> bool {
    updates matches Some(recorded) && recorded.removed.contains(p)
}

/// Whether updates say that the branch at a path was written.
pub open spec fn writes(updates: Option<UpdatesModel>, p: Seq<u8>) -> bool {
    updates matches Some(recorded) && recorded.updated.contains_key(p)
}

impl TrieModel {
    /// The updates that one of the parts of a trie has recorded: the trie itself, then the upper
    /// subtrie, then the lower ones.
    pub open spec fn part_updates(self, part: int) -> Option<UpdatesModel> {
        if part == 0 {
            self.updates
        } else if part == 1 {
            self.upper.updates
        } else {
            match self.lower[part - 2] {
                Some(subtrie) => subtrie.updates,
                None => None,
            }
        }
    }
}

/// Whether updates are those that all parts of a trie have recorded, as far as a path is concerned: it is
/// dropped if one of them dropped it, and written if one of them wrote it, as the last of these did.
pub open spec fn gathered(t: TrieModel, updates: UpdatesModel, p: Seq<u8>) -> bool {
    let parts = t.lower.len() + 2;
    &&& updates.removed.contains(p) == exists|part: int|
        0 <= part < parts && #[trigger] drops(t.part_updates(part), p)
    &&& updates.updated.contains_key(p) == exists|part: int|
        0 <= part < parts && #[trigger] writes(t.part_updates(part), p)
    &&& forall|part: int|
        0 <= part < parts && #[trigger] writes(t.part_updates(part), p) && (forall|later: int|
            part < later < parts ==> !#[trigger] writes(t.part_updates(later), p))
            ==> updates.updated[p] == t.part_updates(part)->0.updated[p]
}

/// What the trie, its upper subtrie and its first lower subtries have recorded.
proof fn lemma_gathered(t: TrieModel, count: int, p: Seq<u8>)
    requires
        0 <= count <= t.lower.len(),
    ensures
        ({
            let u = t.recorded(count);
            let parts = count + 2;
            &&& u.removed.contains(p) == exists|part: int|
                0 <= part < parts && #[trigger] drops(t.part_updates(part), p)
            &&& u.updated.contains_key(p) == exists|part: int|
                0 <= part < parts && #[trigger] writes(t.part_updates(part), p)
            &&& forall|part: int|
                0 <= part < parts && #[trigger] writes(t.part_updates(part), p) && (forall|later: int|
                    part < later < parts ==> !#[trigger] writes(t.part_updates(later), p))
                    ==> u.updated[p] == t.part_updates(part)->0.updated[p]
            &&& u.wiped == exists|part: int|
                0 <= part < parts && (#[trigger] t.part_updates(part)) is Some && t.part_updates(
                    part,
                )->0.wiped
        }),
    decreases count,
{
    let u = t.recorded(count);
    let parts = count + 2;
    if count > 0 {
        lemma_gathered(t, count - 1, p);
        let b = t.recorded(count - 1);
        let own = t.part_updates(count + 1);
        if drops(own, p) {
            assert(drops(t.part_updates(parts - 1), p));
        }
        if writes(own, p) {
            assert(writes(t.part_updates(parts - 1), p));
        }
        if own is Some {
            assert(t.part_updates(parts - 1) is Some);
        }
        if b.removed.contains(p) {
            let part = choose|part: int|
                0 <= part < parts - 1 && #[trigger] drops(t.part_updates(part), p);
            assert(drops(t.part_updates(part), p));
        }
        if b.updated.contains_key(p) {
            let part = choose|part: int|
                0 <= part < parts - 1 && #[trigger] writes(t.part_updates(part), p);
            assert(writes(t.part_updates(part), p));
        }
        if b.wiped {
            let part = choose|part: int|
                0 <= part < parts - 1 && (#[trigger] t.part_updates(part)) is Some
                    && t.part_updates(part)->0.wiped;
            assert(t.part_updates(part) is Some);
        }
        assert forall|part: int|
            0 <= part < parts && #[trigger] writes(t.part_updates(part), p) && (forall|later: int|
                part < later < parts ==> !#[trigger] writes(t.part_updates(later), p))
            implies u.updated[p] == t.part_updates(part)->0.updated[p] by {
            if part < count + 1 {
                assert(!writes(t.part_updates(count + 1), p));
            }
        }
    } else {
        let first = t.part_updates(0);
        let second = t.part_updates(1);
        assert(first == t.updates && second == t.upper.updates);
        if drops(first, p) {
            assert(drops(t.part_updates(0), p));
        }
        if drops(second, p) {
            assert(drops(t.part_updates(1), p));
        }
        if writes(first, p) {
            assert(writes(t.part_updates(0), p));
        }
        if writes(second, p) {
            assert(writes(t.part_updates(1), p));
        }
        assert(u.wiped == exists|part: int|
            0 <= part < parts && (#[trigger] t.part_updates(part)) is Some && t.part_updates(
                part,
            )->0.wiped);
        assert forall|part: int|
            0 <= part < parts && #[trigger] writes(t.part_updates(part), p) && (forall|later: int|
                part < later < parts ==> !#[trigger] writes(t.part_updates(later), p))
            implies u.updated[p] == t.part_updates(part)->0.updated[p] by {
            if part == 0 {
                assert(!writes(t.part_updates(1), p));
            }
        }
    }
}

/// The updates that are taken are all that the trie itself, the upper subtrie and the lower subtries have
/// recorded, and no others. Where several wrote the same branch, the last one counts.
pub proof fn law_taken_updates(t: TrieModel, p: Seq<u8>)
    requires
        t.lower.len() == NUM_LOWER_SUBTRIES,
    ensures
        gathered(t, t.recorded(NUM_LOWER_SUBTRIES as int), p),
        t.recorded(NUM_LOWER_SUBTRIES as int).wiped == exists|part: int|
            0 <= part < t.lower.len() + 2 && (#[trigger] t.part_updates(part)) is Some
                && t.part_updates(part)->0.wiped,
{
    lemma_gathered(t, NUM_LOWER_SUBTRIES as int, p);
}

/// A trie that is told to record does so in all its parts, and one that is told not to in none. Nothing
/// of what was recorded is left.
pub proof fn law_recording_starts(t: TrieModel, retain: bool, part: int, p: Seq<u8>)
    requires
        0 <= part < t.lower.len() + 2,
        part >= 2 ==> t.lower[part - 2] is Some,
    ensures
        ({
            let r = t.with_updates(retain);
            &&& r.part_updates(part) is Some == retain
            &&& !drops(r.part_updates(part), p)
            &&& !writes(r.part_updates(part), p)
            &&& retain ==> !r.part_updates(part)->0.wiped
            &&& r.prefix == t.prefix
        }),
{
}

/// A lower subtrie that is created records just if the trie does, and has nothing recorded.
pub proof fn law_created_subtrie_records(t: TrieModel, i: int)
    requires
        0 <= i < t.lower.len(),
        t.lower[i] is None,
    ensures
        t.lower_at(i).updates is Some == t.updates is Some,
        t.lower_at(i).updates is Some ==> t.lower_at(i).updates->0 == (UpdatesModel {
            updated: Map::empty(),
            removed: Set::empty(),
            wiped: false,
        }),
        t.lower_at(i).path == lower_path(i),
        t.lower_at(i).nodes == Map::<Seq<u8>, NodeModel>::empty(),
        t.lower_at(i).src.values == Map::<Seq<u8>, Seq<u8>>::empty(),
        t.lower_at(i).src.tree_masks == Map::<Seq<u8>, Set<u8>>::empty(),
        t.lower_at(i).src.hash_masks == Map::<Seq<u8>, Set<u8>>::empty(),
{
}

/// Adding updates to others keeps what either of them has dropped, and writes what either of them wrote,
/// as the later ones did where both did.
pub proof fn law_updates_add_up(a: UpdatesModel, b: UpdatesModel, p: Seq<u8>)
    ensures
        a.followed_by(b).removed.contains(p) == (a.removed.contains(p) || b.removed.contains(p)),
        a.followed_by(b).updated.contains_key(p) == (a.updated.contains_key(p)
            || b.updated.contains_key(p)),
        b.updated.contains_key(p) ==> a.followed_by(b).updated[p] == b.updated[p],
        a.updated.contains_key(p) && !b.updated.contains_key(p) ==> a.followed_by(b).updated[p]
            == a.updated[p],
        a.followed_by(b).wiped == (a.wiped || b.wiped),
{
}

// What hashing records.

/// Whether updates have what became of the branch at a path. If the database has to keep something of it,
/// it is written: with its children, those below which there is a branch, those whose hashes are kept,
/// and these hashes in ascending order of the nibbles. Otherwise it is not written, and dropped if the
/// database had something of it.
pub open spec fn branch_noted(
    src: Source,
    path: Seq<u8>,
    mask: Set<u8>,
    kid: spec_fn(u8) -> Encoded,
    before: UpdatesModel,
    after: UpdatesModel,
) -> bool {
    let tree = trees(src, path, mask, kid);
    let hash = hashed_kids(src, path, mask, kid);
    if exists|n: u8| tree.contains(n) || hash.contains(n) {
        &&& after.updated.contains_key(path)
        &&& after.updated[path] == compact_branch(mask, tree, hash, hashes_of(hash, kid), None)
        &&& after.removed.contains(path) == before.removed.contains(path)
    } else {
        &&& !after.updated.contains_key(path)
        &&& after.removed.contains(path) == (before.removed.contains(path) || known_before(src, path))
    }
}

/// The encodings of the children of a branch that is encoded anew.
proof fn lemma_branch_kids_encoded(h: Hashing, p: Seq<u8>)
    requires
        h.opens(p),
        h.nodes[p] is Branch,
        p.len() < MAX_PATH_LEN || child_nibbles(h.nodes[p]->Branch_mask).len() == 0,
    ensures
        h.encoded_kids(p).len() == child_nibbles(h.nodes[p]->Branch_mask).len(),
        forall|i: int|
            0 <= i < h.encoded_kids(p).len() ==> #[trigger] h.encoded_kids(p)[i] == h.encoded(
                p.push(child_nibbles(h.nodes[p]->Branch_mask)[i]),
            ),
{
    let nibbles = child_nibbles(h.nodes[p]->Branch_mask);
    assert forall|i: int| 0 <= i < h.encoded_kids(p).len() implies #[trigger] h.encoded_kids(p)[i]
        == h.encoded(p.push(nibbles[i])) by {
        assert(h.kids(p)[i] == p.push(nibbles[i]));
        assert(deeper(p, h.kids(p)[i]));
    }
}

/// What hashing records of a branch.
proof fn lemma_branch_noted(h: Hashing, root: Seq<u8>, updates: UpdatesModel, p: Seq<u8>)
    requires
        h.recorded(root, p),
        p.len() < MAX_PATH_LEN || child_nibbles(h.nodes[p]->Branch_mask).len() == 0,
    ensures
        branch_noted(
            (h.source)(p),
            p,
            h.nodes[p]->Branch_mask,
            |n: u8| h.encoded(p.push(n)),
            updates,
            h.hashed_updates(root, updates),
        ),
        h.hashed_node(root, p) is Branch,
        h.hashed_node(root, p)->Branch_store == Some(
            h.hashed_updates(root, updates).updated.contains_key(p),
        ),
{
    let src = (h.source)(p);
    let mask = h.nodes[p]->Branch_mask;
    let kid = |n: u8| h.encoded(p.push(n));
    let tree = trees(src, p, mask, kid);
    let hash = hashed_kids(src, p, mask, kid);
    lemma_branch_kids_encoded(h, p);
    lemma_described(src, p, mask, h.encoded_kids(p), kid);
    if !(exists|n: u8| tree.contains(n) || hash.contains(n)) {
        assert(tree =~= Set::empty());
        assert(hash =~= Set::empty());
    }
    lemma_known_before(src, p);
}

/// The database had something of a branch if one of its masks has a nibble.
pub proof fn lemma_known_before(src: Source, p: Seq<u8>)
    ensures
        was_stored(src, p) == known_before(src, p),
{
    if src.tree_masks.contains_key(p) && !(exists|n: u8| src.tree_masks[p].contains(n)) {
        assert(src.tree_masks[p] =~= Set::empty());
    }
    if src.hash_masks.contains_key(p) && !(exists|n: u8| src.hash_masks[p].contains(n)) {
        assert(src.hash_masks[p] =~= Set::empty());
    }
}

/// Hashing a subtrie that records updates records what became of each branch below the root of the trie
/// that it goes through and that counts as changed. The branch keeps whether it was written.
pub proof fn law_subtrie_records(s: SubtrieModel, prefix: PrefixModel, p: Seq<u8>, before: UpdatesModel)
    requires
        s.updates == Some(before),
        s.hashing(prefix).visits(s.path, p),
        s.nodes.contains_key(p),
        s.nodes[p] is Branch,
        0 < p.len(),
        p.len() < MAX_PATH_LEN || child_nibbles(s.nodes[p]->Branch_mask).len() == 0,
        key_below(prefix, p),
    ensures
        s.hashed(prefix).updates is Some,
        branch_noted(
            s.src,
            p,
            s.nodes[p]->Branch_mask,
            |n: u8| s.hashing(prefix).encoded(p.push(n)),
            before,
            s.hashed(prefix).updates->0,
        ),
        s.hashed(prefix).nodes[p] is Branch,
        s.hashed(prefix).nodes[p]->Branch_store == Some(
            s.hashed(prefix).updates->0.updated.contains_key(p),
        ),
{
    let h = s.hashing(prefix);
    assert(h.opens(p));
    lemma_branch_noted(h, s.path, before, p);
}

/// Hashing a subtrie records nothing else: not of paths that do not count as changed, nor of the root of
/// the trie, nor where there is no branch. A subtrie that does not record still does not.
pub proof fn law_subtrie_records_nothing_else(s: SubtrieModel, prefix: PrefixModel, p: Seq<u8>)
    requires
        !key_below(prefix, p) || p.len() == 0 || !s.nodes.contains_key(p) || !(s.nodes[p] is Branch)
            || !s.path.is_prefix_of(p) || s.updates is None,
    ensures
        same_record(s.updates, s.hashed(prefix).updates, p),
        s.updates is Some ==> s.hashed(prefix).updates->0.wiped == s.updates->0.wiped,
{
    let h = s.hashing(prefix);
    if h.recorded(s.path, p) {
        lemma_visits_below(h, s.path, p);
    }
}

/// The kind of a node that was encoded, from what it keeps then.
pub open spec fn kind_of(node: NodeModel) -> SparseNodeType {
    match node {
        NodeModel::Empty => SparseNodeType::Empty,
        NodeModel::Hash(_) => SparseNodeType::Hash,
        NodeModel::Leaf { .. } => SparseNodeType::Leaf,
        NodeModel::Extension { store, .. } => SparseNodeType::Extension { store_in_db_trie: store },
        NodeModel::Branch { store, .. } => SparseNodeType::Branch { store_in_db_trie: store },
    }
}

/// A node that hashing goes through is encoded as what it is then, and keeps whether the branch that it
/// is, or leads to, was written: an extension does what its child does, a branch that is encoded anew and
/// not recorded was not written.
pub proof fn law_nodes_keep_what_was_written(s: SubtrieModel, prefix: PrefixModel, p: Seq<u8>)
    requires
        s.hashing(prefix).visits(s.path, p),
        s.nodes.contains_key(p),
    ensures
        s.hashing(prefix).encoded(p).kind == kind_of(s.hashed(prefix).nodes[p]),
        s.nodes[p] matches NodeModel::Branch { hash, store, .. } ==> ((hash is None || store is None
            || key_below(prefix, p)) && (s.updates is None || p.len() == 0 || !key_below(prefix, p))
            ==> s.hashed(prefix).nodes[p]->Branch_store == Some(false)),
        s.nodes[p] matches NodeModel::Extension { key, hash, store } ==> ((hash is None
            || store is None || key_below(prefix, p)) && 0 < key.len() <= MAX_PATH_LEN - p.len()
            ==> s.hashed(prefix).nodes[p]->Extension_store == match s.hashing(prefix).encoded(
            p + key,
        ).kind {
            SparseNodeType::Branch { store_in_db_trie } => store_in_db_trie,
            SparseNodeType::Extension { store_in_db_trie } => store_in_db_trie,
            _ => None,
        }),
{
    let h = s.hashing(prefix);
    if let NodeModel::Extension { key, .. } = s.nodes[p] {
        if h.opens(p) && 0 < key.len() <= MAX_PATH_LEN - p.len() {
            assert(h.kids(p)[0] == p + key);
            assert(deeper(p, p + key));
        }
    }
}

/// In a sound trie that records updates, computing the root hash records what became of every branch
/// below the root that counts as changed, in the subtrie that has the branch.
pub proof fn law_root_records_branches(t: TrieModel, p: Seq<u8>)
    requires
        t.sound(),
        0 < p.len() <= MAX_PATH_LEN,
        t.has_node(p),
        t.node(p) is Branch,
        p.len() < MAX_PATH_LEN || child_nibbles(t.node(p)->Branch_mask).len() == 0,
        key_below(t.prefix, p),
        t.subtrie_at(p).updates is Some,
    ensures
        t.rooted().subtrie_at(p).updates is Some,
        branch_noted(
            t.subtrie_at(p).src,
            p,
            t.node(p)->Branch_mask,
            |n: u8| t.run_at(p).encoded(p.push(n)),
            t.subtrie_at(p).updates->0,
            t.rooted().subtrie_at(p).updates->0,
        ),
{
    let lower = t.lower_hashed();
    let r = t.rooted();
    let i = lower_index_of(p);
    lemma_touched_due(t, p);
    if is_upper(p) {
        let h = lower.hashing(t.upper_keys());
        lemma_upper_touched(t, p);
        lemma_touched_path(t, p);
        assert(h.nodes[p] == t.node(p));
        assert(h.recorded(Seq::empty(), p));
        lemma_branch_noted(h, Seq::empty(), t.upper.updates->0, p);
        assert(t.run_at(p) == h);
    } else {
        let g = lower_run(t, i);
        lemma_run_touched(t, p);
        assert(g.recorded(t.lower_root(i), p));
        lemma_branch_noted(g, t.lower_root(i), t.lower[i]->0.updates->0, p);
        assert(t.run_at(p) == g);
        assert(r.lower[i]->0.updates == lower.lower[i]->0.updates);
    }
}

/// Computing the root hash records nothing in the trie itself, nor that it was emptied, and where updates
/// are not recorded it does not start to.
pub proof fn law_root_leaves_the_rest(t: TrieModel, part: int)
    requires
        0 <= part < t.lower.len() + 2,
    ensures
        t.rooted().updates == t.updates,
        t.rooted().part_updates(part) is Some == t.part_updates(part) is Some,
        t.part_updates(part) is Some ==> t.rooted().part_updates(part)->0.wiped == t.part_updates(
            part,
        )->0.wiped,
{
}

/// Where the upper subtrie records a branch of a lower one, when all keys count as changed, it does so with
/// what the lower one knows of it; otherwise it records nothing of it. No lower subtrie records a branch of
/// another one.
pub proof fn law_root_records_in_place(t: TrieModel, p: Seq<u8>, i: int)
    requires
        t.placed(),
        t.homed(),
        !is_upper(p),
        t.has_node(p),
        t.node(p) is Branch,
        p.len() < MAX_PATH_LEN || child_nibbles(t.node(p)->Branch_mask).len() == 0,
        0 <= i < t.lower.len(),
        t.lower[i] is Some,
    ensures
        t.upper.updates is Some == t.rooted().upper.updates is Some,
        same_record(t.upper.updates, t.rooted().upper.updates, p) || branch_noted(
            t.subtrie_at(p).src,
            p,
            t.node(p)->Branch_mask,
            |n: u8| t.lower_hashed().hashing(t.upper_keys()).encoded(p.push(n)),
            t.upper.updates->0,
            t.rooted().upper.updates->0,
        ),
        i != lower_index_of(p) ==> t.rooted().lower[i] is Some && same_record(
            t.lower[i]->0.updates,
            t.rooted().lower[i]->0.updates,
            p,
        ),
{
    let lower = t.lower_hashed();
    let h = lower.hashing(t.upper_keys());
    let r = t.rooted();
    assert(lower.has_node(p));
    assert(h.nodes.contains_key(p));
    assert(h.nodes[p] is Branch && h.nodes[p]->Branch_mask == t.node(p)->Branch_mask) by {
        let j = lower_index_of(p);
        if t.rehashed(t.prefix.frozen(), j) {
            let g = lower_run(t, j);
            assert(lower.node(p) == g.hashed_node(t.lower_root(j), p));
        }
    }
    if h.recorded(Seq::empty(), p) && t.upper.updates is Some {
        lemma_branch_noted(h, Seq::empty(), t.upper.updates->0, p);
    }
    if i != lower_index_of(p) && t.rehashed(t.prefix.frozen(), i) {
        let g = lower_run(t, i);
        assert(!g.recorded(t.lower_root(i), p)) by {
            if g.recorded(t.lower_root(i), p) {
                assert(t.lower[i]->0.nodes.contains_key(p));
                assert(TrieModel::owns(i, p));
            }
        }
    }
}

/// Where every hash that nodes keep is right, unless a changed key touches the node, the hashes that are
/// recorded of a changed branch are those of what its children stand for. All encodings of 33 bytes are
/// those of hashes.
pub proof fn law_recorded_hashes_are_right(t: TrieModel, p: Seq<u8>, n: u8)
    requires
        t.whole(),
        t.right_but_touched(),
        t.lower_headed(),
        t.has_node(p),
        t.node(p) is Branch,
        n < 16,
        t.node(p)->Branch_mask.contains(n),
        key_below(t.prefix, p),
    ensures
        t.run_at(p).encoded(p.push(n)).rlp == t.merkle(p.push(n)),
{
    let lower = t.lower_hashed();
    let mask = t.node(p)->Branch_mask;
    let kid = p.push(n);
    let i = lower_index_of(p);
    assert(t.tidy(p));
    lemma_whole_ready(t);
    lemma_right_but_touched(t);
    lemma_upper_hashable(t);
    lemma_touched_due(t, p);
    lemma_nibbles_below(mask, 16);
    assert(child_nibbles(mask).contains(n));
    let j = child_nibbles(mask).index_of(n);
    if is_upper(p) {
        let h = lower.hashing(t.upper_keys());
        assert(h.nodes[p] == t.node(p));
        assert(h.kids(p)[j] == kid);
        assert(deeper(p, kid));
        assert(h.visits(kid, kid));
        lemma_visits_step(h, p, j, kid);
        lemma_visits_transitive(h, Seq::empty(), p, kid);
        lemma_root_encoded(t, kid);
        assert(t.run_at(p) == h);
    } else {
        let g = lower_run(t, i);
        assert(g.kids(p)[j] == kid);
        assert(deeper(p, kid));
        assert(g.visits(kid, kid));
        lemma_visits_step(g, p, j, kid);
        lemma_visits_transitive(g, t.lower_root(i), p, kid);
        lemma_prefix_pointwise(p, kid);
        lemma_owns_below(i, p, kid);
        lemma_lower_encoded(t, i, kid);
        assert(t.run_at(p) == g);
    }
}

/// A node that computing the root hash goes through from the root is encoded as what it is then.
pub proof fn law_root_encodes_what_nodes_are(t: TrieModel, p: Seq<u8>)
    requires
        t.placed(),
        t.has_node(p),
        t.root_visits(p),
    ensures
        t.lower_hashed().hashing(t.upper_keys()).encoded(p).kind == kind_of(t.rooted().node(p)),
{
    let lower = t.lower_hashed();
    let h = lower.hashing(t.upper_keys());
    assert(lower.has_node(p));
    assert(lower.placed());
    assert(t.rooted().has_node(p));
    assert(t.rooted().node(p) == h.hashed_node(Seq::empty(), p));
}

/// A subtrie that is told to record, or not to, starts with nothing recorded, and is otherwise as it was.
pub proof fn law_subtrie_recording_starts(s: SubtrieModel, retain: bool)
    ensures
        s.with_updates(retain) == (SubtrieModel {
            path: s.path,
            nodes: s.nodes,
            src: s.src,
            updates: if retain {
                Some(UpdatesModel { updated: Map::empty(), removed: Set::empty(), wiped: false })
            } else {
                None
            },
        }),
        s.updates_taken() == s.with_updates(s.updates is Some),
{
}

/// A new trie has no nodes, values or masks, no key counts as changed, and nothing is recorded. It has a
/// place for each lower subtrie, and none of them.
pub proof fn law_new_trie(i: int, p: Seq<u8>)
    requires
        0 <= i < NUM_LOWER_SUBTRIES,
    ensures
        ({
            let t = TrieModel::empty();
            &&& t.lower.len() == NUM_LOWER_SUBTRIES
            &&& t.lower[i] is None
            &&& t.upper.path == Seq::<u8>::empty()
            &&& !t.upper.nodes.contains_key(p)
            &&& !t.upper.src.values.contains_key(p)
            &&& !t.upper.src.tree_masks.contains_key(p)
            &&& !t.upper.src.hash_masks.contains_key(p)
            &&& t.upper.updates is None
            &&& t.updates is None
            &&& !t.prefix.all
            &&& !t.prefix.keys.contains(p)
        }),
{
}

/// A new subtrie has its path, and nothing else.
pub proof fn law_new_subtrie(path: Seq<u8>, p: Seq<u8>)
    ensures
        SubtrieModel::empty(path).path == path,
        !SubtrieModel::empty(path).nodes.contains_key(p),
        !SubtrieModel::empty(path).src.values.contains_key(p),
        !SubtrieModel::empty(path).src.tree_masks.contains_key(p),
        !SubtrieModel::empty(path).src.hash_masks.contains_key(p),
        SubtrieModel::empty(path).updates is None,
{
}

/// A path of fewer than two nibbles belongs to the upper subtrie, and another one to the lower subtrie that
/// its first two nibbles number.
pub proof fn law_where_paths_belong(t: TrieModel, path: Seq<u8>)
    requires
        t.lower.len() == NUM_LOWER_SUBTRIES,
    ensures
        path.len() < 2 ==> t.subtrie_at(path) == t.upper,
        path.len() >= 2 && 0 <= path[0] * 16 + path[1] < NUM_LOWER_SUBTRIES && t.lower[path[0] * 16
            + path[1]] is Some ==> t.subtrie_at(path) == t.lower[path[0] * 16 + path[1]]->0,
        path.len() < 2 ==> (t.has_node(path) == t.upper.nodes.contains_key(path)),
        t.has_node(path) ==> t.node(path) == t.subtrie_at(path).nodes[path] && t.source_at(path)
            == t.subtrie_at(path).src,
{
}

}
