//! Sets of changed keys, which are asked for prefixes of their keys.

use crate::model::{lex_less, Model};
use crate::order::{
    lemma_between_prefixed, lemma_lex_asymmetric, lemma_lex_irreflexive, lemma_lex_total,
    lemma_lex_transitive, lemma_prefix_not_after, lemma_prefix_pointwise,
};
use crate::outside::{all_nibbles, path_before, same_path, slice_to, sort_paths};
use crate::path::{is_upper, UPPER_TRIE_MAX_DEPTH};
use alloy_trie::Nibbles;
use vstd::prelude::*;

verus! {

/// The keys of a prefix set, or all keys at once.
#[verifier::ext_equal]
pub struct PrefixModel {
    pub all: bool,
    pub keys: Set<Seq<u8>>,
}

impl PrefixModel {
    /// Whether some key of the set starts with a path.
    pub open spec fn touches(self, path: Seq<u8>) -> bool {
        self.all || exists|key: Seq<u8>| #[trigger] self.keys.contains(key) && path.is_prefix_of(key)
    }

    /// The set as it is asked: the set of all keys keeps no single one.
    pub open spec fn frozen(self) -> Self {
        if self.all {
            PrefixModel::every()
        } else {
            self
        }
    }

    /// The keys that start with a path.
    pub open spec fn under(self, path: Seq<u8>) -> Self {
        if self.all {
            PrefixModel::every()
        } else {
            PrefixModel {
                all: false,
                keys: self.keys.filter(|key: Seq<u8>| path.is_prefix_of(key)),
            }
        }
    }

    /// What the keys have within the upper subtrie.
    pub open spec fn heads(self) -> Set<Seq<u8>> {
        Set::new(
            |head: Seq<u8>| exists|key: Seq<u8>| #[trigger] self.keys.contains(key) && head == head_of(key),
        )
    }

    /// The set without keys.
    pub open spec fn none() -> Self {
        PrefixModel { all: false, keys: Set::empty() }
    }

    /// The set of all keys.
    pub open spec fn every() -> Self {
        PrefixModel { all: true, keys: Set::empty() }
    }
}

/// What a key has within the upper subtrie.
pub open spec fn head_of(key: Seq<u8>) -> Seq<u8> {
    if is_upper(key) {
        key
    } else {
        key.take(UPPER_TRIE_MAX_DEPTH - 1)
    }
}

/// A path of the upper subtrie starts a key if it starts what the key has there, and no other path does
/// that.
pub proof fn lemma_heads(prefix: PrefixModel, path: Seq<u8>)
    ensures
        is_upper(path) ==> ((exists|head: Seq<u8>| #[trigger]
            prefix.heads().contains(head) && path.is_prefix_of(head)) == (exists|key: Seq<u8>| #[trigger]
            prefix.keys.contains(key) && path.is_prefix_of(key))),
        !is_upper(path) ==> forall|head: Seq<u8>| #[trigger]
            prefix.heads().contains(head) ==> !path.is_prefix_of(head),
{
    if is_upper(path) {
        if exists|key: Seq<u8>| #[trigger] prefix.keys.contains(key) && path.is_prefix_of(key) {
            let key = choose|key: Seq<u8>| #[trigger]
                prefix.keys.contains(key) && path.is_prefix_of(key);
            lemma_prefix_pointwise(path, key);
            lemma_prefix_pointwise(path, head_of(key));
            assert(prefix.heads().contains(head_of(key)));
            assert(path.is_prefix_of(head_of(key)));
        }
        if exists|head: Seq<u8>| #[trigger]
            prefix.heads().contains(head) && path.is_prefix_of(head) {
            let head = choose|head: Seq<u8>| #[trigger]
                prefix.heads().contains(head) && path.is_prefix_of(head);
            let key = choose|key: Seq<u8>| #[trigger]
                prefix.keys.contains(key) && head == head_of(key);
            lemma_prefix_pointwise(path, head);
            lemma_prefix_pointwise(path, key);
            assert(path.is_prefix_of(key));
        }
    } else {
        assert forall|head: Seq<u8>| #[trigger] prefix.heads().contains(head) implies !path.is_prefix_of(
            head,
        ) by {
            lemma_prefix_pointwise(path, head);
        }
    }
}

/// The paths of a sequence as a set.
pub open spec fn path_set(paths: Seq<Nibbles>) -> Set<Seq<u8>> {
    all_nibbles(paths).to_set()
}

/// A set of changed keys that is being put together.
#[derive(Clone, PartialEq, Eq, Debug)]
pub struct PrefixSetMut {
    /// Whether every key is in the set.
    all: bool,
    /// The keys, in no order and with repetitions.
    keys: Vec<Nibbles>,
}

impl Default for PrefixSetMut {
    fn default() -> (set: Self)
        ensures
            set@ == PrefixModel::none(),
    {
        let set = PrefixSetMut { all: false, keys: Vec::new() };
        assert(set@.keys =~= Set::empty());
        set
    }
}

impl PrefixSetMut {
    /// The keys of the set.
    pub closed spec fn view(&self) -> PrefixModel {
        PrefixModel { all: self.all, keys: path_set(self.keys@) }
    }

    /// Creates the set of all keys.
    pub fn all() -> (set: Self)
        ensures
            set@ == PrefixModel::every(),
    {
        let set = PrefixSetMut { all: true, keys: Vec::new() };
        assert(set@.keys =~= Set::empty());
        set
    }

    /// Creates the set of the given keys.
    pub fn from(keys: Vec<Nibbles>) -> (set: Self)
        ensures
            set@ == (PrefixModel { all: false, keys: path_set(keys@) }),
    {
        PrefixSetMut { all: false, keys }
    }

    /// Adds a key.
    pub fn insert(&mut self, key: Nibbles)
        ensures
            final(self)@ == (PrefixModel {
                all: old(self)@.all,
                keys: old(self)@.keys.insert(key.model()),
            }),
    {
        let ghost before = all_nibbles(self.keys@);
        self.keys.push(key);
        proof {
            let after = all_nibbles(self.keys@);
            assert(after =~= before.push(key.model()));
            assert forall|k: Seq<u8>| after.to_set().contains(k) == before.to_set().insert(
                key.model(),
            ).contains(k) by {
                if before.contains(k) {
                    let i = before.index_of(k);
                    assert(after[i] == k);
                }
                if k == key.model() {
                    assert(after[before.len() as int] == k);
                }
            }
            assert(after.to_set() =~= before.to_set().insert(key.model()));
        }
    }

    /// Adds the keys of another set.
    pub fn extend(&mut self, other: PrefixSetMut)
        ensures
            final(self)@ == (PrefixModel {
                all: old(self)@.all || other@.all,
                keys: old(self)@.keys.union(other@.keys),
            }),
    {
        self.all = self.all || other.all;
        self.extend_keys(other.keys);
    }

    /// Adds keys.
    pub fn extend_keys(&mut self, keys: Vec<Nibbles>)
        ensures
            final(self)@ == (PrefixModel {
                all: old(self)@.all,
                keys: old(self)@.keys.union(path_set(keys@)),
            }),
    {
        let ghost before = all_nibbles(self.keys@);
        let ghost more = all_nibbles(keys@);
        let mut keys = keys;
        self.keys.append(&mut keys);
        proof {
            let after = all_nibbles(self.keys@);
            assert(after =~= before + more);
            assert forall|k: Seq<u8>| after.to_set().contains(k) == before.to_set().union(
                more.to_set(),
            ).contains(k) by {
                if before.contains(k) {
                    let i = before.index_of(k);
                    assert(after[i] == k);
                }
                if more.contains(k) {
                    let i = more.index_of(k);
                    assert(after[before.len() + i] == k);
                }
            }
            assert(after.to_set() =~= before.to_set().union(more.to_set()));
        }
    }

    /// Returns the keys, in no order and with repetitions.
    pub(crate) fn keys(&self) -> (keys: &Vec<Nibbles>)
        ensures
            path_set(keys@) == self@.keys,
    {
        &self.keys
    }

    /// Returns what the keys have within the upper subtrie.
    pub(crate) fn heads(&self) -> (heads: Vec<Nibbles>)
        ensures
            path_set(heads@) == self@.heads(),
    {
        let mut heads: Vec<Nibbles> = Vec::new();
        let mut i: usize = 0;
        while i < self.keys.len()
            invariant
                i <= self.keys@.len(),
                heads@.len() == i,
                forall|j: int| 0 <= j < i ==> (#[trigger] heads@[j]).model() == head_of(
                    self.keys@[j].model(),
                ),
            decreases self.keys@.len() - i,
        {
            let key = self.keys[i];
            let head = if key.len() < UPPER_TRIE_MAX_DEPTH {
                key
            } else {
                slice_to(&key, UPPER_TRIE_MAX_DEPTH - 1)
            };
            heads.push(head);
            i += 1;
        }
        proof {
            let keys = all_nibbles(self.keys@);
            let found = all_nibbles(heads@);
            assert forall|head: Seq<u8>| path_set(heads@).contains(head) == self@.heads().contains(head) by {
                if path_set(heads@).contains(head) {
                    let j = found.index_of(head);
                    assert(found[j] == heads@[j].model());
                    assert(keys[j] == self.keys@[j].model());
                    assert(self@.keys.contains(keys[j]));
                }
                if self@.heads().contains(head) {
                    let key = choose|key: Seq<u8>| #[trigger]
                        self@.keys.contains(key) && head == head_of(key);
                    let j = keys.index_of(key);
                    assert(keys[j] == self.keys@[j].model());
                    assert(found[j] == heads@[j].model());
                }
            }
            assert(path_set(heads@) =~= self@.heads());
        }
        heads
    }

    /// Returns true if the set has no keys.
    pub fn is_empty(&self) -> (empty: bool)
        ensures
            empty == (!self@.all && self@.keys =~= Set::empty()),
    {
        let empty = !self.all && self.keys.len() == 0;
        proof {
            let keys = all_nibbles(self.keys@);
            if self.keys@.len() > 0 {
                assert(keys.to_set().contains(keys[0]));
            }
        }
        empty
    }

    /// Puts the keys in order, for being asked. The set of all keys keeps no single one.
    pub fn freeze(self) -> (set: PrefixSet)
        ensures
            set.well_formed(),
            set@ == self@.frozen(),
    {
        if self.all {
            let set = PrefixSet { all: true, index: 0, keys: Vec::new() };
            assert(set@.keys =~= Set::empty());
            return set;
        }
        let mut keys = self.keys;
        sort_paths(&mut keys);
        let ghost sorted = all_nibbles(keys@);
        proof {
            let given = all_nibbles(self.keys@);
            given.to_multiset_ensures();
            sorted.to_multiset_ensures();
            assert forall|k: Seq<u8>| sorted.to_set().contains(k) == given.to_set().contains(k) by {
                assert(sorted.contains(k) == (sorted.to_multiset().count(k) > 0));
                assert(given.contains(k) == (given.to_multiset().count(k) > 0));
            }
            assert(sorted.to_set() =~= given.to_set());
        }
        let keys = drop_repeated(keys);
        PrefixSet { all: false, index: 0, keys }
    }
}

/// Keeps one of each run of equal keys.
fn drop_repeated(keys: Vec<Nibbles>) -> (kept: Vec<Nibbles>)
    requires
        forall|i: int, j: int|
            0 <= i < j < keys@.len() ==> !#[trigger] lex_less(keys@[j].model(), keys@[i].model()),
    ensures
        path_set(kept@) == path_set(keys@),
        ascending(kept@),
{
    let mut kept: Vec<Nibbles> = Vec::new();
    let mut i: usize = 0;
    while i < keys.len()
        invariant
            i <= keys@.len(),
            forall|i: int, j: int|
                0 <= i < j < keys@.len() ==> !#[trigger] lex_less(
                    keys@[j].model(),
                    keys@[i].model(),
                ),
            ascending(kept@),
            path_set(kept@) == path_set(keys@.take(i as int)),
            kept@.len() > 0 ==> i > 0 && kept@.last().model() == keys@[i - 1].model(),
            kept@.len() == 0 ==> i == 0,
        decreases keys@.len() - i,
    {
        let key = keys[i];
        let last = kept.len();
        let ghost before = kept@;
        let ghost seen = keys@.take(i as int);
        let fresh = last == 0 || !same_path(&kept[last - 1], &key);
        if fresh {
            kept.push(key);
        }
        proof {
            assert(keys@.take(i + 1) =~= seen.push(key));
            lemma_path_set_push(seen, key);
            if fresh {
                lemma_path_set_push(before, key);
                assert forall|a: int, b: int| 0 <= a < b < kept@.len() implies #[trigger] lex_less(
                    kept@[a].model(),
                    kept@[b].model(),
                ) by {
                    if b == last {
                        lemma_lex_total(before[last - 1].model(), key.model());
                        if a < last - 1 {
                            lemma_lex_transitive(
                                before[a].model(),
                                before[last - 1].model(),
                                key.model(),
                            );
                        }
                    }
                }
            } else {
                assert(all_nibbles(before)[last - 1] == key.model());
                assert(path_set(before).insert(key.model()) =~= path_set(before));
            }
        }
        i += 1;
    }
    assert(keys@.take(i as int) =~= keys@);
    kept
}

/// One more path in a sequence is one more in the set of its paths.
proof fn lemma_path_set_push(paths: Seq<Nibbles>, path: Nibbles)
    ensures
        path_set(paths.push(path)) == path_set(paths).insert(path.model()),
{
    let before = all_nibbles(paths);
    let after = all_nibbles(paths.push(path));
    assert(after =~= before.push(path.model()));
    assert forall|k: Seq<u8>| after.to_set().contains(k) == before.to_set().insert(
        path.model(),
    ).contains(k) by {
        if before.contains(k) {
            let i = before.index_of(k);
            assert(after[i] == k);
        }
        if k == path.model() {
            assert(after[before.len() as int] == k);
        }
    }
    assert(after.to_set() =~= before.to_set().insert(path.model()));
}

/// Whether paths are in ascending order, each only once.
pub open spec fn ascending(paths: Seq<Nibbles>) -> bool {
    forall|i: int, j: int|
        0 <= i < j < paths.len() ==> #[trigger] lex_less(paths[i].model(), paths[j].model())
}

/// A set of changed keys that is being asked.
///
/// It remembers where the last answer was found: asking in the order of paths is fast.
#[derive(Clone, PartialEq, Eq, Debug)]
pub struct PrefixSet {
    /// Whether every key is in the set.
    all: bool,
    /// Where the last answer was found.
    index: usize,
    /// The keys, in ascending order.
    keys: Vec<Nibbles>,
}

impl PrefixSet {
    /// The keys of the set.
    pub closed spec fn view(&self) -> PrefixModel {
        PrefixModel { all: self.all, keys: path_set(self.keys@) }
    }

    /// The keys are in order, and the place that is remembered is one of them.
    pub closed spec fn well_formed(&self) -> bool {
        &&& ascending(self.keys@)
        &&& self.all ==> self.keys@.len() == 0
        &&& self.keys@.len() > 0 ==> self.index < self.keys@.len()
        &&& self.keys@.len() == 0 ==> self.index == 0
    }

    /// The keys of the set in ascending order.
    pub closed spec fn sorted(&self) -> Seq<Nibbles> {
        self.keys@
    }

    /// Returns true if some key starts with the given path.
    pub fn contains(&mut self, prefix: &Nibbles) -> (yes: bool)
        requires
            old(self).well_formed(),
        ensures
            final(self).well_formed(),
            final(self)@ == old(self)@,
            final(self).sorted() == old(self).sorted(),
            yes == old(self)@.touches(prefix.model()),
    {
        if self.all {
            return true;
        }
        let ghost p = prefix.model();
        let ghost set = self@;
        let ghost paths = all_nibbles(self.keys@);
        while self.index > 0 && path_before(prefix, &self.keys[self.index])
            invariant
                self.keys@ == old(self).keys@,
                !self.all,
                !old(self).all,
                self.well_formed(),
            decreases self.index,
        {
            self.index = self.index - 1;
        }
        proof {
            // No key before the place starts with the prefix.
            assert forall|i: int| 0 <= i < self.index implies !p.is_prefix_of(
                #[trigger] self.keys@[i].model(),
            ) by {
                let k = self.keys@[i].model();
                let here = self.keys@[self.index as int].model();
                assert(lex_less(k, here));
                if p.is_prefix_of(k) {
                    lemma_prefix_not_after(p, k);
                    lemma_lex_total(p, k);
                    lemma_lex_total(p, here);
                    if p == here {
                        lemma_lex_asymmetric(k, here);
                        lemma_lex_irreflexive(here);
                    } else if lex_less(p, k) {
                        lemma_lex_transitive(p, k, here);
                    }
                }
            }
        }
        let start = self.index;
        let mut i: usize = start;
        while i < self.keys.len()
            invariant
                self.keys@ == old(self).keys@,
                self.index == start,
                start <= i,
                !self.all,
                !old(self).all,
                self.well_formed(),
                p == prefix.model(),
                set == self@,
                set == old(self)@,
                paths == all_nibbles(self.keys@),
                forall|j: int|
                    0 <= j < i && j < self.keys@.len() ==> !p.is_prefix_of(
                        #[trigger] self.keys@[j].model(),
                    ),
            decreases self.keys@.len() - i,
        {
            if self.keys[i].starts_with(prefix) {
                self.index = i;
                proof {
                    assert(paths[i as int] == self.keys@[i as int].model());
                    assert(set.keys.contains(paths[i as int]));
                }
                return true;
            }
            if path_before(prefix, &self.keys[i]) {
                self.index = i;
                proof {
                    let here = self.keys@[i as int].model();
                    assert forall|key: Seq<u8>| #[trigger] set.keys.contains(key) implies !p.is_prefix_of(key) by {
                        let j = paths.index_of(key);
                        assert(self.keys@[j].model() == key);
                        if j > i && p.is_prefix_of(key) {
                            assert(lex_less(here, key));
                            lemma_lex_asymmetric(here, key);
                            lemma_lex_asymmetric(p, here);
                            lemma_between_prefixed(p, here, key);
                        }
                    }
                }
                return false;
            }
            i += 1;
        }
        proof {
            assert forall|key: Seq<u8>| #[trigger] set.keys.contains(key) implies !p.is_prefix_of(key) by {
                let j = paths.index_of(key);
                assert(self.keys@[j].model() == key);
            }
        }
        false
    }

    /// Returns true if every key is in the set.
    pub fn all(&self) -> (all: bool)
        ensures
            all == self@.all,
    {
        self.all
    }

    /// Returns the number of single keys.
    pub fn len(&self) -> (len: usize)
        ensures
            len == self.sorted().len(),
    {
        self.keys.len()
    }

    /// Returns the key at a place in the ascending order.
    pub fn key_at(&self, i: usize) -> (key: Nibbles)
        requires
            i < self.sorted().len(),
        ensures
            key == self.sorted()[i as int],
    {
        self.keys[i]
    }

    /// Returns the keys in ascending order.
    pub fn keys(&self) -> (keys: &Vec<Nibbles>)
        ensures
            keys@ == self.sorted(),
    {
        &self.keys
    }

    /// The keys in order are those of the set, and they ascend.
    pub proof fn lemma_sorted(&self)
        requires
            self.well_formed(),
        ensures
            self@.keys == path_set(self.sorted()),
            ascending(self.sorted()),
            self@.all ==> self.sorted().len() == 0,
    {
    }
}

}
