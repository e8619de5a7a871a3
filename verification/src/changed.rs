//! Which lower subtries have changed, and their hashing.

use crate::model::{lex_less, Model};
use crate::order::{
    lemma_between_prefixed, lemma_lex_asymmetric, lemma_lex_irreflexive, lemma_lex_total,
    lemma_lex_transitive, lemma_prefix_not_after, lemma_prefix_pointwise,
    lemma_prefix_transitive,
};
use crate::outside::{all_nibbles, path_before};
use crate::path::{lower_path, NUM_LOWER_SUBTRIES};
use crate::prefix_set::{ascending, path_set, PrefixModel, PrefixSet, PrefixSetMut};
use crate::root::lemma_placed;
use crate::subtrie::SparseSubtrie;
use crate::trie::{lower_well_formed, ParallelSparseTrie, TrieModel};
use crate::updates::updates_of;
use alloy_trie::Nibbles;
use vstd::prelude::*;

verus! {

/// A lower subtrie that has changed.
#[derive(Debug)]
pub struct ChangedSubtrie {
    /// The index of the subtrie.
    pub index: usize,
    /// The subtrie.
    pub subtrie: Box<SparseSubtrie>,
    /// The changed keys that belong to the subtrie.
    pub prefix_set: PrefixSet,
}

impl TrieModel {
    /// The path of the root of a lower subtrie.
    pub open spec fn lower_root(self, index: int) -> Seq<u8> {
        self.lower[index]->0.path
    }

    /// Whether a lower subtrie is there and some changed key belongs to it.
    pub open spec fn changed(self, prefix: PrefixModel, index: int) -> bool {
        0 <= index < NUM_LOWER_SUBTRIES && self.lower[index] is Some && prefix.touches(
            self.lower_root(index),
        )
    }

    /// Whether a lower subtrie has changed and has a root to be hashed from. One whose nodes are all
    /// gone has none.
    pub open spec fn rehashed(self, prefix: PrefixModel, index: int) -> bool {
        self.changed(prefix, index) && self.lower[index]->0.nodes.contains_key(
            self.lower_root(index),
        )
    }

    /// The indices below `count` of the lower subtries that have changed, in ascending order.
    pub open spec fn changed_below(self, prefix: PrefixModel, count: int) -> Seq<int>
        decreases count,
    {
        if count <= 0 {
            Seq::empty()
        } else {
            let below = self.changed_below(prefix, count - 1);
            if self.changed(prefix, count - 1) {
                below.push(count - 1)
            } else {
                below
            }
        }
    }

    /// Whether a key belongs to a lower subtrie below `count` that has changed.
    pub open spec fn in_changed(self, prefix: PrefixModel, count: int, key: Seq<u8>) -> bool {
        exists|index: int|
            index < count && #[trigger] self.changed(prefix, index) && self.lower_root(
                index,
            ).is_prefix_of(key)
    }

    /// The changed keys that belong to no lower subtrie that is there.
    pub open spec fn remaining(self, prefix: PrefixModel) -> PrefixModel {
        if prefix.all {
            PrefixModel::every()
        } else {
            PrefixModel {
                all: false,
                keys: prefix.keys.filter(
                    |key: Seq<u8>| !self.in_changed(prefix, NUM_LOWER_SUBTRIES as int, key),
                ),
            }
        }
    }

    /// Whether a key belongs to a lower subtrie that is hashed on its own.
    pub open spec fn in_rehashed(self, prefix: PrefixModel, key: Seq<u8>) -> bool {
        exists|index: int| #[trigger]
            self.rehashed(prefix, index) && self.lower_root(index).is_prefix_of(key)
    }

    /// The keys that count as changed once the changed lower subtries have been hashed: those that
    /// belong to none that was, and for the nodes of the upper subtrie all that had changed.
    pub open spec fn upper_keys(self) -> PrefixModel {
        let prefix = self.prefix.frozen();
        PrefixModel {
            all: prefix.all,
            keys: prefix.keys.filter(|key: Seq<u8>| !self.in_rehashed(prefix, key)).union(
                prefix.heads(),
            ),
        }
    }

    /// The trie without the lower subtries that have changed.
    pub open spec fn without_changed(self, prefix: PrefixModel) -> Self {
        TrieModel {
            lower: Seq::new(
                self.lower.len(),
                |i: int|
                    if self.changed(prefix, i) {
                        None
                    } else {
                        self.lower[i]
                    },
            ),
            ..self
        }
    }

    /// The changed lower subtries can be hashed.
    pub open spec fn lower_hashable(self) -> bool {
        let prefix = self.prefix.frozen();
        forall|i: int| #[trigger]
            self.rehashed(prefix, i) ==> self.lower[i]->0.hashable(
                prefix.under(self.lower_root(i)),
            )
    }

    /// Nodes that hashing the changed lower subtries goes through, if they are encoded with 33
    /// bytes, are encoded as hashes.
    pub open spec fn lower_headed(self) -> bool {
        let prefix = self.prefix.frozen();
        forall|i: int| #[trigger]
            self.rehashed(prefix, i) ==> self.lower[i]->0.hashing(
                prefix.under(self.lower_root(i)),
            ).headed_from(self.lower_root(i))
    }

    /// The trie after its changed lower subtries were hashed. One without a root is passed over. The
    /// keys that belonged to them count as changed no more.
    pub open spec fn lower_hashed(self) -> Self {
        let prefix = self.prefix.frozen();
        TrieModel {
            lower: Seq::new(
                self.lower.len(),
                |i: int|
                    if self.rehashed(prefix, i) {
                        Some(self.lower[i]->0.hashed(prefix.under(self.lower_root(i))))
                    } else {
                        self.lower[i]
                    },
            ),
            prefix: self.remaining(prefix),
            ..self
        }
    }
}

/// The paths of lower subtries are in the order of their indices, and none is a prefix of another.
pub proof fn lemma_lower_paths(i: int, j: int)
    requires
        0 <= i < j < NUM_LOWER_SUBTRIES,
    ensures
        lex_less(lower_path(i), lower_path(j)),
        forall|key: Seq<u8>|
            !((#[trigger] lower_path(i).is_prefix_of(key)) && lower_path(j).is_prefix_of(key)),
{
    let a = lower_path(i);
    let b = lower_path(j);
    assert(a[0] < b[0] || (a[0] == b[0] && a[1] < b[1]));
    assert(a.skip(1) =~= seq![a[1]]);
    assert(b.skip(1) =~= seq![b[1]]);
    assert(lex_less(a, b)) by {
        reveal_with_fuel(lex_less, 3);
    }
    assert forall|key: Seq<u8>| !(#[trigger] a.is_prefix_of(key) && b.is_prefix_of(key)) by {
        lemma_prefix_pointwise(a, key);
        lemma_prefix_pointwise(b, key);
        if a.is_prefix_of(key) && b.is_prefix_of(key) {
            assert(a[0] == key[0] && b[0] == key[0]);
            assert(a[1] == key[1] && b[1] == key[1]);
        }
    }
}

/// A path that is before another one, and neither begins the other, is before what the other begins,
/// whatever it begins itself.
proof fn lemma_lex_extended(a: Seq<u8>, b: Seq<u8>, x: Seq<u8>, y: Seq<u8>)
    requires
        lex_less(a, b),
        a.len() == b.len(),
        a.is_prefix_of(x),
        b.is_prefix_of(y),
    ensures
        lex_less(x, y),
    decreases a.len(),
{
    lemma_prefix_pointwise(a, x);
    lemma_prefix_pointwise(b, y);
    if a.len() > 0 {
        assert(a[0] == x[0] && b[0] == y[0]);
        if a[0] == b[0] {
            lemma_prefix_pointwise(a.skip(1), x.skip(1));
            lemma_prefix_pointwise(b.skip(1), y.skip(1));
            lemma_lex_extended(a.skip(1), b.skip(1), x.skip(1), y.skip(1));
        }
    }
}

/// The roots of lower subtries are in the order of their indices, and none is a prefix of another.
pub proof fn lemma_lower_roots(t: TrieModel, i: int, j: int)
    requires
        t.placed(),
        0 <= i < j < NUM_LOWER_SUBTRIES,
        t.lower[i] is Some,
        t.lower[j] is Some,
    ensures
        lex_less(t.lower_root(i), t.lower_root(j)),
        forall|key: Seq<u8>|
            !((#[trigger] t.lower_root(i).is_prefix_of(key)) && t.lower_root(j).is_prefix_of(key)),
{
    lemma_lower_paths(i, j);
    lemma_lex_extended(lower_path(i), lower_path(j), t.lower_root(i), t.lower_root(j));
    assert forall|key: Seq<u8>|
        !(#[trigger] t.lower_root(i).is_prefix_of(key) && t.lower_root(j).is_prefix_of(key)) by {
        if t.lower_root(i).is_prefix_of(key) && t.lower_root(j).is_prefix_of(key) {
            lemma_prefix_transitive(lower_path(i), t.lower_root(i), key);
            lemma_prefix_transitive(lower_path(j), t.lower_root(j), key);
        }
    }
}

/// Whether some path from place `from` to place `to` is a key.
spec fn among(paths: Seq<Nibbles>, from: int, to: int, key: Seq<u8>) -> bool {
    exists|x: int| from <= x < to && (#[trigger] paths[x]).model() == key
}

/// Takes the keys that start with a path, which stand together from some place on. The keys before
/// them go to the unchanged ones. Returns the keys and the place after them.
fn take_keys(
    prefix_set: &PrefixSet,
    start: usize,
    path: &Nibbles,
    unchanged: &mut PrefixSetMut,
) -> (taken: (Vec<Nibbles>, usize))
    requires
        prefix_set.well_formed(),
        start <= prefix_set.sorted().len(),
        !old(unchanged)@.all,
        forall|x: int|
            0 <= x < start ==> !path.model().is_prefix_of(#[trigger] prefix_set.sorted()[x].model()),
    ensures
        start <= taken.1 <= prefix_set.sorted().len(),
        path_set(taken.0@) == prefix_set@.keys.filter(
            |key: Seq<u8>| path.model().is_prefix_of(key),
        ),
        forall|x: int|
            taken.1 <= x < prefix_set.sorted().len() ==> !path.model().is_prefix_of(
                #[trigger] prefix_set.sorted()[x].model(),
            ),
        forall|x: int|
            start <= x < taken.1 ==> path.model().is_prefix_of(
                #[trigger] prefix_set.sorted()[x].model(),
            ) || lex_less(prefix_set.sorted()[x].model(), path.model()),
        !final(unchanged)@.all,
        forall|key: Seq<u8>| #[trigger]
            final(unchanged)@.keys.contains(key) <==> old(unchanged)@.keys.contains(key) || (among(
                prefix_set.sorted(),
                start as int,
                taken.1 as int,
                key,
            ) && !path.model().is_prefix_of(key)),
{
    let ghost sorted = prefix_set.sorted();
    let ghost p = path.model();
    proof {
        prefix_set.lemma_sorted();
    }
    let mut keys: Vec<Nibbles> = Vec::new();
    let mut next: usize = start;
    proof {
        assert(all_nibbles(keys@) =~= Seq::empty());
    }
    while next < prefix_set.len()
        invariant
            prefix_set.well_formed(),
            sorted == prefix_set.sorted(),
            ascending(sorted),
            p == path.model(),
            start <= next <= sorted.len(),
            !unchanged@.all,
            forall|x: int|
                start <= x < next ==> p.is_prefix_of(#[trigger] sorted[x].model()) || lex_less(
                    sorted[x].model(),
                    p,
                ),
            keys@.len() > 0 ==> next > start && p.is_prefix_of(sorted[next - 1].model()),
            forall|key: Seq<u8>| #[trigger]
                path_set(keys@).contains(key) <==> among(sorted, start as int, next as int, key)
                    && p.is_prefix_of(key),
            forall|key: Seq<u8>| #[trigger]
                unchanged@.keys.contains(key) <==> old(unchanged)@.keys.contains(key) || (among(
                    sorted,
                    start as int,
                    next as int,
                    key,
                ) && !p.is_prefix_of(key)),
        ensures
            forall|x: int|
                next <= x < sorted.len() ==> !p.is_prefix_of(#[trigger] sorted[x].model()),
        decreases sorted.len() - next,
    {
        let key = prefix_set.key_at(next);
        let ghost before = keys@;
        let ghost unchanged_before = unchanged@.keys;
        proof {
            assert forall|k: Seq<u8>| among(sorted, start as int, next + 1, k) <==> among(
                sorted,
                start as int,
                next as int,
                k,
            ) || k == key.model() by {
                if among(sorted, start as int, next + 1, k) {
                    let x = choose|x: int|
                        start <= x < next + 1 && (#[trigger] sorted[x]).model() == k;
                    assert(x < next ==> among(sorted, start as int, next as int, k));
                }
                if among(sorted, start as int, next as int, k) {
                    let x = choose|x: int| start <= x < next && (#[trigger] sorted[x]).model() == k;
                    assert(sorted[x].model() == k);
                }
                assert(sorted[next as int].model() == key.model());
            }
        }
        if key.starts_with(path) {
            keys.push(key);
            proof {
                assert(all_nibbles(keys@) =~= all_nibbles(before).push(key.model()));
                assert forall|k: Seq<u8>| #[trigger] path_set(keys@).contains(k) <==> among(
                    sorted,
                    start as int,
                    next + 1,
                    k,
                ) && p.is_prefix_of(k) by {
                    let now = all_nibbles(keys@);
                    let earlier = all_nibbles(before);
                    if path_set(before).contains(k) {
                        let i = earlier.index_of(k);
                        assert(now[i] == k);
                    }
                    if k == key.model() {
                        assert(now[earlier.len() as int] == k);
                    }
                    assert(path_set(before).contains(k) <==> among(
                        sorted,
                        start as int,
                        next as int,
                        k,
                    ) && p.is_prefix_of(k));
                }
            }
        } else if keys.len() == 0 && path_before(&key, path) {
            unchanged.insert(key);
            proof {
                assert forall|k: Seq<u8>| #[trigger] unchanged@.keys.contains(k) <==> old(
                    unchanged,
                )@.keys.contains(k) || (among(sorted, start as int, next + 1, k)
                    && !p.is_prefix_of(k)) by {
                    assert(unchanged_before.contains(k) <==> old(unchanged)@.keys.contains(k) || (
                    among(sorted, start as int, next as int, k) && !p.is_prefix_of(k)));
                }
                assert forall|k: Seq<u8>| #[trigger] path_set(keys@).contains(k) <==> among(
                    sorted,
                    start as int,
                    next + 1,
                    k,
                ) && p.is_prefix_of(k) by {
                    assert(path_set(before).contains(k) <==> among(
                        sorted,
                        start as int,
                        next as int,
                        k,
                    ) && p.is_prefix_of(k));
                }
            }
        } else {
            proof {
                let here = key.model();
                assert forall|x: int| next <= x < sorted.len() implies !p.is_prefix_of(
                    #[trigger] sorted[x].model(),
                ) by {
                    let k = sorted[x].model();
                    if p.is_prefix_of(k) {
                        lemma_lex_irreflexive(k);
                        if x > next {
                            assert(lex_less(sorted[next as int].model(), sorted[x].model()));
                            lemma_lex_asymmetric(here, k);
                        }
                        if keys@.len() > 0 {
                            let first = sorted[next - 1].model();
                            assert(lex_less(sorted[next - 1].model(), sorted[next as int].model()));
                            lemma_prefix_not_after(p, first);
                            lemma_lex_total(p, here);
                            if lex_less(here, p) {
                                lemma_lex_transitive(first, here, p);
                            }
                        }
                        lemma_between_prefixed(p, here, k);
                    }
                }
            }
            break;
        }
        next += 1;
    }
    proof {
        assert forall|key: Seq<u8>| path_set(keys@).contains(key) == prefix_set@.keys.filter(
            |key: Seq<u8>| p.is_prefix_of(key),
        ).contains(key) by {
            let all = all_nibbles(sorted);
            if path_set(keys@).contains(key) {
                let x = choose|x: int| start <= x < next && (#[trigger] sorted[x]).model() == key;
                assert(all[x] == key);
            }
            if prefix_set@.keys.contains(key) && p.is_prefix_of(key) {
                let x = all.index_of(key);
                assert(sorted[x].model() == key);
                assert(among(sorted, start as int, next as int, key));
            }
        }
        assert(path_set(keys@) =~= prefix_set@.keys.filter(|key: Seq<u8>| p.is_prefix_of(key)));
    }
    (keys, next)
}

/// Whether a changed subtrie is the one with its index, with the keys that belong to it.
pub open spec fn changed_matches(
    trie: ParallelSparseTrie,
    prefix: PrefixModel,
    index: int,
    changed: ChangedSubtrie,
) -> bool {
    &&& changed.index == index
    &&& trie.lower_subtries@[index] == Some(changed.subtrie)
    &&& changed.prefix_set.well_formed()
    &&& changed.prefix_set@ == prefix.under(changed.subtrie.path.model())
}

impl ParallelSparseTrie {
    /// Takes the lower subtries that have changed out of the trie, in the order of their paths,
    /// each with the keys that belong to it. Returns them and the keys that belong to none of them.
    ///
    /// The caller has to put the subtries back.
    pub fn take_changed_lower_subtries(&mut self, prefix_set: &mut PrefixSet) -> (taken: (
        Vec<ChangedSubtrie>,
        PrefixSetMut,
    ))
        requires
            old(self).well_formed(),
            old(prefix_set).well_formed(),
        ensures
            final(self).well_formed(),
            final(self)@ == old(self)@.without_changed(old(prefix_set)@),
            final(prefix_set).well_formed(),
            final(prefix_set)@ == old(prefix_set)@,
            ({
                let indices = old(self)@.changed_below(
                    old(prefix_set)@,
                    NUM_LOWER_SUBTRIES as int,
                );
                &&& taken.0@.len() == indices.len()
                &&& forall|k: int|
                    0 <= k < indices.len() ==> changed_matches(
                        *old(self),
                        old(prefix_set)@,
                        indices[k],
                        #[trigger] taken.0@[k],
                    )
            }),
            taken.1@ == old(self)@.remaining(old(prefix_set)@),
    {
        let ghost t = self@;
        let ghost prefix = prefix_set@;
        let ghost sorted = prefix_set.sorted();
        proof {
            lemma_placed(*self);
            prefix_set.lemma_sorted();
        }
        let all = prefix_set.all();
        let mut changed: Vec<ChangedSubtrie> = Vec::new();
        let mut unchanged = if all {
            PrefixSetMut::all()
        } else {
            PrefixSetMut::default()
        };
        let mut next: usize = 0;
        let mut index: usize = 0;
        proof {
            lemma_split_start(t, prefix, sorted);
            assert(prefix.all || unchanged@.keys =~= Set::empty());
        }
        while index < NUM_LOWER_SUBTRIES
            invariant
                index <= NUM_LOWER_SUBTRIES,
                t == old(self)@,
                t.placed(),
                old(self).well_formed(),
                self.well_formed(),
                self.upper_subtrie == old(self).upper_subtrie,
                self.prefix_set == old(self).prefix_set,
                self.updates == old(self).updates,
                prefix == old(prefix_set)@,
                prefix_set.well_formed(),
                prefix_set@ == prefix,
                prefix_set.sorted() == sorted,
                ascending(sorted),
                all == prefix.all,
                all ==> sorted.len() == 0,
                forall|i: int|
                    0 <= i < NUM_LOWER_SUBTRIES ==> #[trigger] self.lower_subtries@[i] == if i
                        < index && t.changed(prefix, i) {
                        None
                    } else {
                        old(self).lower_subtries@[i]
                    },
                changed@.len() == t.changed_below(prefix, index as int).len(),
                forall|k: int|
                    0 <= k < changed@.len() ==> changed_matches(
                        *old(self),
                        prefix,
                        t.changed_below(prefix, index as int)[k],
                        #[trigger] changed@[k],
                    ),
                next <= sorted.len(),
                all ==> unchanged@ == PrefixModel::every(),
                !all ==> !unchanged@.all,
                !all ==> split(t, prefix, sorted, index as int, next as int, unchanged@.keys),
            decreases NUM_LOWER_SUBTRIES - index,
        {
            let is_changed = match &self.lower_subtries[index] {
                Some(subtrie) => prefix_set.contains(&subtrie.path),
                None => false,
            };
            assert(is_changed == t.changed(prefix, index as int)) by {
                assert(lower_well_formed(index as int, self.lower_subtries@[index as int]));
                assert(self.lower_subtries@[index as int] == old(
                    self,
                ).lower_subtries@[index as int]);
            }
            let ghost path = t.lower_root(index as int);
            if is_changed {
                let subtrie = self.lower_subtries[index].take().unwrap();
                assert(subtrie.path.model() == path);
                let keys = if all {
                    PrefixSetMut::all()
                } else {
                    let ghost before = unchanged@.keys;
                    let ghost start = next as int;
                    proof {
                        lemma_split_before(t, prefix, sorted, index as int, start, before);
                    }
                    let (keys, after) = take_keys(prefix_set, next, &subtrie.path, &mut unchanged);
                    next = after;
                    proof {
                        lemma_split_step(
                            t,
                            prefix,
                            sorted,
                            index as int,
                            start,
                            after as int,
                            before,
                            unchanged@.keys,
                        );
                    }
                    PrefixSetMut::from(keys)
                };
                changed.push(ChangedSubtrie { index, subtrie, prefix_set: keys.freeze() });
            } else {
                proof {
                    if !all {
                        lemma_split_skip(
                            t,
                            prefix,
                            sorted,
                            index as int,
                            next as int,
                            unchanged@.keys,
                        );
                    }
                }
            }
            index += 1;
        }
        if !all {
            let mut rest: Vec<Nibbles> = Vec::new();
            let ghost start = next as int;
            let ghost before = unchanged@.keys;
            assert(all_nibbles(rest@) =~= Seq::empty());
            while next < prefix_set.len()
                invariant
                    prefix_set.sorted() == sorted,
                    0 <= start <= next <= sorted.len(),
                    rest@ =~= sorted.subrange(start, next as int),
                decreases sorted.len() - next,
            {
                rest.push(prefix_set.key_at(next));
                next += 1;
            }
            unchanged.extend_keys(rest);
            proof {
                lemma_split_end(t, prefix, sorted, start, before, rest@);
                assert(unchanged@.keys =~= t.remaining(prefix).keys);
            }
        }
        assert(self@.lower =~= t.without_changed(prefix).lower) by {
            assert forall|i: int| 0 <= i < NUM_LOWER_SUBTRIES implies self@.lower[i]
                == t.without_changed(prefix).lower[i] by {
                assert(self.lower_subtries@[i] == if t.changed(prefix, i) {
                    None
                } else {
                    old(self).lower_subtries@[i]
                });
            }
        }
        (changed, unchanged)
    }
}

/// How the keys are split before the lower subtrie with an index is looked at. No key before the
/// place `next` belongs to it or a later one, no key from there on to an earlier one that has
/// changed; the keys before the place that belong to no changed one are the unchanged ones.
#[verifier::opaque]
spec fn split(
    t: TrieModel,
    prefix: PrefixModel,
    sorted: Seq<Nibbles>,
    index: int,
    next: int,
    unchanged: Set<Seq<u8>>,
) -> bool {
    &&& forall|x: int, i: int|
        0 <= x < next && index <= i < NUM_LOWER_SUBTRIES && t.lower[i] is Some
            ==> !(#[trigger] t.lower_root(i)).is_prefix_of(#[trigger] sorted[x].model())
    &&& forall|x: int|
        next <= x < sorted.len() ==> !t.in_changed(prefix, index, #[trigger] sorted[x].model())
    &&& forall|key: Seq<u8>| #[trigger]
        unchanged.contains(key) <==> among(sorted, 0, next, key) && !t.in_changed(
            prefix,
            index,
            key,
        )
}

/// Before the first lower subtrie no key has been given out.
proof fn lemma_split_start(t: TrieModel, prefix: PrefixModel, sorted: Seq<Nibbles>)
    ensures
        split(t, prefix, sorted, 0, 0, Set::empty()),
{
    reveal(split);
    assert forall|key: Seq<u8>| !t.in_changed(prefix, 0, key) by {}
}

/// One more lower subtrie adds the keys that belong to it, if it has changed.
proof fn lemma_in_changed_step(t: TrieModel, prefix: PrefixModel, index: int, key: Seq<u8>)
    ensures
        t.in_changed(prefix, index + 1, key) <==> t.in_changed(prefix, index, key) || (t.changed(
            prefix,
            index,
        ) && t.lower_root(index).is_prefix_of(key)),
{
    if t.in_changed(prefix, index + 1, key) {
        let i = choose|i: int|
            i < index + 1 && #[trigger] t.changed(prefix, i) && t.lower_root(i).is_prefix_of(key);
        assert(t.changed(prefix, i));
    }
    if t.in_changed(prefix, index, key) {
        let i = choose|i: int|
            i < index && #[trigger] t.changed(prefix, i) && t.lower_root(i).is_prefix_of(key);
        assert(t.changed(prefix, i));
    }
}

/// No key that was given out belongs to the lower subtrie that comes next.
proof fn lemma_split_before(
    t: TrieModel,
    prefix: PrefixModel,
    sorted: Seq<Nibbles>,
    index: int,
    next: int,
    unchanged: Set<Seq<u8>>,
)
    requires
        split(t, prefix, sorted, index, next, unchanged),
        0 <= index < NUM_LOWER_SUBTRIES,
        t.lower[index] is Some,
    ensures
        forall|x: int|
            0 <= x < next ==> !t.lower_root(index).is_prefix_of(#[trigger] sorted[x].model()),
{
    reveal(split);
    assert forall|x: int| 0 <= x < next implies !t.lower_root(index).is_prefix_of(
        #[trigger] sorted[x].model(),
    ) by {}
}

/// A lower subtrie that has not changed takes no keys.
proof fn lemma_split_skip(
    t: TrieModel,
    prefix: PrefixModel,
    sorted: Seq<Nibbles>,
    index: int,
    next: int,
    unchanged: Set<Seq<u8>>,
)
    requires
        split(t, prefix, sorted, index, next, unchanged),
        !t.changed(prefix, index),
    ensures
        split(t, prefix, sorted, index + 1, next, unchanged),
{
    reveal(split);
    assert forall|key: Seq<u8>| t.in_changed(prefix, index + 1, key) == t.in_changed(
        prefix,
        index,
        key,
    ) by {
        lemma_in_changed_step(t, prefix, index, key);
    }
}

/// A lower subtrie that has changed takes the keys that belong to it.
proof fn lemma_split_step(
    t: TrieModel,
    prefix: PrefixModel,
    sorted: Seq<Nibbles>,
    index: int,
    start: int,
    after: int,
    before: Set<Seq<u8>>,
    unchanged: Set<Seq<u8>>,
)
    requires
        t.placed(),
        split(t, prefix, sorted, index, start, before),
        0 <= index < NUM_LOWER_SUBTRIES,
        t.changed(prefix, index),
        0 <= start <= after <= sorted.len(),
        forall|x: int|
            after <= x < sorted.len() ==> !t.lower_root(index).is_prefix_of(
                #[trigger] sorted[x].model(),
            ),
        forall|x: int|
            start <= x < after ==> t.lower_root(index).is_prefix_of(#[trigger] sorted[x].model())
                || lex_less(sorted[x].model(), t.lower_root(index)),
        forall|key: Seq<u8>| #[trigger]
            unchanged.contains(key) <==> before.contains(key) || (among(sorted, start, after, key)
                && !t.lower_root(index).is_prefix_of(key)),
    ensures
        split(t, prefix, sorted, index + 1, after, unchanged),
{
    reveal(split);
    let path = t.lower_root(index);
    assert forall|key: Seq<u8>| #[trigger] unchanged.contains(key) <==> among(sorted, 0, after, key)
        && !t.in_changed(prefix, index + 1, key) by {
        lemma_among_split(sorted, 0, start, after, key);
        lemma_in_changed_step(t, prefix, index, key);
        assert(before.contains(key) <==> among(sorted, 0, start, key) && !t.in_changed(
            prefix,
            index,
            key,
        ));
        if among(sorted, 0, start, key) {
            let x = choose|x: int| 0 <= x < start && (#[trigger] sorted[x]).model() == key;
            assert(!t.lower_root(index).is_prefix_of(sorted[x].model()));
        }
        if among(sorted, start, after, key) {
            let x = choose|x: int| start <= x < after && (#[trigger] sorted[x]).model() == key;
            assert(!t.in_changed(prefix, index, sorted[x].model()));
        }
    }
    assert forall|x: int, i: int|
        0 <= x < after && index + 1 <= i < NUM_LOWER_SUBTRIES && t.lower[i] is Some implies !(
    #[trigger] t.lower_root(i)).is_prefix_of(#[trigger] sorted[x].model()) by {
        let key = sorted[x].model();
        if x >= start {
            lemma_lower_roots(t, index, i);
            if path.is_prefix_of(key) {
                assert(!(path.is_prefix_of(key) && t.lower_root(i).is_prefix_of(key)));
            } else if t.lower_root(i).is_prefix_of(key) {
                assert(lex_less(key, path));
                lemma_lex_transitive(key, path, t.lower_root(i));
                lemma_prefix_not_after(t.lower_root(i), key);
            }
        }
    }
    assert forall|x: int| after <= x < sorted.len() implies !t.in_changed(
        prefix,
        index + 1,
        #[trigger] sorted[x].model(),
    ) by {
        lemma_in_changed_step(t, prefix, index, sorted[x].model());
    }
}

/// After the last lower subtrie, the keys that are left over belong to none.
proof fn lemma_split_end(
    t: TrieModel,
    prefix: PrefixModel,
    sorted: Seq<Nibbles>,
    start: int,
    before: Set<Seq<u8>>,
    rest: Seq<Nibbles>,
)
    requires
        split(t, prefix, sorted, NUM_LOWER_SUBTRIES as int, start, before),
        0 <= start <= sorted.len(),
        rest == sorted.subrange(start, sorted.len() as int),
        prefix.keys == path_set(sorted),
        !prefix.all,
    ensures
        before.union(path_set(rest)) == t.remaining(prefix).keys,
{
    reveal(split);
    let n = NUM_LOWER_SUBTRIES as int;
    let every = all_nibbles(sorted);
    let more = all_nibbles(rest);
    assert forall|key: Seq<u8>| before.union(path_set(rest)).contains(key) == t.remaining(
        prefix,
    ).keys.contains(key) by {
        assert(before.contains(key) <==> among(sorted, 0, start, key) && !t.in_changed(
            prefix,
            n,
            key,
        ));
        if before.contains(key) {
            let x = choose|x: int| 0 <= x < start && (#[trigger] sorted[x]).model() == key;
            assert(every[x] == key);
        }
        if path_set(rest).contains(key) {
            let i = more.index_of(key);
            assert(rest[i] == sorted[start + i]);
            assert(every[start + i] == key);
            assert(!t.in_changed(prefix, n, sorted[start + i].model()));
        }
        if prefix.keys.contains(key) && !t.in_changed(prefix, n, key) {
            let x = every.index_of(key);
            assert(sorted[x].model() == key);
            if x < start {
                assert(among(sorted, 0, start, key));
            } else {
                assert(more[x - start] == key);
            }
        }
    }
    assert(before.union(path_set(rest)) =~= t.remaining(prefix).keys);
}

/// A path is in a range of a sequence if it is in the first or in the second part of the range.
proof fn lemma_among_split(paths: Seq<Nibbles>, a: int, b: int, c: int, key: Seq<u8>)
    requires
        a <= b <= c,
    ensures
        among(paths, a, c, key) <==> among(paths, a, b, key) || among(paths, b, c, key),
{
    if among(paths, a, c, key) {
        let x = choose|x: int| a <= x < c && (#[trigger] paths[x]).model() == key;
        assert(paths[x].model() == key);
    }
    if among(paths, a, b, key) {
        let x = choose|x: int| a <= x < b && (#[trigger] paths[x]).model() == key;
        assert(paths[x].model() == key);
    }
    if among(paths, b, c, key) {
        let x = choose|x: int| b <= x < c && (#[trigger] paths[x]).model() == key;
        assert(paths[x].model() == key);
    }
}

/// The last of the changed subtries below a bound, or that there is none.
proof fn lemma_last_changed(t: TrieModel, prefix: PrefixModel, bound: int)
    requires
        0 <= bound <= NUM_LOWER_SUBTRIES,
    ensures
        ({
            let indices = t.changed_below(prefix, bound);
            let last = indices.last();
            if indices.len() == 0 {
                forall|i: int| #[trigger] t.changed(prefix, i) ==> i >= bound
            } else {
                &&& 0 <= last < bound
                &&& t.changed(prefix, last)
                &&& t.changed_below(prefix, last) == indices.drop_last()
                &&& forall|i: int| #[trigger] t.changed(prefix, i) && i < bound ==> i <= last
            }
        }),
    decreases bound,
{
    if bound > 0 {
        lemma_last_changed(t, prefix, bound - 1);
        if t.changed(prefix, bound - 1) {
            let below = t.changed_below(prefix, bound - 1);
            assert(below.push(bound - 1).drop_last() =~= below);
        }
    }
}

impl ParallelSparseTrie {
    /// Hashes the lower subtries that have changed, and passes over those without a root. The keys
    /// that belong to them count as changed no more.
    pub fn update_lower_subtrie_hashes(&mut self)
        requires
            old(self).well_formed(),
            old(self)@.lower_hashable(),
        ensures
            final(self).well_formed(),
            final(self)@ == old(self)@.lower_hashed(),
            old(self)@.lower_headed(),
    {
        let ghost t = self@;
        let ghost prefix = t.prefix.frozen();
        let mut keys = PrefixSetMut::default();
        core::mem::swap(&mut keys, &mut self.prefix_set);
        let mut prefix_set = keys.freeze();
        let ghost start = *self;
        proof {
            lemma_changed_same(t, start@, prefix);
        }
        let (mut subtries, unchanged) = self.take_changed_lower_subtries(&mut prefix_set);
        self.prefix_set = unchanged;
        let ghost mut bound = NUM_LOWER_SUBTRIES as int;
        while subtries.len() > 0
            invariant
                0 <= bound <= NUM_LOWER_SUBTRIES,
                t == old(self)@,
                prefix == t.prefix.frozen(),
                t.lower_hashable(),
                old(self).well_formed(),
                self.well_formed(),
                start.lower_subtries == old(self).lower_subtries,
                self.upper_subtrie@ == t.upper,
                self.prefix_set@ == t.remaining(prefix),
                updates_of(self.updates) == t.updates,
                subtries@.len() == t.changed_below(prefix, bound).len(),
                forall|k: int|
                    0 <= k < subtries@.len() ==> changed_matches(
                        start,
                        prefix,
                        t.changed_below(prefix, bound)[k],
                        #[trigger] subtries@[k],
                    ),
                forall|i: int|
                    0 <= i < NUM_LOWER_SUBTRIES ==> #[trigger] self@.lower[i] == if t.changed(
                        prefix,
                        i,
                    ) {
                        if i < bound {
                            None
                        } else {
                            t.lower_hashed().lower[i]
                        }
                    } else {
                        t.lower[i]
                    },
                forall|i: int| #[trigger]
                    t.rehashed(prefix, i) && i >= bound ==> t.lower[i]->0.hashing(
                        prefix.under(t.lower_root(i)),
                    ).headed_from(t.lower_root(i)),
            decreases subtries@.len(),
        {
            proof {
                lemma_last_changed(t, prefix, bound);
            }
            let ghost last = t.changed_below(prefix, bound).last();
            let ghost before = self@.lower;
            assert(changed_matches(start, prefix, last, subtries@[subtries@.len() - 1]));
            let ChangedSubtrie { index, subtrie, prefix_set } = subtries.pop().unwrap();
            assert(lower_well_formed(last, old(self).lower_subtries@[last]));
            assert(subtrie@ == t.lower[last]->0);
            let mut subtrie = subtrie;
            let mut prefix_set = prefix_set;
            // A subtrie whose nodes are all gone has no root to be hashed from.
            if subtrie.nodes.contains_key(&subtrie.path) {
                assert(t.rehashed(prefix, last));
                let _ = subtrie.update_hashes(&mut prefix_set);
            }
            self.lower_subtries[index] = Some(subtrie);
            proof {
                assert(self@.lower =~= before.update(last, Some(subtrie@)));
                bound = last;
            }
        }
        proof {
            lemma_last_changed(t, prefix, bound);
            assert(self@.lower =~= t.lower_hashed().lower);
        }
    }
}

/// Which subtries have changed depends on the lower subtries alone.
proof fn lemma_changed_same(a: TrieModel, b: TrieModel, prefix: PrefixModel)
    requires
        a.lower == b.lower,
    ensures
        forall|i: int| a.changed(prefix, i) == b.changed(prefix, i),
        a.changed_below(prefix, NUM_LOWER_SUBTRIES as int) == b.changed_below(
            prefix,
            NUM_LOWER_SUBTRIES as int,
        ),
        a.remaining(prefix) == b.remaining(prefix),
{
    lemma_changed_below_same(a, b, prefix, NUM_LOWER_SUBTRIES as int);
    assert forall|i: int| a.changed(prefix, i) == b.changed(prefix, i) by {}
    assert forall|count: int, key: Seq<u8>|
        a.in_changed(prefix, count, key) == b.in_changed(prefix, count, key) by {
        if a.in_changed(prefix, count, key) {
            let i = choose|i: int|
                i < count && #[trigger] a.changed(prefix, i) && a.lower_root(i).is_prefix_of(key);
            assert(b.changed(prefix, i));
        }
        if b.in_changed(prefix, count, key) {
            let i = choose|i: int|
                i < count && #[trigger] b.changed(prefix, i) && b.lower_root(i).is_prefix_of(key);
            assert(a.changed(prefix, i));
        }
    }
    assert(a.remaining(prefix).keys =~= b.remaining(prefix).keys);
}

/// Which lower subtries have changed depends on their presence only.
proof fn lemma_changed_below_same(a: TrieModel, b: TrieModel, prefix: PrefixModel, count: int)
    requires
        a.lower == b.lower,
    ensures
        a.changed_below(prefix, count) == b.changed_below(prefix, count),
    decreases count,
{
    if count > 0 {
        lemma_changed_below_same(a, b, prefix, count - 1);
    }
}

}
