//! The trie: an upper subtrie, and lower subtries that can be hashed independently.

use crate::error::{outcome, ErrorModel, SparseTrieResult};
use crate::form::in_form;
use crate::laws::{law_from_root_whole, law_reveal_keeps_normal_form};
use crate::laws_of_recording::{gathered, law_taken_updates};
use crate::lower::{
    lemma_all_lower, lemma_children_joined, lemma_kids_low, lemma_upper_of_child, LowerChild,
};
use crate::model::{child_nibbles, model_seq, nibbles_below, MasksModel, Model, TrieNodeModel};
use crate::node::{TrieMasks, TrieNode};
use crate::normal::lemma_alike_whole;
use crate::outside::{decode_node, slice_to, MAX_PATH_LEN};
use crate::path::{
    know_path, is_upper, lower_index_of, lower_path, SparseSubtrieType, NUM_LOWER_SUBTRIES,
    UPPER_TRIE_MAX_DEPTH,
};
use crate::prefix_set::{PrefixModel, PrefixSetMut};
use crate::revealed::{lemma_not_revealed, lemma_reveal_roots, lemma_then_revealed};
use crate::revealing::{
    child_bound, lemma_child_bound, lemma_nibbles_prefix, lemma_widest, Revealed,
};
use crate::root::lemma_placed;
use crate::shown::{lemma_trie_shown, shown};
use crate::soundness::{
    keeps, lemma_alike_sound, lemma_empty_sound, lemma_taken_alike, lemma_trie_reveal,
    lemma_updates_alike,
};
use crate::subtrie::{SparseSubtrie, SubtrieModel};
use crate::updates::{updates_of, SparseTrieUpdates, UpdatesModel};
use alloy_trie::Nibbles;
use vstd::prelude::*;

verus! {

/// The model of a trie.
#[verifier::ext_equal]
pub struct TrieModel {
    pub upper: SubtrieModel,
    /// The lower subtries by their indices.
    pub lower: Seq<Option<SubtrieModel>>,
    /// The keys that have changed.
    pub prefix: PrefixModel,
    pub updates: Option<UpdatesModel>,
}

/// A trie and how revealing ended.
#[verifier::ext_equal]
pub struct TrieRevealed {
    pub trie: TrieModel,
    pub result: Result<(), ErrorModel>,
}

impl TrieModel {
    /// The trie of which nothing is revealed.
    pub open spec fn empty() -> Self {
        TrieModel {
            upper: SubtrieModel::empty(Seq::empty()),
            lower: Seq::new(NUM_LOWER_SUBTRIES as nat, |i: int| None),
            prefix: PrefixModel::none(),
            updates: None,
        }
    }

    /// The lower subtrie with an index, or the one that is created in its place. It records updates
    /// if the trie does.
    pub open spec fn lower_at(self, index: int) -> SubtrieModel {
        match self.lower[index] {
            Some(subtrie) => subtrie,
            None => SubtrieModel::empty(lower_path(index)).with_updates(self.updates is Some),
        }
    }

    /// The trie with another lower subtrie.
    pub open spec fn with_lower(self, index: int, subtrie: SubtrieModel) -> Self {
        TrieModel { lower: self.lower.update(index, Some(subtrie)), ..self }
    }

    /// The subtrie that a path belongs to.
    pub open spec fn subtrie_at(self, path: Seq<u8>) -> SubtrieModel {
        if is_upper(path) {
            self.upper
        } else {
            self.lower_at(lower_index_of(path))
        }
    }

    /// The trie with another subtrie where a path belongs to.
    pub open spec fn with_subtrie_at(self, path: Seq<u8>, subtrie: SubtrieModel) -> Self {
        if is_upper(path) {
            TrieModel { upper: subtrie, ..self }
        } else {
            self.with_lower(lower_index_of(path), subtrie)
        }
    }

    /// What revealing in the subtrie of a path makes of the trie. The path of a lower subtrie is the
    /// shortest one that was revealed in it.
    pub open spec fn after(self, path: Seq<u8>, revealed: Revealed) -> TrieRevealed {
        TrieRevealed {
            trie: self.with_subtrie_at(path, settled(path, revealed)),
            result: revealed.result,
        }
    }

    /// Revealing succeeds.
    pub open spec fn ok(self) -> TrieRevealed {
        TrieRevealed { trie: self, result: Ok(()) }
    }

    /// Reveals a node in the subtrie that its path belongs to, and all children that come with it in
    /// the subtries that their paths belong to. Children are revealed first: where that fails, the
    /// node is not revealed. Nothing changes if the node has been revealed.
    pub open spec fn with_revealed(
        self,
        path: Seq<u8>,
        node: TrieNodeModel,
        masks: MasksModel,
    ) -> TrieRevealed {
        if self.is_revealed(path) {
            self.ok()
        } else if !is_upper(path) {
            self.after(path, self.subtrie_at(path).with_revealed(path, node, masks))
        } else {
            // The upper subtrie leaves out the children that belong to lower subtries.
            let below = self.with_children(self.lower_kids(path, node));
            if below.result is Err {
                below
            } else {
                below.trie.after(path, below.trie.subtrie_at(path).with_revealed(path, node, masks))
            }
        }
    }

    /// The trie that has nothing recorded, and records if `retain` says so.
    pub open spec fn with_updates(self, retain: bool) -> Self {
        TrieModel {
            upper: self.upper.with_updates(retain),
            lower: self.lower.map_values(
                |subtrie: Option<SubtrieModel>|
                    match subtrie {
                        Some(s) => Some(s.with_updates(retain)),
                        None => None,
                    },
            ),
            prefix: self.prefix,
            updates: if retain {
                Some(UpdatesModel::none())
            } else {
                None
            },
        }
    }
}

/// The path of a subtrie after revealing at a path: that of a lower subtrie changes if the new one is
/// shorter, or if there is no node at the one it has.
pub open spec fn root_after(path: Seq<u8>, revealed: Revealed) -> Seq<u8> {
    let subtrie = revealed.subtrie;
    if !is_upper(path) && revealed.result is Ok && (!subtrie.nodes.contains_key(subtrie.path)
        || path.len() < subtrie.path.len()) {
        path
    } else {
        subtrie.path
    }
}

/// A subtrie after revealing at a path, with the path that it has then.
pub open spec fn settled(path: Seq<u8>, revealed: Revealed) -> SubtrieModel {
    SubtrieModel { path: root_after(path, revealed), ..revealed.subtrie }
}

impl TrieModel {
    /// The trie after the updates were taken. What recorded goes on with nothing recorded: the trie
    /// itself, and each subtrie.
    pub open spec fn updates_taken(self) -> Self {
        TrieModel {
            upper: self.upper.updates_taken(),
            lower: self.lower.map_values(
                |subtrie: Option<SubtrieModel>|
                    match subtrie {
                        Some(s) => Some(s.updates_taken()),
                        None => None,
                    },
            ),
            prefix: self.prefix,
            updates: if self.updates is Some {
                Some(UpdatesModel::none())
            } else {
                None
            },
        }
    }
}

/// The models of lower subtries.
pub open spec fn lower_models(lower: Seq<Option<Box<SparseSubtrie>>>) -> Seq<Option<SubtrieModel>> {
    lower.map_values(
        |subtrie: Option<Box<SparseSubtrie>>|
            match subtrie {
                Some(s) => Some(s@),
                None => None,
            },
    )
}

/// A sparse trie that is split in two levels, so that its lower subtries can be hashed
/// independently.
///
/// Each leaf has an entry in the values of the subtrie that holds it, and all paths of values are
/// full paths of leaves.
#[derive(Clone, PartialEq, Eq, Debug)]
pub struct ParallelSparseTrie {
    /// The nodes with short paths.
    pub upper_subtrie: Box<SparseSubtrie>,
    /// The nodes with longer paths, by the first nibbles of the paths.
    pub lower_subtries: Vec<Option<Box<SparseSubtrie>>>,
    /// The keys that have changed.
    pub prefix_set: PrefixSetMut,
    /// The updates, if they are recorded.
    pub updates: Option<SparseTrieUpdates>,
}

impl Default for ParallelSparseTrie {
    fn default() -> (trie: Self)
        ensures
            trie@ == TrieModel::empty(),
            trie.well_formed(),
            trie@.sound(),
    {
        proof {
            lemma_empty_sound();
        }
        let mut lower_subtries: Vec<Option<Box<SparseSubtrie>>> = Vec::new();
        let mut i: usize = 0;
        while i < NUM_LOWER_SUBTRIES
            invariant
                i <= NUM_LOWER_SUBTRIES,
                lower_subtries@.len() == i,
                forall|j: int| 0 <= j < i ==> (#[trigger] lower_subtries@[j]) is None,
            decreases NUM_LOWER_SUBTRIES - i,
        {
            lower_subtries.push(None);
            i += 1;
        }
        let trie = ParallelSparseTrie {
            upper_subtrie: Box::new(SparseSubtrie::default()),
            lower_subtries,
            prefix_set: PrefixSetMut::default(),
            updates: None,
        };
        assert(trie@ =~= TrieModel::empty());
        trie
    }
}

impl ParallelSparseTrie {
    /// The model of the trie.
    pub open spec fn view(&self) -> TrieModel {
        TrieModel {
            upper: self.upper_subtrie@,
            lower: lower_models(self.lower_subtries@),
            prefix: self.prefix_set@,
            updates: updates_of(self.updates),
        }
    }

    /// There is a place for each lower subtrie, the path of each belongs there, and no hashing is
    /// under way.
    pub open spec fn well_formed(&self) -> bool {
        &&& self.upper_subtrie.idle()
        &&& self.upper_subtrie.path.model() == Seq::<u8>::empty()
        &&& self.lower_subtries@.len() == NUM_LOWER_SUBTRIES
        &&& forall|i: int|
            0 <= i < NUM_LOWER_SUBTRIES ==> lower_well_formed(i, #[trigger] self.lower_subtries@[i])
    }

    /// Returns the lower subtrie that a path belongs to, or nothing if it belongs to the upper one.
    /// A lower subtrie that is not there is created; it records updates if the trie does.
    pub fn lower_subtrie_for_path(&mut self, path: &Nibbles) -> (subtrie: Option<
        &mut Box<SparseSubtrie>,
    >)
        requires
            old(self).well_formed(),
        ensures
            subtrie is None == is_upper(path.model()),
            match subtrie {
                None => *final(self) == *old(self),
                Some(s) => {
                    let index = lower_index_of(path.model());
                    &&& 0 <= index < NUM_LOWER_SUBTRIES
                    &&& lower_path(index).is_prefix_of(path.model())
                    &&& s@ == old(self)@.lower_at(index)
                    &&& lower_well_formed(index, Some(*s))
                    &&& final(self).upper_subtrie == old(self).upper_subtrie
                    &&& final(self).prefix_set == old(self).prefix_set
                    &&& final(self).updates == old(self).updates
                    &&& final(self).lower_subtries@ == old(self).lower_subtries@.update(
                        index,
                        Some(*final(s)),
                    )
                },
            },
    {
        match SparseSubtrieType::from_path(path) {
            SparseSubtrieType::Upper => None,
            SparseSubtrieType::Lower(index) => {
                if self.lower_subtries[index].is_none() {
                    let upper_path = slice_to(path, UPPER_TRIE_MAX_DEPTH);
                    let subtrie = SparseSubtrie::new(upper_path).with_updates(
                        self.updates.is_some(),
                    );
                    self.lower_subtries[index] = Some(Box::new(subtrie));
                }
                assert(self.lower_subtries@.len() == NUM_LOWER_SUBTRIES);
                self.lower_subtries[index].as_mut()
            },
        }
    }

    /// Returns the subtrie that a path belongs to. A lower subtrie that is not there is created; it
    /// records updates if the trie does.
    pub fn subtrie_for_path(&mut self, path: &Nibbles) -> (subtrie: &mut Box<SparseSubtrie>)
        requires
            old(self).well_formed(),
        ensures
            subtrie@ == old(self)@.subtrie_at(path.model()),
            subtrie_well_formed(path.model(), **subtrie),
            final(self).prefix_set == old(self).prefix_set,
            final(self).updates == old(self).updates,
            if is_upper(path.model()) {
                &&& final(self).upper_subtrie == *final(subtrie)
                &&& final(self).lower_subtries == old(self).lower_subtries
            } else {
                &&& 0 <= lower_index_of(path.model()) < NUM_LOWER_SUBTRIES
                &&& lower_path(lower_index_of(path.model())).is_prefix_of(path.model())
                &&& final(self).upper_subtrie == old(self).upper_subtrie
                &&& final(self).lower_subtries@ == old(self).lower_subtries@.update(
                    lower_index_of(path.model()),
                    Some(*final(subtrie)),
                )
            },
    {
        match SparseSubtrieType::from_path(path) {
            SparseSubtrieType::Upper => &mut self.upper_subtrie,
            SparseSubtrieType::Lower(index) => {
                if self.lower_subtries[index].is_none() {
                    let upper_path = slice_to(path, UPPER_TRIE_MAX_DEPTH);
                    let subtrie = SparseSubtrie::new(upper_path).with_updates(
                        self.updates.is_some(),
                    );
                    self.lower_subtries[index] = Some(Box::new(subtrie));
                }
                assert(self.lower_subtries@.len() == NUM_LOWER_SUBTRIES);
                self.lower_subtries[index].as_mut().unwrap()
            },
        }
    }
}

impl ParallelSparseTrie {
    /// Returns true if there is a node at a path, and it is not blinded.
    fn is_revealed(&self, path: &Nibbles) -> (yes: bool)
        requires
            self.well_formed(),
        ensures
            yes == (self@.has_node(path.model()) && self@.node(path.model()) !is Hash),
    {
        let node = match SparseSubtrieType::from_path(path) {
            SparseSubtrieType::Upper => self.upper_subtrie.nodes.get(path),
            SparseSubtrieType::Lower(index) => match &self.lower_subtries[index] {
                Some(subtrie) => subtrie.nodes.get(path),
                None => None,
            },
        };
        match node {
            Some(node) => !node.is_hash(),
            None => false,
        }
    }

    /// Reveals a node in the subtrie that its path belongs to.
    fn reveal_in_subtrie(&mut self, path: Nibbles, node: &TrieNode, masks: TrieMasks) -> (result:
        SparseTrieResult<()>)
        requires
            old(self).well_formed(),
            node.model().well_formed(),
        ensures
            final(self).well_formed(),
            (TrieRevealed { trie: final(self)@, result: outcome(result) }) == old(self)@.after(
                path.model(),
                old(self)@.subtrie_at(path.model()).with_revealed(
                    path.model(),
                    node.model(),
                    masks.model(),
                ),
            ),
    {
        let subtrie = self.subtrie_for_path(&path);
        let result = subtrie.reveal_node(path, node, masks);
        if result.is_ok() {
            subtrie.anchor(path);
        }
        proof {
            lemma_lower_update(
                old(self).lower_subtries@,
                lower_index_of(path.model()),
                self.subtrie_spec(path.model()),
            );
        }
        result
    }

    /// Reveals a child from its RLP node, in the subtrie that its path belongs to.
    fn reveal_child_in_subtrie(&mut self, path: Nibbles, child: &[u8]) -> (result: SparseTrieResult<
        (),
    >)
        requires
            old(self).well_formed(),
        ensures
            final(self).well_formed(),
            (TrieRevealed { trie: final(self)@, result: outcome(result) }) == old(self)@.after(
                path.model(),
                old(self)@.subtrie_at(path.model()).reveal_child(path.model(), child@),
            ),
    {
        let subtrie = self.subtrie_for_path(&path);
        let result = subtrie.reveal_node_or_hash(path, child);
        if result.is_ok() {
            subtrie.anchor(path);
        }
        proof {
            lemma_lower_update(
                old(self).lower_subtries@,
                lower_index_of(path.model()),
                self.subtrie_spec(path.model()),
            );
        }
        result
    }

    /// The subtrie that a path belongs to.
    spec fn subtrie_spec(&self, path: Seq<u8>) -> Box<SparseSubtrie> {
        if is_upper(path) {
            self.upper_subtrie
        } else {
            self.lower_subtries@[lower_index_of(path)]->0
        }
    }

    /// Reveals a node, and all children that come with it, if it has not been revealed. Otherwise
    /// nothing changes. Children are revealed first: this succeeds just if the node is revealed then.
    ///
    /// Whether this succeeds or fails, leaves stay with their values, and values with their leaves,
    /// nothing that was revealed changes, and neither do the changed keys nor what the trie has
    /// recorded. If it succeeds, the node is shown with all that came with it. If it succeeds, at the root or at a child of a node, the trie stays sound. If it
    /// succeeds, lower subtries that have nodes have one at their own path. If it succeeds where a
    /// node in normal form is blinded, the trie stays whole.
    pub fn reveal_node(
        &mut self,
        path: Nibbles,
        node: TrieNode,
        masks: TrieMasks,
    ) -> (result: SparseTrieResult<()>)
        requires
            old(self).well_formed(),
            node.model().well_formed(),
        ensures
            final(self).well_formed(),
            (TrieRevealed { trie: final(self)@, result: outcome(result) }) == old(
                self,
            )@.with_revealed(path.model(), node.model(), masks.model()),
            old(self)@.homed() ==> keeps(old(self)@, final(self)@, false),
            old(self)@.sound() && result is Ok && (path.model().len() == 0 || old(
                self,
            )@.parented(path.model())) ==> final(self)@.sound(),
            old(self)@.has_roots() && result is Ok ==> final(self)@.has_roots(),
            result is Ok == final(self)@.is_revealed(path.model()),
            result is Ok && !old(self)@.is_revealed(path.model()) ==> shown(
                old(self)@.shot(),
                final(self)@.shot(),
                path.model(),
                node.model(),
                masks.model(),
                true,
            ),
            old(self)@.whole() && result is Ok && old(self)@.takes_node(path.model(), node.model())
                ==> final(self)@.whole() && final(self)@.root_ready(),
    {
        let ghost p = path.model();
        know_path(&path);
        proof {
            lemma_placed(*self);
            if self@.homed() {
                lemma_trie_reveal(self@, p, node.model(), masks.model());
            }
            if self@.has_roots() && self@.with_revealed(p, node.model(), masks.model()).result is Ok {
                lemma_reveal_roots(self@, p, node.model(), masks.model());
            }
            if self@.whole() && self@.takes_node(p, node.model()) && self@.with_revealed(
                p,
                node.model(),
                masks.model(),
            ).result is Ok {
                law_reveal_keeps_normal_form(self@, p, node.model(), masks.model());
            }
            if self@.with_revealed(p, node.model(), masks.model()).result is Ok {
                lemma_then_revealed(self@, p, node.model(), masks.model());
                if !self@.is_revealed(p) {
                    lemma_trie_shown(self@, p, node.model(), masks.model());
                }
            } else {
                lemma_not_revealed(self@, p, node.model(), masks.model());
            }
        }
        if self.is_revealed(&path) {
            return Ok(());
        }
        if SparseSubtrieType::path_len_is_upper(path.len()) {
            // The upper subtrie leaves out the children that belong to lower subtries.
            match self.reveal_lower_children(path, &node) {
                Ok(()) => {},
                Err(error) => {
                    return Err(error);
                },
            }
        }
        self.reveal_in_subtrie(path, &node, masks)
    }

    /// Reveals what belongs to lower subtries of the children of a node in the upper one.
    fn reveal_lower_children(&mut self, path: Nibbles, node: &TrieNode) -> (result: SparseTrieResult<
        (),
    >)
        requires
            old(self).well_formed(),
            node.model().well_formed(),
            is_upper(path.model()),
        ensures
            final(self).well_formed(),
            (TrieRevealed { trie: final(self)@, result: outcome(result) }) == old(
                self,
            )@.with_children(old(self)@.lower_kids(path.model(), node.model())),
            final(self)@.upper == old(self)@.upper,
        decreases child_bound(node.model()), 2int, 0int,
    {
        let ghost p = path.model();
        know_path(&path);
        proof {
            lemma_kids_low(self@, p, node.model());
            lemma_all_lower(self@, p, self@.lower_kids(p, node.model()));
        }
        match node {
            TrieNode::Branch(branch) => {
                let ghost stack = model_seq(branch.stack@);
                let ghost mask = branch.state_mask.model();
                let ghost nibbles = child_nibbles(mask);
                let ghost revealed = old(self)@.with_children(
                    old(self)@.lower_kids(p, node.model()),
                );
                let count = branch.state_mask.count_bits() as usize;
                let mut stack_ptr: usize = branch.stack.len() - count;
                let mut idx: u8 = 0;
                while idx < 16
                    invariant
                        idx <= 16,
                        p == path.model(),
                        is_upper(p),
                        stack == model_seq(branch.stack@),
                        mask == branch.state_mask.model(),
                        nibbles == child_nibbles(mask),
                        *node == TrieNode::Branch(*branch),
                        nibbles.len() <= stack.len(),
                        stack_ptr == stack.len() - nibbles.len() + nibbles_below(
                            mask,
                            idx as int,
                        ).len(),
                        self.well_formed(),
                        self@.upper == old(self)@.upper,
                        revealed.trie.upper == old(self)@.upper,
                        revealed == old(self)@.with_children(
                            old(self)@.lower_kids(p, node.model()),
                        ),
                        revealed == self@.with_children(
                            old(self)@.lower_of_kids(
                                p,
                                stack,
                                nibbles,
                                nibbles_below(mask, idx as int).len() as int,
                            ),
                        ),
                    decreases 16 - idx,
                {
                    let ghost from = nibbles_below(mask, idx as int).len() as int;
                    proof {
                        lemma_nibbles_prefix(mask, idx + 1, 16);
                    }
                    if branch.state_mask.is_bit_set(idx) {
                        proof {
                            let more = nibbles_below(mask, idx + 1);
                            assert(more == nibbles_below(mask, idx as int).push(idx));
                            assert(nibbles.take(more.len() as int)[from] == idx);
                            assert(nibbles[from] == idx);
                            assert(stack_ptr < branch.stack.len());
                            lemma_widest(stack, stack_ptr as int);
                        }
                        let mut child_path = path;
                        child_path.push_unchecked(idx);
                        let child = branch.stack[stack_ptr].as_slice();
                        proof {
                            let kid = child_path.model();
                            lemma_upper_of_child(old(self)@, self@, kid, child@);
                            lemma_children_joined(
                                self@,
                                self@.lower_of_child(kid, child@),
                                old(self)@.lower_of_kids(p, stack, nibbles, from + 1),
                            );
                        }
                        match self.reveal_lower_child(child_path, child) {
                            Ok(()) => {},
                            Err(error) => {
                                return Err(error);
                            },
                        }
                        stack_ptr += 1;
                    }
                    idx += 1;
                }
                Ok(())
            },
            TrieNode::Extension(ext) => {
                know_path(&ext.key);
                if ext.key.is_empty() || path.len() + ext.key.len() > MAX_PATH_LEN {
                    return Ok(());
                }
                let mut child_path = path;
                child_path.extend(&ext.key);
                self.reveal_lower_child(child_path, ext.child.as_slice())
            },
            TrieNode::EmptyRoot | TrieNode::Leaf(_) => Ok(()),
        }
    }

    /// Reveals what belongs to lower subtries of a child and of those below it.
    fn reveal_lower_child(&mut self, path: Nibbles, child: &[u8]) -> (result: SparseTrieResult<()>)
        requires
            old(self).well_formed(),
        ensures
            final(self).well_formed(),
            (TrieRevealed { trie: final(self)@, result: outcome(result) }) == old(
                self,
            )@.with_children(old(self)@.lower_of_child(path.model(), child@)),
            final(self)@.upper == old(self)@.upper,
        decreases child@.len(), 3int, 0int,
    {
        if !SparseSubtrieType::path_len_is_upper(path.len()) {
            proof {
                let kid = LowerChild { path: path.model(), rlp: child@ };
                let next = self@.with_child(kid);
                assert(seq![kid].skip(1) =~= Seq::<LowerChild>::empty());
                assert(next.trie.with_children(Seq::empty()) == next.trie.ok());
                assert(self@.with_children(seq![kid]) == next);
            }
            return self.reveal_child_in_subtrie(path, child);
        }
        if child.len() == 33 || self.is_revealed(&path) {
            return Ok(());
        }
        match decode_node(child) {
            Ok(node) => {
                proof {
                    lemma_child_bound(node.model(), child@.len());
                }
                self.reveal_lower_children(path, &node)
            },
            // Revealing the child itself fails.
            Err(_) => Ok(()),
        }
    }

    /// Creates a trie from its root node. If that is in normal form, the trie is whole, and its root
    /// hash can be computed.
    pub fn from_root(
        root_node: TrieNode,
        masks: TrieMasks,
        retain_updates: bool,
    ) -> (result: SparseTrieResult<Self>)
        requires
            root_node.model().well_formed(),
        ensures
            ({
                let revealed = TrieModel::empty().with_updates(retain_updates).with_revealed(
                    Seq::empty(),
                    root_node.model(),
                    masks.model(),
                );
                match result {
                    Ok(trie) => {
                        &&& trie.well_formed()
                        &&& revealed == trie@.ok()
                        &&& trie@.sound()
                        &&& root_node.model() is EmptyRoot || in_form(root_node.model())
                            ==> trie@.whole() && trie@.root_ready()
                    },
                    Err(error) => revealed.result == Err::<(), ErrorModel>(error.model()),
                }
            }),
    {
        let mut trie = Self::default().with_updates(retain_updates);
        let ghost root = root_node.model();
        match trie.reveal_node(Nibbles::new(), root_node, masks) {
            Ok(()) => {
                proof {
                    if root is EmptyRoot || in_form(root) {
                        law_from_root_whole(root, masks.model(), retain_updates);
                    }
                }
                Ok(trie)
            },
            Err(error) => Err(error),
        }
    }

    /// Configures the trie to record updates of branches, or not to. What was recorded is dropped.
    pub fn with_updates(self, retain_updates: bool) -> (trie: Self)
        requires
            self.well_formed(),
        ensures
            trie.well_formed(),
            trie@ == self@.with_updates(retain_updates),
            self@.sound() ==> trie@.sound(),
            self@.whole() ==> trie@.whole(),
    {
        proof {
            lemma_updates_alike(self@, retain_updates);
            if self@.sound() {
                lemma_alike_sound(self@, self@.with_updates(retain_updates));
            }
            if self@.whole() {
                lemma_alike_whole(self@, self@.with_updates(retain_updates));
            }
        }
        let ParallelSparseTrie { upper_subtrie, lower_subtries, prefix_set, .. } = self;
        let ghost given = lower_subtries@;
        let mut rest = lower_subtries;
        let mut lower_subtries: Vec<Option<Box<SparseSubtrie>>> = Vec::new();
        let mut i: usize = 0;
        while i < rest.len()
            invariant
                i <= rest@.len(),
                rest@.len() == given.len(),
                given.len() == NUM_LOWER_SUBTRIES,
                lower_subtries@.len() == i,
                forall|j: int| i <= j < given.len() ==> rest@[j] == given[j],
                forall|j: int|
                    0 <= j < NUM_LOWER_SUBTRIES ==> lower_well_formed(j, #[trigger] given[j]),
                forall|j: int|
                    0 <= j < i ==> lower_well_formed(j, #[trigger] lower_subtries@[j]),
                forall|j: int|
                    0 <= j < i ==> (match #[trigger] lower_subtries@[j] {
                        Some(s) => given[j] is Some && s@ == given[j]->0@.with_updates(
                            retain_updates,
                        ),
                        None => given[j] is None,
                    }),
            decreases rest@.len() - i,
        {
            let subtrie = rest[i].take();
            let ghost before = subtrie;
            assert(before == given[i as int]);
            let configured = match subtrie {
                Some(s) => Some(Box::new((*s).with_updates(retain_updates))),
                None => None,
            };
            lower_subtries.push(configured);
            i += 1;
        }
        let trie = ParallelSparseTrie {
            upper_subtrie: Box::new((*upper_subtrie).with_updates(retain_updates)),
            lower_subtries,
            prefix_set,
            updates: if retain_updates {
                Some(SparseTrieUpdates::default())
            } else {
                None
            },
        };
        assert(trie@.lower =~= self@.with_updates(retain_updates).lower);
        trie
    }
}

/// What was recorded, if anything.
pub open spec fn recorded_or_none(updates: Option<UpdatesModel>) -> UpdatesModel {
    match updates {
        Some(recorded) => recorded,
        None => UpdatesModel::none(),
    }
}

impl TrieModel {
    /// What the trie, its upper subtrie and its first `count` lower subtries have recorded.
    pub open spec fn recorded(self, count: int) -> UpdatesModel
        decreases count,
    {
        if count <= 0 {
            recorded_or_none(self.updates).followed_by(recorded_or_none(self.upper.updates))
        } else {
            let before = self.recorded(count - 1);
            match self.lower[count - 1] {
                Some(subtrie) => before.followed_by(recorded_or_none(subtrie.updates)),
                None => before,
            }
        }
    }
}

impl ParallelSparseTrie {
    /// Returns the updates recorded so far, by the trie itself and by all its subtries, and no others.
    /// Those that recorded go on with a new set of updates.
    pub fn take_updates(&mut self) -> (updates: SparseTrieUpdates)
        requires
            old(self).well_formed(),
        ensures
            final(self).well_formed(),
            final(self)@ == old(self)@.updates_taken(),
            updates@ == old(self)@.recorded(NUM_LOWER_SUBTRIES as int),
            forall|p: Seq<u8>| #[trigger] gathered(old(self)@, updates@, p),
            old(self)@.sound() ==> final(self)@.sound(),
            old(self)@.whole() ==> final(self)@.whole(),
    {
        proof {
            lemma_taken_alike(self@);
            if self@.sound() {
                lemma_alike_sound(self@, self@.updates_taken());
            }
            if self@.whole() {
                lemma_alike_whole(self@, self@.updates_taken());
            }
        }
        let mut updates = match self.updates.take() {
            Some(updates) => {
                self.updates = Some(SparseTrieUpdates::default());
                updates
            },
            None => SparseTrieUpdates::default(),
        };
        updates.extend(self.upper_subtrie.take_updates());
        let mut i: usize = 0;
        while i < self.lower_subtries.len()
            invariant
                i <= NUM_LOWER_SUBTRIES,
                old(self).well_formed(),
                self.well_formed(),
                updates_of(self.updates) == old(self)@.updates_taken().updates,
                self.prefix_set == old(self).prefix_set,
                self.upper_subtrie@ == old(self).upper_subtrie@.updates_taken(),
                updates@ == old(self)@.recorded(i as int),
                forall|j: int|
                    i <= j < NUM_LOWER_SUBTRIES ==> self.lower_subtries@[j] == old(
                        self,
                    ).lower_subtries@[j],
                forall|j: int|
                    0 <= j < i ==> (match #[trigger] self.lower_subtries@[j] {
                        Some(s) => old(self).lower_subtries@[j] is Some && s@ == old(
                            self,
                        ).lower_subtries@[j]->0@.updates_taken(),
                        None => old(self).lower_subtries@[j] is None,
                    }),
            decreases NUM_LOWER_SUBTRIES - i,
        {
            match self.lower_subtries[i].take() {
                Some(subtrie) => {
                    let mut subtrie = subtrie;
                    updates.extend(subtrie.take_updates());
                    self.lower_subtries[i] = Some(subtrie);
                },
                None => {},
            }
            i += 1;
        }
        assert(self@.lower =~= old(self)@.updates_taken().lower);
        proof {
            assert forall|p: Seq<u8>| #[trigger] gathered(old(self)@, updates@, p) by {
                law_taken_updates(old(self)@, p);
            }
        }
        updates
    }
}

/// Replacing a lower subtrie replaces its model.
proof fn lemma_lower_update(
    lower: Seq<Option<Box<SparseSubtrie>>>,
    index: int,
    subtrie: Box<SparseSubtrie>,
)
    ensures
        0 <= index < lower.len() ==> lower_models(lower.update(index, Some(subtrie)))
            == lower_models(lower).update(index, Some(subtrie@)),
{
    if 0 <= index < lower.len() {
        assert(lower_models(lower.update(index, Some(subtrie))) =~= lower_models(lower).update(
            index,
            Some(subtrie@),
        ));
    }
}

/// The path of a lower subtrie belongs to it, and no hashing is under way in it.
pub open spec fn lower_well_formed(index: int, subtrie: Option<Box<SparseSubtrie>>) -> bool {
    subtrie matches Some(s) ==> s.idle() && lower_path(index).is_prefix_of(s.path.model())
}

/// The path of a subtrie that a path belongs to belongs to it too, and no hashing is under way in
/// it.
pub open spec fn subtrie_well_formed(path: Seq<u8>, subtrie: SparseSubtrie) -> bool {
    &&& subtrie.idle()
    &&& if is_upper(path) {
        subtrie.path.model() == Seq::<u8>::empty()
    } else {
        lower_path(lower_index_of(path)).is_prefix_of(subtrie.path.model())
    }
}

}
