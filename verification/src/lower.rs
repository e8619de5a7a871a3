//! Revealing children that belong to lower subtries.

use crate::hash_run::lemma_nibbles_below;
use crate::hashing::kid_paths;
use crate::model::{child_nibbles, MasksModel, NodeModel, TrieNodeModel};
use crate::order::{lemma_prefix_pointwise, lemma_prefix_transitive};
use crate::outside::{decoded_node, MAX_PATH_LEN};
use crate::path::{is_path, is_upper};
use crate::revealed::lemma_kid_path;
use crate::revealing::{
    child_bound, lemma_child_below, lemma_child_bound, lemma_child_off, lemma_kids_grow,
    lemma_revealed_node, lemma_widest, same_elsewhere, same_level, widest,
};
use crate::soundness::{hangs, is_kid, lemma_hangs_grown, lemma_kids_keep};
use crate::subtrie::SubtrieModel;
use crate::trie::{TrieModel, TrieRevealed};
use vstd::prelude::*;

verus! {

/// A child that belongs to a lower subtrie, and its RLP node.
#[verifier::ext_equal]
pub struct LowerChild {
    pub path: Seq<u8>,
    pub rlp: Seq<u8>,
}

/// Whether the key of an extension is made of nibbles.
pub open spec fn key_ok(node: TrieNodeModel) -> bool {
    node matches TrieNodeModel::Extension { key, .. } ==> forall|i: int|
        0 <= i < key.len() ==> (#[trigger] key[i]) < 16
}

impl TrieModel {
    /// There is a node at a path, and it is not blinded.
    pub open spec fn is_revealed(self, path: Seq<u8>) -> bool {
        self.has_node(path) && self.node(path) !is Hash
    }

    /// What belongs to lower subtries of the children of a node in the upper one: its own children,
    /// and those of short children that it holds and that have not been revealed.
    pub open spec fn lower_kids(self, path: Seq<u8>, node: TrieNodeModel) -> Seq<LowerChild>
        decreases child_bound(node), 2int, 0int,
    {
        match node {
            TrieNodeModel::Branch { stack, mask } => self.lower_of_kids(
                path,
                stack,
                child_nibbles(mask),
                0,
            ),
            TrieNodeModel::Extension { key, child } => {
                if key.len() == 0 || path.len() + key.len() > MAX_PATH_LEN || !key_ok(node) {
                    Seq::empty()
                } else {
                    self.lower_of_child(path + key, child)
                }
            },
            _ => Seq::empty(),
        }
    }

    /// What belongs to lower subtries of the children of a branch, from number `from` on.
    pub open spec fn lower_of_kids(
        self,
        path: Seq<u8>,
        stack: Seq<Seq<u8>>,
        nibbles: Seq<u8>,
        from: int,
    ) -> Seq<LowerChild>
        decreases widest(stack), 1int, nibbles.len() - from,
    {
        let place = stack.len() - nibbles.len() + from;
        if from >= nibbles.len() || !(0 <= place < stack.len()) {
            Seq::empty()
        } else {
            proof {
                lemma_widest(stack, place);
            }
            self.lower_of_child(path.push(nibbles[from]), stack[place]) + self.lower_of_kids(
                path,
                stack,
                nibbles,
                from + 1,
            )
        }
    }

    /// What belongs to lower subtries of a child and of those below it.
    pub open spec fn lower_of_child(self, path: Seq<u8>, child: Seq<u8>) -> Seq<LowerChild>
        decreases child.len(), 3int, 0int,
    {
        if !is_upper(path) {
            seq![LowerChild { path, rlp: child }]
        } else if child.len() == 33 || self.is_revealed(path) {
            Seq::empty()
        } else {
            match decoded_node(child) {
                Ok(node) => if node.children_below(child.len()) {
                    proof {
                        lemma_child_bound(node, child.len());
                    }
                    self.lower_kids(path, node)
                } else {
                    Seq::empty()
                },
                Err(_) => Seq::empty(),
            }
        }
    }

    /// Reveals a child in the subtrie that its path belongs to.
    pub open spec fn with_child(self, kid: LowerChild) -> TrieRevealed {
        self.after(kid.path, self.subtrie_at(kid.path).reveal_child(kid.path, kid.rlp))
    }

    /// Reveals children in the subtries that their paths belong to, up to the first that fails.
    pub open spec fn with_children(self, kids: Seq<LowerChild>) -> TrieRevealed
        decreases kids.len(),
    {
        if kids.len() == 0 {
            self.ok()
        } else {
            let next = self.with_child(kids[0]);
            if next.result is Err {
                next
            } else {
                next.trie.with_children(kids.skip(1))
            }
        }
    }
}

// Where the children are.

/// Whether a child belongs to a lower subtrie, below a path.
pub open spec fn low_below(path: Seq<u8>, kid: LowerChild) -> bool {
    &&& !is_upper(kid.path)
    &&& is_path(kid.path)
    &&& path.is_prefix_of(kid.path)
}

/// Whether all children belong to lower subtries, below a path.
pub open spec fn all_low(path: Seq<u8>, kids: Seq<LowerChild>) -> bool {
    forall|i: int| 0 <= i < kids.len() ==> low_below(path, #[trigger] kids[i])
}

/// What is below a path is below a shorter one.
proof fn lemma_low_shorter(path: Seq<u8>, kid: Seq<u8>, kids: Seq<LowerChild>)
    requires
        all_low(kid, kids),
        path.is_prefix_of(kid),
    ensures
        all_low(path, kids),
{
    assert forall|i: int| 0 <= i < kids.len() implies low_below(path, #[trigger] kids[i]) by {
        lemma_prefix_transitive(path, kid, kids[i].path);
    }
}

/// All children that belong to lower subtries are below the node.
pub proof fn lemma_kids_low(t: TrieModel, path: Seq<u8>, node: TrieNodeModel)
    requires
        is_path(path),
        is_upper(path),
    ensures
        all_low(path, t.lower_kids(path, node)),
    decreases child_bound(node), 2int, 0int,
{
    match node {
        TrieNodeModel::Branch { stack, mask } => {
            lemma_nibbles_below(mask, 16);
            lemma_of_kids_low(t, path, stack, child_nibbles(mask), 0);
        },
        TrieNodeModel::Extension { key, child } => {
            if key.len() > 0 && path.len() + key.len() <= MAX_PATH_LEN && key_ok(node) {
                let kid = path + key;
                lemma_kid_path(path, key);
                lemma_prefix_pointwise(path, kid);
                lemma_of_child_low(t, kid, child);
                lemma_low_shorter(path, kid, t.lower_of_child(kid, child));
            }
        },
        _ => {},
    }
}

/// All that belongs to lower subtries of the children of a branch is below the branch.
pub proof fn lemma_of_kids_low(
    t: TrieModel,
    path: Seq<u8>,
    stack: Seq<Seq<u8>>,
    nibbles: Seq<u8>,
    from: int,
)
    requires
        is_path(path),
        is_upper(path),
        0 <= from,
        forall|i: int| 0 <= i < nibbles.len() ==> (#[trigger] nibbles[i]) < 16,
    ensures
        all_low(path, t.lower_of_kids(path, stack, nibbles, from)),
    decreases widest(stack), 1int, nibbles.len() - from,
{
    let place = stack.len() - nibbles.len() + from;
    if !(from >= nibbles.len() || !(0 <= place < stack.len())) {
        let kid = path.push(nibbles[from]);
        lemma_widest(stack, place);
        lemma_prefix_pointwise(path, kid);
        assert(is_path(kid));
        lemma_of_child_low(t, kid, stack[place]);
        lemma_low_shorter(path, kid, t.lower_of_child(kid, stack[place]));
        lemma_of_kids_low(t, path, stack, nibbles, from + 1);
    }
}

/// All that belongs to lower subtries of a child is below the child.
pub proof fn lemma_of_child_low(t: TrieModel, path: Seq<u8>, child: Seq<u8>)
    requires
        is_path(path),
    ensures
        all_low(path, t.lower_of_child(path, child)),
    decreases child.len(), 3int, 0int,
{
    lemma_prefix_pointwise(path, path);
    if is_upper(path) && child.len() != 33 && !t.is_revealed(path) {
        match decoded_node(child) {
            Ok(node) => {
                if node.children_below(child.len()) {
                    lemma_child_bound(node, child.len());
                    lemma_kids_low(t, path, node);
                }
            },
            Err(_) => {},
        }
    }
}

// The children depend on nothing but what has been revealed.

/// Whether the same has been revealed of the upper subtries of two tries at a path and below.
pub open spec fn same_revealed(a: TrieModel, b: TrieModel, path: Seq<u8>) -> bool {
    forall|q: Seq<u8>|
        path.is_prefix_of(q) && is_upper(q) ==> #[trigger] a.is_revealed(q) == b.is_revealed(q)
}

/// What has been revealed below a path is the same below a longer one.
proof fn lemma_same_revealed_deeper(a: TrieModel, b: TrieModel, path: Seq<u8>, kid: Seq<u8>)
    requires
        same_revealed(a, b, path),
        path.is_prefix_of(kid),
    ensures
        same_revealed(a, b, kid),
{
    assert forall|q: Seq<u8>| kid.is_prefix_of(q) && is_upper(q) implies #[trigger] a.is_revealed(q)
        == b.is_revealed(q) by {
        lemma_prefix_transitive(path, kid, q);
    }
}

/// Where the same has been revealed, the children that belong to lower subtries are the same.
pub proof fn lemma_same_kids(a: TrieModel, b: TrieModel, path: Seq<u8>, node: TrieNodeModel)
    requires
        same_revealed(a, b, path),
    ensures
        a.lower_kids(path, node) == b.lower_kids(path, node),
    decreases child_bound(node), 2int, 0int,
{
    match node {
        TrieNodeModel::Branch { stack, mask } => {
            lemma_same_of_kids(a, b, path, stack, child_nibbles(mask), 0);
        },
        TrieNodeModel::Extension { key, child } => {
            lemma_prefix_pointwise(path, path + key);
            lemma_same_revealed_deeper(a, b, path, path + key);
            lemma_same_of_child(a, b, path + key, child);
        },
        _ => {},
    }
}

/// Where the same has been revealed, the children of a branch that belong to lower subtries are the
/// same.
pub proof fn lemma_same_of_kids(
    a: TrieModel,
    b: TrieModel,
    path: Seq<u8>,
    stack: Seq<Seq<u8>>,
    nibbles: Seq<u8>,
    from: int,
)
    requires
        same_revealed(a, b, path),
    ensures
        a.lower_of_kids(path, stack, nibbles, from) == b.lower_of_kids(path, stack, nibbles, from),
    decreases widest(stack), 1int, nibbles.len() - from,
{
    let place = stack.len() - nibbles.len() + from;
    if !(from >= nibbles.len() || !(0 <= place < stack.len())) {
        let kid = path.push(nibbles[from]);
        lemma_widest(stack, place);
        lemma_prefix_pointwise(path, kid);
        lemma_same_revealed_deeper(a, b, path, kid);
        lemma_same_of_child(a, b, kid, stack[place]);
        lemma_same_of_kids(a, b, path, stack, nibbles, from + 1);
    }
}

/// Where the same has been revealed, what belongs to lower subtries of a child is the same.
pub proof fn lemma_same_of_child(a: TrieModel, b: TrieModel, path: Seq<u8>, child: Seq<u8>)
    requires
        same_revealed(a, b, path),
    ensures
        a.lower_of_child(path, child) == b.lower_of_child(path, child),
    decreases child.len(), 3int, 0int,
{
    lemma_prefix_pointwise(path, path);
    if is_upper(path) {
        assert(a.is_revealed(path) == b.is_revealed(path));
    }
    if is_upper(path) && child.len() != 33 && !a.is_revealed(path) {
        match decoded_node(child) {
            Ok(node) => {
                if node.children_below(child.len()) {
                    lemma_child_bound(node, child.len());
                    lemma_same_kids(a, b, path, node);
                }
            },
            Err(_) => {},
        }
    }
}

/// The upper subtrie alone decides what of a child belongs to lower subtries.
pub proof fn lemma_upper_of_child(a: TrieModel, b: TrieModel, path: Seq<u8>, child: Seq<u8>)
    requires
        a.upper == b.upper,
    ensures
        a.lower_of_child(path, child) == b.lower_of_child(path, child),
{
    assert(same_revealed(a, b, path));
    lemma_same_of_child(a, b, path, child);
}

// The children are apart.

/// Whether no child is at or below another one.
pub open spec fn apart(kids: Seq<LowerChild>) -> bool {
    forall|i: int, j: int|
        0 <= i < kids.len() && 0 <= j < kids.len() && i != j ==> !(
        #[trigger] kids[i]).path.is_prefix_of((#[trigger] kids[j]).path)
}

/// Children below different paths are apart.
proof fn lemma_apart_joined(
    a: Seq<LowerChild>,
    b: Seq<LowerChild>,
    path: Seq<u8>,
    n: u8,
)
    requires
        apart(a),
        apart(b),
        all_low(path.push(n), a),
        forall|i: int|
            0 <= i < b.len() ==> path.len() < (#[trigger] b[i]).path.len() && b[i].path[path.len() as int]
                != n,
    ensures
        apart(a + b),
{
    let kids = a + b;
    let kid = path.push(n);
    assert forall|i: int, j: int|
        0 <= i < kids.len() && 0 <= j < kids.len() && i != j implies !(
    #[trigger] kids[i]).path.is_prefix_of((#[trigger] kids[j]).path) by {
        lemma_prefix_pointwise(kids[i].path, kids[j].path);
        if i < a.len() {
            assert(low_below(kid, a[i]));
            lemma_prefix_pointwise(kid, a[i].path);
            assert(kid[path.len() as int] == n);
        }
        if j < a.len() {
            assert(low_below(kid, a[j]));
            lemma_prefix_pointwise(kid, a[j].path);
            assert(kid[path.len() as int] == n);
        }
        if i >= a.len() {
            assert(kids[i] == b[i - a.len()]);
        }
        if j >= a.len() {
            assert(kids[j] == b[j - a.len()]);
        }
    }
}

/// The children of a node that belong to lower subtries are apart.
pub proof fn lemma_kids_apart(t: TrieModel, path: Seq<u8>, node: TrieNodeModel)
    requires
        is_path(path),
        is_upper(path),
    ensures
        apart(t.lower_kids(path, node)),
    decreases child_bound(node), 2int, 0int,
{
    match node {
        TrieNodeModel::Branch { stack, mask } => {
            lemma_nibbles_below(mask, 16);
            lemma_of_kids_apart(t, path, stack, child_nibbles(mask), 0);
        },
        TrieNodeModel::Extension { key, child } => {
            if key.len() > 0 && path.len() + key.len() <= MAX_PATH_LEN && key_ok(node) {
                lemma_kid_path(path, key);
                lemma_of_child_apart(t, path + key, child);
            }
        },
        _ => {},
    }
}

/// The children of a branch that belong to lower subtries are apart.
proof fn lemma_of_kids_apart(
    t: TrieModel,
    path: Seq<u8>,
    stack: Seq<Seq<u8>>,
    nibbles: Seq<u8>,
    from: int,
)
    requires
        is_path(path),
        is_upper(path),
        0 <= from,
        forall|i: int| 0 <= i < nibbles.len() ==> (#[trigger] nibbles[i]) < 16,
        forall|i: int, j: int| 0 <= i < j < nibbles.len() ==> nibbles[i] < nibbles[j],
    ensures
        ({
            let kids = t.lower_of_kids(path, stack, nibbles, from);
            &&& apart(kids)
            &&& forall|i: int|
                0 <= i < kids.len() ==> path.len() < (#[trigger] kids[i]).path.len() && (from
                    < nibbles.len() ==> kids[i].path[path.len() as int] >= nibbles[from])
        }),
    decreases widest(stack), 1int, nibbles.len() - from,
{
    let place = stack.len() - nibbles.len() + from;
    if !(from >= nibbles.len() || !(0 <= place < stack.len())) {
        let kid = path.push(nibbles[from]);
        let first = t.lower_of_child(kid, stack[place]);
        let rest = t.lower_of_kids(path, stack, nibbles, from + 1);
        lemma_widest(stack, place);
        assert(is_path(kid));
        lemma_of_child_low(t, kid, stack[place]);
        lemma_of_child_apart(t, kid, stack[place]);
        lemma_of_kids_apart(t, path, stack, nibbles, from + 1);
        assert forall|i: int| 0 <= i < rest.len() implies path.len() < (#[trigger] rest[i]).path.len()
            && rest[i].path[path.len() as int] > nibbles[from] by {
            if from + 1 >= nibbles.len() {
                assert(rest.len() == 0);
            }
        }
        lemma_apart_joined(first, rest, path, nibbles[from]);
        let kids = first + rest;
        assert forall|i: int| 0 <= i < kids.len() implies path.len() < (#[trigger] kids[i]).path.len()
            && kids[i].path[path.len() as int] >= nibbles[from] by {
            if i < first.len() {
                assert(low_below(kid, first[i]));
                lemma_prefix_pointwise(kid, first[i].path);
                assert(kid[path.len() as int] == nibbles[from]);
            } else {
                assert(kids[i] == rest[i - first.len()]);
            }
        }
    }
}

/// What belongs to lower subtries of a child is apart.
proof fn lemma_of_child_apart(t: TrieModel, path: Seq<u8>, child: Seq<u8>)
    requires
        is_path(path),
    ensures
        apart(t.lower_of_child(path, child)),
    decreases child.len(), 3int, 0int,
{
    if is_upper(path) && child.len() != 33 && !t.is_revealed(path) {
        match decoded_node(child) {
            Ok(node) => {
                if node.children_below(child.len()) {
                    lemma_child_bound(node, child.len());
                    lemma_kids_apart(t, path, node);
                }
            },
            Err(_) => {},
        }
    }
}

// What the children hang from.

/// Whether the same has been revealed of a subtrie and of the upper one of a trie, at a path and below.
pub open spec fn shown_in(t: TrieModel, s: SubtrieModel, path: Seq<u8>) -> bool {
    forall|q: Seq<u8>|
        path.is_prefix_of(q) && is_upper(q) ==> #[trigger] t.is_revealed(q) == (s.nodes.contains_key(q)
            && s.nodes[q] !is Hash)
}

/// What has been revealed below a path is the same below a longer one.
pub proof fn lemma_shown_deeper(t: TrieModel, s: SubtrieModel, path: Seq<u8>, kid: Seq<u8>)
    requires
        shown_in(t, s, path),
        path.is_prefix_of(kid),
    ensures
        shown_in(t, s, kid),
{
    assert forall|q: Seq<u8>| kid.is_prefix_of(q) && is_upper(q) implies #[trigger] t.is_revealed(q)
        == (s.nodes.contains_key(q) && s.nodes[q] !is Hash) by {
        lemma_prefix_transitive(path, kid, q);
    }
}

/// What was revealed at one child of a branch makes no difference at another one.
pub proof fn lemma_shown_off(
    t: TrieModel,
    s: SubtrieModel,
    after: SubtrieModel,
    path: Seq<u8>,
    n: u8,
    m: u8,
)
    requires
        shown_in(t, s, path.push(m)),
        same_elsewhere(s, after, path.push(n)),
        n != m,
    ensures
        shown_in(t, after, path.push(m)),
{
    let kid = path.push(n);
    let other = path.push(m);
    assert forall|q: Seq<u8>| other.is_prefix_of(q) && is_upper(q) implies #[trigger] t.is_revealed(q)
        == (after.nodes.contains_key(q) && after.nodes[q] !is Hash) by {
        lemma_prefix_pointwise(other, q);
        lemma_prefix_pointwise(kid, q);
        assert(other[path.len() as int] == q[path.len() as int]);
        assert(kid[path.len() as int] == n);
        assert(s.nodes.contains_key(q) == after.nodes.contains_key(q));
    }
}

/// Whether all children hang below nodes.
pub open spec fn all_hang(nodes: Map<Seq<u8>, NodeModel>, kids: Seq<LowerChild>) -> bool {
    forall|i: int| 0 <= i < kids.len() ==> hangs(nodes, (#[trigger] kids[i]).path)
}

/// What hangs below nodes that are not revealed, still does after one was.
proof fn lemma_hang_put(
    s: SubtrieModel,
    path: Seq<u8>,
    node: NodeModel,
    q: Seq<u8>,
)
    requires
        s.nodes.contains_key(path) ==> s.nodes[path] is Hash,
        hangs(s.nodes, q),
    ensures
        hangs(s.put(path, node).nodes, q),
{
    let p = choose|p: Seq<u8>| #[trigger]
        s.nodes.contains_key(p) && p.len() < q.len() && kid_paths(p, s.nodes[p]).contains(q);
    assert(p != path);
    assert(s.put(path, node).nodes.contains_key(p));
}

/// Once a node was revealed in the upper subtrie, its children in lower subtries hang from it, or from
/// short nodes that it holds.
pub proof fn lemma_lower_hang(
    t: TrieModel,
    s: SubtrieModel,
    path: Seq<u8>,
    node: TrieNodeModel,
    masks: MasksModel,
)
    requires
        is_path(path),
        is_upper(path),
        s.with_revealed(path, node, masks).result is Ok,
        s.nodes.contains_key(path) ==> s.nodes[path] is Hash,
        shown_in(t, s, path),
    ensures
        all_hang(s.with_revealed(path, node, masks).subtrie.nodes, t.lower_kids(path, node)),
    decreases child_bound(node), 2int, 0int,
{
    let after = s.with_revealed(path, node, masks).subtrie;
    let kids = t.lower_kids(path, node);
    lemma_revealed_node(s, path, node, masks);
    match node {
        TrieNodeModel::Branch { stack, mask } => {
            let nibbles = child_nibbles(mask);
            let held = s.reveal_kids(path, stack, nibbles, 0).subtrie;
            lemma_nibbles_below(mask, 16);
            lemma_kids_keep(s, path, stack, nibbles, 0, path);
            assert forall|j: int| 0 <= j < nibbles.len() implies shown_in(
                t,
                s,
                #[trigger] path.push(nibbles[j]),
            ) by {
                lemma_prefix_pointwise(path, path.push(nibbles[j]));
                assert(shown_in(t, s, path));
                lemma_shown_deeper(t, s, path, path.push(nibbles[j]));
            }
            lemma_of_kids_hang(t, s, path, stack, nibbles, 0);
            assert forall|i: int| 0 <= i < kids.len() implies hangs(
                after.nodes,
                (#[trigger] kids[i]).path,
            ) by {
                let q = kids[i].path;
                if is_kid(path, nibbles, q) {
                    let j = choose|j: int|
                        0 <= j < nibbles.len() && q == path.push(#[trigger] nibbles[j]);
                    assert(kid_paths(path, after.nodes[path])[j] == q);
                    assert(after.nodes.contains_key(path));
                } else {
                    assert(kids[i] == t.lower_of_kids(path, stack, nibbles, 0)[i]);
                    assert(hangs(held.nodes, q));
                    lemma_hang_put(held, path, after.nodes[path], q);
                }
            }
        },
        TrieNodeModel::Extension { key, child } => {
            if key.len() > 0 && key_ok(node) {
                let kid = path + key;
                lemma_kid_path(path, key);
                lemma_prefix_pointwise(path, kid);
                if is_upper(kid) {
                    let held = s.reveal_child(kid, child).subtrie;
                    assert(shown_in(t, s, path));
                    lemma_shown_deeper(t, s, path, kid);
                    lemma_of_child_hang(t, s, kid, child);
                    lemma_child_off(s, path, key, child);
                    assert forall|i: int| 0 <= i < kids.len() implies hangs(
                        after.nodes,
                        (#[trigger] kids[i]).path,
                    ) by {
                        lemma_hang_put(held, path, after.nodes[path], kids[i].path);
                    }
                } else {
                    assert(after.nodes.contains_key(path));
                    assert(kid_paths(path, after.nodes[path])[0] == kid);
                    assert(hangs(after.nodes, kid));
                }
            }
        },
        _ => {},
    }
}

/// Once the children of a branch were revealed, what belongs to lower subtries hangs from them, or is
/// a child of the branch.
proof fn lemma_of_kids_hang(
    t: TrieModel,
    s: SubtrieModel,
    path: Seq<u8>,
    stack: Seq<Seq<u8>>,
    nibbles: Seq<u8>,
    from: int,
)
    requires
        is_path(path),
        is_upper(path),
        0 <= from,
        s.reveal_kids(path, stack, nibbles, from).result is Ok,
        forall|i: int| 0 <= i < nibbles.len() ==> (#[trigger] nibbles[i]) < 16,
        forall|i: int, j: int| 0 <= i < j < nibbles.len() ==> nibbles[i] < nibbles[j],
        forall|j: int|
            from <= j < nibbles.len() ==> shown_in(t, s, #[trigger] path.push(nibbles[j])),
    ensures
        ({
            let kids = t.lower_of_kids(path, stack, nibbles, from);
            let after = s.reveal_kids(path, stack, nibbles, from).subtrie;
            forall|i: int|
                0 <= i < kids.len() ==> is_kid(path, nibbles, (#[trigger] kids[i]).path) || hangs(
                    after.nodes,
                    kids[i].path,
                )
        }),
    decreases widest(stack), 1int, nibbles.len() - from,
{
    let place = stack.len() - nibbles.len() + from;
    if !(from >= nibbles.len() || !(0 <= place < stack.len())) {
        let kid = path.push(nibbles[from]);
        let first = t.lower_of_child(kid, stack[place]);
        let rest = t.lower_of_kids(path, stack, nibbles, from + 1);
        let kids = t.lower_of_kids(path, stack, nibbles, from);
        let after = s.reveal_kids(path, stack, nibbles, from).subtrie;
        lemma_widest(stack, place);
        assert(is_path(kid));
        assert(shown_in(t, s, kid));
        let next = if same_level(path, kid) {
            lemma_of_child_hang(t, s, kid, stack[place]);
            lemma_child_below(s, kid, stack[place]);
            s.reveal_child(kid, stack[place])
        } else {
            s.ok()
        };
        assert forall|j: int| from + 1 <= j < nibbles.len() implies shown_in(
            t,
            next.subtrie,
            #[trigger] path.push(nibbles[j]),
        ) by {
            assert(shown_in(t, s, path.push(nibbles[j])));
            if same_level(path, kid) {
                lemma_shown_off(t, s, next.subtrie, path, nibbles[from], nibbles[j]);
            }
        }
        lemma_of_kids_hang(t, next.subtrie, path, stack, nibbles, from + 1);
        lemma_kids_grow(next.subtrie, path, stack, nibbles, from + 1);
        assert forall|i: int| 0 <= i < kids.len() implies is_kid(
            path,
            nibbles,
            (#[trigger] kids[i]).path,
        ) || hangs(after.nodes, kids[i].path) by {
            if i < first.len() {
                assert(kids[i] == first[i]);
                if is_upper(kid) {
                    lemma_hangs_grown(next.subtrie, after, first[i].path);
                } else {
                    assert(first[i].path == path.push(nibbles[from]));
                }
            } else {
                assert(kids[i] == rest[i - first.len()]);
            }
        }
    }
}

/// Once a child was revealed in the upper subtrie, what belongs to lower subtries hangs from it, or
/// from short nodes that it holds.
proof fn lemma_of_child_hang(t: TrieModel, s: SubtrieModel, path: Seq<u8>, child: Seq<u8>)
    requires
        is_path(path),
        is_upper(path),
        s.reveal_child(path, child).result is Ok,
        shown_in(t, s, path),
    ensures
        all_hang(s.reveal_child(path, child).subtrie.nodes, t.lower_of_child(path, child)),
    decreases child.len(), 3int, 0int,
{
    lemma_prefix_pointwise(path, path);
    assert(t.is_revealed(path) == (s.nodes.contains_key(path) && s.nodes[path] !is Hash));
    if child.len() != 33 && !t.is_revealed(path) {
        match decoded_node(child) {
            Ok(node) => {
                if node.children_below(child.len()) {
                    lemma_child_bound(node, child.len());
                    lemma_lower_hang(t, s, path, node, MasksModel::none());
                }
            },
            Err(_) => {},
        }
    }
}

// Revealing one after the other.

/// Revealing some children and then others.
pub proof fn lemma_children_joined(t: TrieModel, a: Seq<LowerChild>, b: Seq<LowerChild>)
    ensures
        t.with_children(a + b) == if t.with_children(a).result is Err {
            t.with_children(a)
        } else {
            t.with_children(a).trie.with_children(b)
        },
    decreases a.len(),
{
    if a.len() == 0 {
        assert(a + b =~= b);
    } else {
        assert((a + b).skip(1) =~= a.skip(1) + b);
        assert((a + b)[0] == a[0]);
        let next = t.with_child(a[0]);
        if next.result is Ok {
            lemma_children_joined(next.trie, a.skip(1), b);
        }
    }
}

/// Revealing in lower subtries does not touch the upper one, and is not touched by it.
pub proof fn lemma_children_lower(t: TrieModel, upper: SubtrieModel, kids: Seq<LowerChild>)
    requires
        forall|i: int| 0 <= i < kids.len() ==> !is_upper((#[trigger] kids[i]).path),
    ensures
        ({
            let after = t.with_children(kids);
            &&& after.trie.upper == t.upper
            &&& after.trie.prefix == t.prefix
            &&& after.trie.updates == t.updates
            &&& (TrieModel { upper, ..t }).with_children(kids) == (TrieRevealed {
                trie: TrieModel { upper, ..after.trie },
                result: after.result,
            })
        }),
    decreases kids.len(),
{
    if kids.len() > 0 {
        let next = t.with_child(kids[0]);
        let other = (TrieModel { upper, ..t }).with_child(kids[0]);
        assert(!is_upper(kids[0].path));
        assert(other.trie =~= TrieModel { upper, ..next.trie });
        assert(other.result == next.result);
        if next.result is Ok {
            assert forall|i: int| 0 <= i < kids.skip(1).len() implies !is_upper(
                (#[trigger] kids.skip(1)[i]).path,
            ) by {
                assert(kids.skip(1)[i] == kids[i + 1]);
            }
            lemma_children_lower(next.trie, upper, kids.skip(1));
            assert(t.with_children(kids) == next.trie.with_children(kids.skip(1)));
            assert((TrieModel { upper, ..t }).with_children(kids) == other.trie.with_children(
                kids.skip(1),
            ));
        } else {
            assert((TrieModel { upper, ..t }).with_children(kids) == other);
        }
    }
}

/// Revealing children in lower subtries does not touch the upper one.
pub proof fn lemma_all_lower(t: TrieModel, path: Seq<u8>, kids: Seq<LowerChild>)
    requires
        all_low(path, kids),
    ensures
        t.with_children(kids).trie.upper == t.upper,
        t.with_children(kids).trie.prefix == t.prefix,
        t.with_children(kids).trie.updates == t.updates,
{
    assert forall|i: int| 0 <= i < kids.len() implies !is_upper((#[trigger] kids[i]).path) by {
        assert(low_below(path, kids[i]));
    }
    lemma_children_lower(t, t.upper, kids);
}

/// Revealing a node in the upper subtrie, if it succeeds, gives the same whether the children in lower
/// subtries are revealed before or after.
pub proof fn lemma_children_after(
    t: TrieModel,
    path: Seq<u8>,
    node: TrieNodeModel,
    masks: MasksModel,
)
    requires
        is_path(path),
        is_upper(path),
        !t.is_revealed(path),
    ensures
        ({
            let own = t.after(path, t.upper.with_revealed(path, node, masks));
            let after = t.with_revealed(path, node, masks);
            let kids = t.lower_kids(path, node);
            &&& after.result is Ok == (own.result is Ok && own.trie.with_children(kids).result is Ok)
            &&& after.result is Ok ==> after.trie == own.trie.with_children(kids).trie
            &&& after.result is Err ==> after.trie == t.with_children(kids).trie || (t.with_children(
                kids,
            ).result is Ok && after.trie == t.with_children(kids).trie.after(
                path,
                t.upper.with_revealed(path, node, masks),
            ).trie)
            &&& t.with_children(kids).trie.upper == t.upper
        }),
{
    let kids = t.lower_kids(path, node);
    let s = t.upper.with_revealed(path, node, masks);
    let own = t.after(path, s);
    lemma_kids_low(t, path, node);
    assert forall|i: int| 0 <= i < kids.len() implies !is_upper((#[trigger] kids[i]).path) by {
        assert(low_below(path, kids[i]));
    }
    lemma_children_lower(t, own.trie.upper, kids);
    assert(own.trie == TrieModel { upper: own.trie.upper, ..t });
}

}
