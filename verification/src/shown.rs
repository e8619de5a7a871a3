//! What a trie shows of a node that was revealed: the node, and all that came with it.

use crate::hash_run::lemma_nibbles_below;
use crate::laws_of_revealing::{lemma_some_nibble, shown_node};
use crate::lookup::same_value;
use crate::lower::{
    all_low, apart, key_ok, lemma_all_lower, lemma_kids_apart, lemma_kids_low, low_below,
    LowerChild,
};
use crate::model::{child_nibbles, MasksModel, NodeModel, TrieNodeModel};
use crate::order::{lemma_prefix_pointwise, lemma_prefix_transitive};
use crate::outside::{decoded_node, MAX_PATH_LEN};
use crate::path::{is_path, is_upper, lower_index_of, NUM_LOWER_SUBTRIES};
use crate::revealed::{lemma_step_only, only_below};
use crate::revealing::{
    child_bound, lemma_child_below, lemma_child_bound, lemma_child_grows, lemma_revealed_node,
    lemma_widest, same_level, widest,
};
use crate::soundness::lemma_child_there;
use crate::subtrie::SubtrieModel;
use crate::trie::TrieModel;
use vstd::prelude::*;

verus! {

/// Nodes, and the values that leaves have: by the path of the node, and the full path.
pub struct Shot {
    pub nodes: Map<Seq<u8>, NodeModel>,
    pub value: spec_fn(Seq<u8>, Seq<u8>) -> Option<Seq<u8>>,
}

impl SubtrieModel {
    /// The nodes and values of the subtrie.
    pub open spec fn shot(self) -> Shot {
        Shot {
            nodes: self.nodes,
            value: |p: Seq<u8>, full: Seq<u8>|
                if self.src.values.contains_key(full) {
                    Some(self.src.values[full])
                } else {
                    None
                },
        }
    }
}

impl TrieModel {
    /// The nodes and values of the trie.
    pub open spec fn shot(self) -> Shot {
        Shot {
            nodes: self.all_nodes(),
            value: |p: Seq<u8>, full: Seq<u8>| self.value_at(p, full),
        }
    }
}

/// Whether the node at a path has been revealed.
pub open spec fn open_in(a: Shot, path: Seq<u8>) -> bool {
    a.nodes.contains_key(path) && !(a.nodes[path] is Hash)
}

/// The hash of the blinded node at a path, if there is one.
pub open spec fn blinded_in(a: Shot, path: Seq<u8>) -> Option<Seq<u8>> {
    if a.nodes.contains_key(path) && a.nodes[path] is Hash {
        Some(a.nodes[path]->Hash_0)
    } else {
        None
    }
}

/// Whether `r` shows a node that was revealed at a path where `a` had none, or a blinded one: the node
/// itself, with the hash of the blinded one, the value of a leaf, and the children of an extension or a
/// branch. Without `across`, only children of the same level count.
pub open spec fn shown(
    a: Shot,
    r: Shot,
    path: Seq<u8>,
    node: TrieNodeModel,
    masks: MasksModel,
    across: bool,
) -> bool
    decreases child_bound(node), 2int, 0int,
{
    &&& r.nodes.contains_key(path)
    &&& r.nodes[path] == shown_node(node, blinded_in(a, path), masks)
    &&& match node {
        TrieNodeModel::Leaf { key, value } => (r.value)(path, path + key) == Some(value),
        TrieNodeModel::Extension { key, child } => {
            &&& path.len() + key.len() <= MAX_PATH_LEN
            &&& key.len() > 0 && key_ok(node) && (across || same_level(path, path + key))
                ==> child_shown(a, r, path + key, child, across)
        },
        TrieNodeModel::Branch { stack, mask } => kids_shown(
            a,
            r,
            path,
            stack,
            child_nibbles(mask),
            0,
            across,
        ),
        TrieNodeModel::EmptyRoot => true,
    }
}

/// Whether `r` shows the children of a branch from number `from` on. The last RLP nodes of the branch
/// belong to its nibbles, in ascending order.
pub open spec fn kids_shown(
    a: Shot,
    r: Shot,
    path: Seq<u8>,
    stack: Seq<Seq<u8>>,
    nibbles: Seq<u8>,
    from: int,
    across: bool,
) -> bool
    decreases widest(stack), 1int, nibbles.len() - from,
{
    let place = stack.len() - nibbles.len() + from;
    if from >= nibbles.len() || !(0 <= place < stack.len()) {
        true
    } else {
        let kid = path.push(nibbles[from]);
        proof {
            lemma_widest(stack, place);
        }
        &&& across || same_level(path, kid) ==> child_shown(a, r, kid, stack[place], across)
        &&& kids_shown(a, r, path, stack, nibbles, from + 1, across)
    }
}

/// Whether `r` shows a child from its RLP node. One that had been revealed is as it was. One of 33 bytes is
/// blinded, with the hash in it, and was so if it was there. Another one is the node that it is the RLP of.
pub open spec fn child_shown(
    a: Shot,
    r: Shot,
    path: Seq<u8>,
    child: Seq<u8>,
    across: bool,
) -> bool
    decreases child.len(), 3int, 0int,
{
    if open_in(a, path) {
        r.nodes.contains_key(path) && r.nodes[path] == a.nodes[path]
    } else if child.len() == 33 {
        &&& a.nodes.contains_key(path) ==> a.nodes[path] == NodeModel::Hash(child.skip(1))
        &&& r.nodes.contains_key(path)
        &&& r.nodes[path] == NodeModel::Hash(child.skip(1))
    } else {
        match decoded_node(child) {
            Ok(node) => node.children_below(child.len()) && {
                proof {
                    lemma_child_bound(node, child.len());
                }
                shown(a, r, path, node, MasksModel::none(), across)
            },
            Err(_) => false,
        }
    }
}

// It depends on nothing but what is below.

/// Whether there are the same nodes below a path.
pub open spec fn same_nodes_below(a: Shot, b: Shot, path: Seq<u8>) -> bool {
    forall|z: Seq<u8>|
        path.is_prefix_of(z) ==> #[trigger] a.nodes.contains_key(z) == b.nodes.contains_key(z) && (
        a.nodes.contains_key(z) ==> a.nodes[z] == b.nodes[z])
}

/// Whether there are the same values below a path.
pub open spec fn same_values_below(a: Shot, b: Shot, path: Seq<u8>) -> bool {
    forall|z: Seq<u8>, full: Seq<u8>|
        path.is_prefix_of(z) && path.is_prefix_of(full) && a.nodes.contains_key(z)
            ==> #[trigger] (a.value)(z, full) == (b.value)(z, full)
}

/// What is the same below a path is the same below a longer one.
proof fn lemma_same_deeper(a: Shot, b: Shot, path: Seq<u8>, kid: Seq<u8>)
    requires
        path.is_prefix_of(kid),
    ensures
        same_nodes_below(a, b, path) ==> same_nodes_below(a, b, kid),
        same_values_below(a, b, path) ==> same_values_below(a, b, kid),
{
    assert forall|z: Seq<u8>| kid.is_prefix_of(z) implies path.is_prefix_of(z) by {
        lemma_prefix_transitive(path, kid, z);
    }
}

/// Whether all children of a branch from some number on have the same below them.
spec fn same_kids(
    a: Shot,
    b: Shot,
    r: Shot,
    q: Shot,
    path: Seq<u8>,
    nibbles: Seq<u8>,
    from: int,
) -> bool {
    forall|i: int|
        from <= i < nibbles.len() ==> {
            let kid = path.push(#[trigger] nibbles[i]);
            &&& same_nodes_below(a, b, kid)
            &&& same_nodes_below(r, q, kid)
            &&& same_values_below(r, q, kid)
        }
}

/// Showing a node depends on nothing but what is below it. Below a path of a lower subtrie all is of the
/// same level.
proof fn lemma_shown_same(
    a: Shot,
    b: Shot,
    r: Shot,
    q: Shot,
    path: Seq<u8>,
    node: TrieNodeModel,
    masks: MasksModel,
    across: bool,
    wide: bool,
)
    requires
        shown(a, r, path, node, masks, across),
        same_nodes_below(a, b, path),
        same_nodes_below(r, q, path),
        same_values_below(r, q, path),
        wide ==> across || !is_upper(path),
    ensures
        shown(b, q, path, node, masks, wide),
    decreases child_bound(node), 2int, 0int,
{
    lemma_prefix_pointwise(path, path);
    assert(a.nodes.contains_key(path) == b.nodes.contains_key(path));
    assert(r.nodes.contains_key(path) == q.nodes.contains_key(path));
    match node {
        TrieNodeModel::Leaf { key, value } => {
            lemma_prefix_pointwise(path, path + key);
            assert((r.value)(path, path + key) == (q.value)(path, path + key));
        },
        TrieNodeModel::Extension { key, child } => {
            let kid = path + key;
            lemma_prefix_pointwise(path, kid);
            lemma_same_deeper(a, b, path, kid);
            lemma_same_deeper(r, q, path, kid);
            if key.len() > 0 && key_ok(node) && (wide || same_level(path, kid)) {
                lemma_child_shown_same(a, b, r, q, kid, child, across, wide);
            }
        },
        TrieNodeModel::Branch { stack, mask } => {
            let nibbles = child_nibbles(mask);
            assert(same_kids(a, b, r, q, path, nibbles, 0)) by {
                assert forall|i: int| 0 <= i < nibbles.len() implies {
                    let kid = path.push(#[trigger] nibbles[i]);
                    &&& same_nodes_below(a, b, kid)
                    &&& same_nodes_below(r, q, kid)
                    &&& same_values_below(r, q, kid)
                } by {
                    let kid = path.push(nibbles[i]);
                    lemma_prefix_pointwise(path, kid);
                    lemma_same_deeper(a, b, path, kid);
                    lemma_same_deeper(r, q, path, kid);
                }
            }
            lemma_kids_shown_same(a, b, r, q, path, stack, nibbles, 0, across, wide);
        },
        TrieNodeModel::EmptyRoot => {},
    }
}

/// Showing children depends on nothing but what is below them.
proof fn lemma_kids_shown_same(
    a: Shot,
    b: Shot,
    r: Shot,
    q: Shot,
    path: Seq<u8>,
    stack: Seq<Seq<u8>>,
    nibbles: Seq<u8>,
    from: int,
    across: bool,
    wide: bool,
)
    requires
        kids_shown(a, r, path, stack, nibbles, from, across),
        same_kids(a, b, r, q, path, nibbles, from),
        wide ==> across || !is_upper(path),
        from >= 0,
    ensures
        kids_shown(b, q, path, stack, nibbles, from, wide),
    decreases widest(stack), 1int, nibbles.len() - from,
{
    let place = stack.len() - nibbles.len() + from;
    if !(from >= nibbles.len() || !(0 <= place < stack.len())) {
        let kid = path.push(nibbles[from]);
        lemma_widest(stack, place);
        if wide || same_level(path, kid) {
            lemma_child_shown_same(a, b, r, q, kid, stack[place], across, wide);
        }
        lemma_kids_shown_same(a, b, r, q, path, stack, nibbles, from + 1, across, wide);
    }
}

/// Showing a child depends on nothing but what is below it.
proof fn lemma_child_shown_same(
    a: Shot,
    b: Shot,
    r: Shot,
    q: Shot,
    path: Seq<u8>,
    child: Seq<u8>,
    across: bool,
    wide: bool,
)
    requires
        child_shown(a, r, path, child, across),
        same_nodes_below(a, b, path),
        same_nodes_below(r, q, path),
        same_values_below(r, q, path),
        wide ==> across || !is_upper(path),
    ensures
        child_shown(b, q, path, child, wide),
    decreases child.len(), 3int, 0int,
{
    lemma_prefix_pointwise(path, path);
    assert(a.nodes.contains_key(path) == b.nodes.contains_key(path));
    assert(r.nodes.contains_key(path) == q.nodes.contains_key(path));
    if !open_in(a, path) && child.len() != 33 {
        let node = decoded_node(child)->Ok_0;
        lemma_child_bound(node, child.len());
        lemma_shown_same(a, b, r, q, path, node, MasksModel::none(), across, wide);
    }
}

// In a subtrie.

/// What changes below one child leaves what is below another one.
pub proof fn lemma_other_kid(s: SubtrieModel, path: Seq<u8>, n: u8, m: u8, child: Seq<u8>)
    requires
        n != m,
    ensures
        ({
            let r = s.reveal_child(path.push(n), child).subtrie;
            &&& same_nodes_below(s.shot(), r.shot(), path.push(m))
            &&& same_values_below(s.shot(), r.shot(), path.push(m))
        }),
{
    let kid = path.push(n);
    let r = s.reveal_child(kid, child).subtrie;
    lemma_child_below(s, kid, child);
    assert forall|z: Seq<u8>| path.push(m).is_prefix_of(z) implies !kid.is_prefix_of(z) by {
        lemma_prefix_pointwise(path.push(m), z);
        lemma_prefix_pointwise(kid, z);
        assert(path.push(m)[path.len() as int] == m);
        assert(kid[path.len() as int] == n);
    }
    assert forall|z: Seq<u8>, full: Seq<u8>|
        path.push(m).is_prefix_of(z) && path.push(m).is_prefix_of(full) && s.shot().nodes.contains_key(
            z,
        ) implies #[trigger] (s.shot().value)(z, full) == (r.shot().value)(z, full) by {
        assert(s.src.values.contains_key(full) == r.src.values.contains_key(full));
    }
    assert forall|z: Seq<u8>| path.push(m).is_prefix_of(z) implies #[trigger] s.shot().nodes.contains_key(
        z,
    ) == r.shot().nodes.contains_key(z) && (s.shot().nodes.contains_key(z) ==> s.shot().nodes[z]
        == r.shot().nodes[z]) by {
        assert(s.nodes.contains_key(z) == r.nodes.contains_key(z));
    }
}

/// Revealing the children of a branch from some number on leaves what is below others.
proof fn lemma_other_kids(
    s: SubtrieModel,
    path: Seq<u8>,
    stack: Seq<Seq<u8>>,
    nibbles: Seq<u8>,
    from: int,
    m: u8,
)
    requires
        forall|i: int| from <= i < nibbles.len() ==> #[trigger] nibbles[i] != m,
    ensures
        ({
            let r = s.reveal_kids(path, stack, nibbles, from).subtrie;
            &&& same_nodes_below(s.shot(), r.shot(), path.push(m))
            &&& same_values_below(s.shot(), r.shot(), path.push(m))
        }),
    decreases nibbles.len() - from,
{
    let place = stack.len() - nibbles.len() + from;
    if !(from >= nibbles.len() || !(0 <= place < stack.len())) {
        let kid = path.push(nibbles[from]);
        let next = if same_level(path, kid) {
            lemma_other_kid(s, path, nibbles[from], m, stack[place]);
            s.reveal_child(kid, stack[place])
        } else {
            s.ok()
        };
        if next.result is Ok {
            let r = next.subtrie.reveal_kids(path, stack, nibbles, from + 1).subtrie;
            lemma_other_kids(next.subtrie, path, stack, nibbles, from + 1, m);
            lemma_same_twice(s.shot(), next.subtrie.shot(), r.shot(), path.push(m));
        }
    }
}

/// What is the same twice over is the same.
proof fn lemma_same_twice(a: Shot, b: Shot, c: Shot, path: Seq<u8>)
    requires
        same_nodes_below(a, b, path),
        same_nodes_below(b, c, path),
        same_values_below(a, b, path),
        same_values_below(b, c, path),
    ensures
        same_nodes_below(a, c, path),
        same_values_below(a, c, path),
{
    assert forall|z: Seq<u8>| path.is_prefix_of(z) implies #[trigger] a.nodes.contains_key(z)
        == c.nodes.contains_key(z) && (a.nodes.contains_key(z) ==> a.nodes[z] == c.nodes[z]) by {
        assert(a.nodes.contains_key(z) == b.nodes.contains_key(z));
        assert(b.nodes.contains_key(z) == c.nodes.contains_key(z));
    }
    assert forall|z: Seq<u8>, full: Seq<u8>|
        path.is_prefix_of(z) && path.is_prefix_of(full) && a.nodes.contains_key(z)
            implies #[trigger] (a.value)(z, full) == (c.value)(z, full) by {
        assert(a.nodes.contains_key(z) == b.nodes.contains_key(z));
        assert((a.value)(z, full) == (b.value)(z, full));
        assert((b.value)(z, full) == (c.value)(z, full));
    }
}

/// A node at a path leaves what is below a longer one.
proof fn lemma_put_off(s: SubtrieModel, path: Seq<u8>, node: NodeModel, masks: MasksModel, kid: Seq<u8>)
    requires
        path.len() < kid.len(),
    ensures
        same_nodes_below(s.shot(), s.put(path, node).put_masks(path, masks).shot(), kid),
        same_values_below(s.shot(), s.put(path, node).put_masks(path, masks).shot(), kid),
{
    let r = s.put(path, node).put_masks(path, masks);
    assert(r.src.values == s.src.values);
    assert forall|z: Seq<u8>| kid.is_prefix_of(z) implies z != path by {
        lemma_prefix_pointwise(kid, z);
    }
    assert forall|z: Seq<u8>| kid.is_prefix_of(z) implies #[trigger] s.shot().nodes.contains_key(z)
        == r.shot().nodes.contains_key(z) && (s.shot().nodes.contains_key(z) ==> s.shot().nodes[z]
        == r.shot().nodes[z]) by {}
}

/// A node that was revealed in a subtrie is shown there.
pub proof fn lemma_reveal_shown(s: SubtrieModel, path: Seq<u8>, node: TrieNodeModel, masks: MasksModel)
    requires
        !open_in(s.shot(), path),
        s.with_revealed(path, node, masks).result is Ok,
    ensures
        shown(s.shot(), s.with_revealed(path, node, masks).subtrie.shot(), path, node, masks, false),
    decreases child_bound(node), 2int, 0int,
{
    let r = s.with_revealed(path, node, masks).subtrie;
    lemma_revealed_node(s, path, node, masks);
    lemma_some_nibble(masks);
    match node {
        TrieNodeModel::Branch { stack, mask } => {
            let nibbles = child_nibbles(mask);
            let kids = s.reveal_kids(path, stack, nibbles, 0);
            let new = shown_node(node, blinded_in(s.shot(), path), masks);
            lemma_nibbles_below(mask, 16);
            lemma_reveal_kids_shown(s, path, stack, nibbles, 0);
            assert(r == kids.subtrie.put(path, new).put_masks(path, masks));
            assert(same_kids(s.shot(), s.shot(), kids.subtrie.shot(), r.shot(), path, nibbles, 0)) by {
                assert forall|i: int| 0 <= i < nibbles.len() implies {
                    let kid = path.push(#[trigger] nibbles[i]);
                    &&& same_nodes_below(s.shot(), s.shot(), kid)
                    &&& same_nodes_below(kids.subtrie.shot(), r.shot(), kid)
                    &&& same_values_below(kids.subtrie.shot(), r.shot(), kid)
                } by {
                    lemma_put_off(kids.subtrie, path, new, masks, path.push(nibbles[i]));
                }
            }
            lemma_kids_shown_same(
                s.shot(),
                s.shot(),
                kids.subtrie.shot(),
                r.shot(),
                path,
                stack,
                nibbles,
                0,
                false,
                false,
            );
        },
        TrieNodeModel::Extension { key, child } => {
            let kid = path + key;
            if key.len() > 0 && same_level(path, kid) {
                let below = s.reveal_child(kid, child);
                let new = shown_node(node, blinded_in(s.shot(), path), masks);
                lemma_reveal_child_shown(s, kid, child);
                assert(r == below.subtrie.put(path, new).put_masks(path, masks));
                lemma_put_off(below.subtrie, path, new, masks, kid);
                assert(same_nodes_below(s.shot(), s.shot(), kid));
                lemma_child_shown_same(
                    s.shot(),
                    s.shot(),
                    below.subtrie.shot(),
                    r.shot(),
                    kid,
                    child,
                    false,
                    false,
                );
            }
        },
        _ => {},
    }
}

/// The children of a branch that were revealed in a subtrie are shown there.
proof fn lemma_reveal_kids_shown(
    s: SubtrieModel,
    path: Seq<u8>,
    stack: Seq<Seq<u8>>,
    nibbles: Seq<u8>,
    from: int,
)
    requires
        s.reveal_kids(path, stack, nibbles, from).result is Ok,
        forall|i: int, j: int|
            0 <= i < j < nibbles.len() ==> #[trigger] nibbles[i] < #[trigger] nibbles[j],
        from >= 0,
    ensures
        kids_shown(
            s.shot(),
            s.reveal_kids(path, stack, nibbles, from).subtrie.shot(),
            path,
            stack,
            nibbles,
            from,
            false,
        ),
    decreases widest(stack), 1int, nibbles.len() - from,
{
    let place = stack.len() - nibbles.len() + from;
    if !(from >= nibbles.len() || !(0 <= place < stack.len())) {
        let n = nibbles[from];
        let kid = path.push(n);
        lemma_widest(stack, place);
        let next = if same_level(path, kid) {
            s.reveal_child(kid, stack[place])
        } else {
            s.ok()
        };
        let u = next.subtrie;
        let r = u.reveal_kids(path, stack, nibbles, from + 1).subtrie;
        lemma_reveal_kids_shown(u, path, stack, nibbles, from + 1);
        assert forall|i: int| from + 1 <= i < nibbles.len() implies #[trigger] nibbles[i] != n by {
            assert(nibbles[from] < nibbles[i]);
        }
        lemma_other_kids(u, path, stack, nibbles, from + 1, n);
        if same_level(path, kid) {
            lemma_reveal_child_shown(s, kid, stack[place]);
            assert(same_nodes_below(s.shot(), s.shot(), kid));
            lemma_child_shown_same(
                s.shot(),
                s.shot(),
                u.shot(),
                r.shot(),
                kid,
                stack[place],
                false,
                false,
            );
        }
        assert(same_kids(u.shot(), s.shot(), r.shot(), r.shot(), path, nibbles, from + 1)) by {
            assert forall|i: int| from + 1 <= i < nibbles.len() implies {
                let other = path.push(#[trigger] nibbles[i]);
                &&& same_nodes_below(u.shot(), s.shot(), other)
                &&& same_nodes_below(r.shot(), r.shot(), other)
                &&& same_values_below(r.shot(), r.shot(), other)
            } by {
                let other = path.push(nibbles[i]);
                if same_level(path, kid) {
                    lemma_other_kid(s, path, n, nibbles[i], stack[place]);
                    lemma_same_back(s.shot(), u.shot(), other);
                }
            }
        }
        lemma_kids_shown_same(
            u.shot(),
            s.shot(),
            r.shot(),
            r.shot(),
            path,
            stack,
            nibbles,
            from + 1,
            false,
            false,
        );
    }
}

/// Having the same nodes goes both ways.
pub proof fn lemma_same_back(a: Shot, b: Shot, path: Seq<u8>)
    requires
        same_nodes_below(a, b, path),
    ensures
        same_nodes_below(b, a, path),
{
    assert forall|z: Seq<u8>| path.is_prefix_of(z) implies #[trigger] b.nodes.contains_key(z)
        == a.nodes.contains_key(z) && (b.nodes.contains_key(z) ==> b.nodes[z] == a.nodes[z]) by {
        assert(a.nodes.contains_key(z) == b.nodes.contains_key(z));
    }
}

/// A child that was revealed in a subtrie is shown there.
pub proof fn lemma_reveal_child_shown(s: SubtrieModel, path: Seq<u8>, child: Seq<u8>)
    requires
        s.reveal_child(path, child).result is Ok,
    ensures
        child_shown(s.shot(), s.reveal_child(path, child).subtrie.shot(), path, child, false),
    decreases child.len(), 3int, 0int,
{
    if !open_in(s.shot(), path) && child.len() != 33 {
        let node = decoded_node(child)->Ok_0;
        lemma_child_bound(node, child.len());
        lemma_reveal_shown(s, path, node, MasksModel::none());
    }
}

// In a trie.

/// Whether all children are shown.
spec fn all_shown(a: Shot, r: Shot, kids: Seq<LowerChild>) -> bool {
    forall|i: int|
        0 <= i < kids.len() ==> child_shown(a, r, (#[trigger] kids[i]).path, kids[i].rlp, true)
}

/// What a lower subtrie shows below a path, the trie shows there.
proof fn lemma_lower_shot(t: TrieModel, path: Seq<u8>)
    requires
        t.lower.len() == NUM_LOWER_SUBTRIES,
        !is_upper(path),
        is_path(path),
    ensures
        same_nodes_below(t.subtrie_at(path).shot(), t.shot(), path),
        t.lower[lower_index_of(path)] is Some ==> same_values_below(
            t.subtrie_at(path).shot(),
            t.shot(),
            path,
        ),
{
    let s = t.subtrie_at(path);
    assert(path[0] < 16 && path[1] < 16);
    assert forall|z: Seq<u8>| path.is_prefix_of(z) implies !is_upper(z) && lower_index_of(z)
        == lower_index_of(path) by {
        lemma_prefix_pointwise(path, z);
        assert(path[0] == z[0] && path[1] == z[1]);
    }
    assert forall|z: Seq<u8>| path.is_prefix_of(z) implies #[trigger] s.shot().nodes.contains_key(z)
        == t.shot().nodes.contains_key(z) && (s.shot().nodes.contains_key(z) ==> s.shot().nodes[z]
        == t.shot().nodes[z]) by {
        assert(t.has_node(z) == s.nodes.contains_key(z));
    }
}

/// A child that was revealed in its lower subtrie is shown by the trie.
proof fn lemma_with_child_shown(t: TrieModel, path: Seq<u8>, kid: LowerChild)
    requires
        t.lower.len() == NUM_LOWER_SUBTRIES,
        low_below(path, kid),
        t.with_child(kid).result is Ok,
    ensures
        child_shown(t.shot(), t.with_child(kid).trie.shot(), kid.path, kid.rlp, true),
{
    let k = kid.path;
    let s = t.subtrie_at(k);
    let r = t.with_child(kid).trie;
    let after = s.reveal_child(k, kid.rlp).subtrie;
    assert(k[0] < 16 && k[1] < 16);
    lemma_reveal_child_shown(s, k, kid.rlp);
    lemma_lower_shot(t, k);
    lemma_lower_shot(r, k);
    assert(r.subtrie_at(k).nodes == after.nodes && r.subtrie_at(k).src == after.src);
    assert(same_nodes_below(after.shot(), r.shot(), k)) by {
        assert forall|z: Seq<u8>| k.is_prefix_of(z) implies #[trigger] after.shot().nodes.contains_key(
            z,
        ) == r.shot().nodes.contains_key(z) && (after.shot().nodes.contains_key(z)
            ==> after.shot().nodes[z] == r.shot().nodes[z]) by {
            assert(r.subtrie_at(k).shot().nodes.contains_key(z) == r.shot().nodes.contains_key(z));
        }
    }
    assert(same_values_below(after.shot(), r.shot(), k)) by {
        assert forall|z: Seq<u8>, full: Seq<u8>|
            k.is_prefix_of(z) && k.is_prefix_of(full) && after.shot().nodes.contains_key(z)
                implies #[trigger] (after.shot().value)(z, full) == (r.shot().value)(z, full) by {
            assert((r.subtrie_at(k).shot().value)(z, full) == (r.shot().value)(z, full));
        }
    }
    lemma_child_shown_same(s.shot(), t.shot(), after.shot(), r.shot(), k, kid.rlp, false, true);
}

/// Whether two paths are neither below the other.
spec fn off(a: Seq<u8>, b: Seq<u8>) -> bool {
    !a.is_prefix_of(b) && !b.is_prefix_of(a)
}

/// What changes below a path leaves what is below another one.
proof fn lemma_only_off(t: TrieModel, r: TrieModel, kid: Seq<u8>, x: Seq<u8>)
    requires
        only_below(t, r, kid),
        off(kid, x),
        !is_upper(x),
        is_path(x),
        t.lower.len() == NUM_LOWER_SUBTRIES,
    ensures
        same_nodes_below(t.shot(), r.shot(), x),
        same_values_below(t.shot(), r.shot(), x),
        same_nodes_below(r.shot(), t.shot(), x),
{
    assert forall|z: Seq<u8>| x.is_prefix_of(z) implies !kid.is_prefix_of(z) by {
        lemma_prefix_pointwise(x, z);
        lemma_prefix_pointwise(kid, z);
        if kid.is_prefix_of(z) {
            lemma_prefix_pointwise(kid, x);
            lemma_prefix_pointwise(x, kid);
            if kid.len() <= x.len() {
                assert forall|i: int| 0 <= i < kid.len() implies kid[i] == x[i] by {
                    assert(kid[i] == z[i]);
                    assert(x[i] == z[i]);
                }
            } else {
                assert forall|i: int| 0 <= i < x.len() implies kid[i] == x[i] by {
                    assert(kid[i] == z[i]);
                    assert(x[i] == z[i]);
                }
            }
        }
    }
    assert forall|z: Seq<u8>| x.is_prefix_of(z) implies #[trigger] t.shot().nodes.contains_key(z)
        == r.shot().nodes.contains_key(z) && (t.shot().nodes.contains_key(z) ==> t.shot().nodes[z]
        == r.shot().nodes[z]) by {
        assert(r.has_node(z) == t.has_node(z));
    }
    assert forall|z: Seq<u8>, full: Seq<u8>|
        x.is_prefix_of(z) && x.is_prefix_of(full) && t.shot().nodes.contains_key(z)
            implies #[trigger] (t.shot().value)(z, full) == (r.shot().value)(z, full) by {
        assert(t.has_node(z));
        assert(same_value(t, r, full));
        assert(t.value_at(z, full) == r.value_at(z, full));
    }
    lemma_same_back(t.shot(), r.shot(), x);
}

/// Revealing children leaves what is below a path that they are all off.
proof fn lemma_children_off(t: TrieModel, path: Seq<u8>, kids: Seq<LowerChild>, x: Seq<u8>)
    requires
        t.lower.len() == NUM_LOWER_SUBTRIES,
        all_low(path, kids),
        !is_upper(x),
        is_path(x),
        forall|i: int| 0 <= i < kids.len() ==> off((#[trigger] kids[i]).path, x),
    ensures
        same_nodes_below(t.shot(), t.with_children(kids).trie.shot(), x),
        same_values_below(t.shot(), t.with_children(kids).trie.shot(), x),
    decreases kids.len(),
{
    if kids.len() > 0 {
        let next = t.with_child(kids[0]);
        let rest = kids.skip(1);
        lemma_one_only(t, path, kids[0]);
        lemma_only_off(t, next.trie, kids[0].path, x);
        if next.result is Ok {
            assert forall|i: int| 0 <= i < rest.len() implies low_below(path, #[trigger] rest[i])
                && off(rest[i].path, x) by {
                assert(rest[i] == kids[i + 1]);
                assert(low_below(path, kids[i + 1]));
            }
            lemma_children_off(next.trie, path, rest, x);
            lemma_same_twice(
                t.shot(),
                next.trie.shot(),
                next.trie.with_children(rest).trie.shot(),
                x,
            );
        }
    }
}

/// Revealing a child changes nothing but what lies below it.
proof fn lemma_one_only(t: TrieModel, path: Seq<u8>, kid: LowerChild)
    requires
        t.lower.len() == NUM_LOWER_SUBTRIES,
        low_below(path, kid),
    ensures
        only_below(t, t.with_child(kid).trie, kid.path),
        t.with_child(kid).trie.lower.len() == NUM_LOWER_SUBTRIES,
{
    let k = kid.path;
    let s = t.subtrie_at(k);
    assert(k[0] < 16 && k[1] < 16);
    lemma_child_grows(s, k, kid.rlp);
    lemma_child_below(s, k, kid.rlp);
    lemma_prefix_pointwise(k, k);
    lemma_step_only(t, k, k, s.reveal_child(k, kid.rlp));
}

/// Children that were revealed in lower subtries are shown by the trie.
proof fn lemma_children_shown(t: TrieModel, path: Seq<u8>, kids: Seq<LowerChild>)
    requires
        t.lower.len() == NUM_LOWER_SUBTRIES,
        all_low(path, kids),
        apart(kids),
        t.with_children(kids).result is Ok,
    ensures
        all_shown(t.shot(), t.with_children(kids).trie.shot(), kids),
    decreases kids.len(),
{
    if kids.len() > 0 {
        let kid = kids[0];
        let next = t.with_child(kid).trie;
        let rest = kids.skip(1);
        let r = next.with_children(rest).trie;
        assert(low_below(path, kid));
        lemma_one_only(t, path, kid);
        lemma_with_child_shown(t, path, kid);
        assert forall|i: int| 0 <= i < rest.len() implies low_below(path, #[trigger] rest[i]) && off(
            rest[i].path,
            kid.path,
        ) by {
            assert(rest[i] == kids[i + 1]);
            assert(low_below(path, kids[i + 1]));
            assert(!kids[0].path.is_prefix_of(kids[i + 1].path));
            assert(!kids[i + 1].path.is_prefix_of(kids[0].path));
        }
        assert(apart(rest)) by {
            assert forall|i: int, j: int|
                0 <= i < rest.len() && 0 <= j < rest.len() && i != j implies !(
            #[trigger] rest[i]).path.is_prefix_of((#[trigger] rest[j]).path) by {
                assert(rest[i] == kids[i + 1] && rest[j] == kids[j + 1]);
            }
        }
        lemma_children_shown(next, path, rest);
        lemma_children_off(next, path, rest, kid.path);
        assert(same_nodes_below(t.shot(), t.shot(), kid.path));
        lemma_child_shown_same(
            t.shot(),
            t.shot(),
            next.shot(),
            r.shot(),
            kid.path,
            kid.rlp,
            true,
            true,
        );
        assert forall|i: int| 0 <= i < kids.len() implies child_shown(
            t.shot(),
            r.shot(),
            (#[trigger] kids[i]).path,
            kids[i].rlp,
            true,
        ) by {
            if i > 0 {
                let other = rest[i - 1];
                assert(other == kids[i]);
                assert(low_below(path, other) && off(other.path, kid.path));
                lemma_only_off(t, next, kid.path, other.path);
                assert(same_nodes_below(r.shot(), r.shot(), other.path));
                assert(same_values_below(r.shot(), r.shot(), other.path));
                assert(child_shown(next.shot(), r.shot(), other.path, other.rlp, true));
                lemma_child_shown_same(
                    next.shot(),
                    t.shot(),
                    r.shot(),
                    r.shot(),
                    other.path,
                    other.rlp,
                    true,
                    true,
                );
            }
        }
    }
}

/// What the upper subtries of two tries show, and what is shown of children in lower ones, is what the
/// tries show of a node.
proof fn lemma_joined(
    t: TrieModel,
    r: TrieModel,
    path: Seq<u8>,
    node: TrieNodeModel,
    masks: MasksModel,
)
    requires
        is_upper(path),
        shown(t.upper.shot(), r.upper.shot(), path, node, masks, false),
        all_shown(t.shot(), r.shot(), t.lower_kids(path, node)),
    ensures
        shown(t.shot(), r.shot(), path, node, masks, true),
    decreases child_bound(node), 2int, 0int,
{
    assert(t.has_node(path) == t.upper.nodes.contains_key(path));
    assert(r.has_node(path) == r.upper.nodes.contains_key(path));
    match node {
        TrieNodeModel::Branch { stack, mask } => {
            lemma_kids_joined(t, r, path, stack, child_nibbles(mask), 0);
        },
        TrieNodeModel::Extension { key, child } => {
            if key.len() > 0 && key_ok(node) {
                lemma_child_joined(t, r, path, path + key, child);
            }
        },
        _ => {},
    }
}

/// The same of the children of a branch.
proof fn lemma_kids_joined(
    t: TrieModel,
    r: TrieModel,
    path: Seq<u8>,
    stack: Seq<Seq<u8>>,
    nibbles: Seq<u8>,
    from: int,
)
    requires
        is_upper(path),
        kids_shown(t.upper.shot(), r.upper.shot(), path, stack, nibbles, from, false),
        all_shown(t.shot(), r.shot(), t.lower_of_kids(path, stack, nibbles, from)),
    ensures
        kids_shown(t.shot(), r.shot(), path, stack, nibbles, from, true),
    decreases widest(stack), 1int, nibbles.len() - from,
{
    let place = stack.len() - nibbles.len() + from;
    if !(from >= nibbles.len() || !(0 <= place < stack.len())) {
        let kid = path.push(nibbles[from]);
        let all = t.lower_of_kids(path, stack, nibbles, from);
        let first = t.lower_of_child(kid, stack[place]);
        let others = t.lower_of_kids(path, stack, nibbles, from + 1);
        lemma_widest(stack, place);
        assert(all == first + others);
        assert(all_shown(t.shot(), r.shot(), first)) by {
            assert forall|i: int| 0 <= i < first.len() implies child_shown(
                t.shot(),
                r.shot(),
                (#[trigger] first[i]).path,
                first[i].rlp,
                true,
            ) by {
                assert(all[i] == first[i]);
            }
        }
        assert(all_shown(t.shot(), r.shot(), others)) by {
            assert forall|i: int| 0 <= i < others.len() implies child_shown(
                t.shot(),
                r.shot(),
                (#[trigger] others[i]).path,
                others[i].rlp,
                true,
            ) by {
                assert(all[first.len() + i] == others[i]);
            }
        }
        lemma_child_joined(t, r, path, kid, stack[place]);
        lemma_kids_joined(t, r, path, stack, nibbles, from + 1);
    }
}

/// The same of a child.
proof fn lemma_child_joined(
    t: TrieModel,
    r: TrieModel,
    path: Seq<u8>,
    kid: Seq<u8>,
    child: Seq<u8>,
)
    requires
        is_upper(path),
        same_level(path, kid) ==> child_shown(t.upper.shot(), r.upper.shot(), kid, child, false),
        all_shown(t.shot(), r.shot(), t.lower_of_child(kid, child)),
    ensures
        child_shown(t.shot(), r.shot(), kid, child, true),
    decreases child.len(), 3int, 0int,
{
    if !is_upper(kid) {
        let kids = t.lower_of_child(kid, child);
        assert(kids[0] == LowerChild { path: kid, rlp: child });
    } else {
        assert(t.has_node(kid) == t.upper.nodes.contains_key(kid));
        assert(r.has_node(kid) == r.upper.nodes.contains_key(kid));
        if !open_in(t.shot(), kid) && child.len() != 33 {
            let node = decoded_node(child)->Ok_0;
            lemma_child_bound(node, child.len());
            lemma_joined(t, r, kid, node, MasksModel::none());
        }
    }
}

/// A node that was revealed in a trie is shown there.
pub proof fn lemma_trie_shown(t: TrieModel, path: Seq<u8>, node: TrieNodeModel, masks: MasksModel)
    requires
        t.lower.len() == NUM_LOWER_SUBTRIES,
        is_path(path),
        !t.is_revealed(path),
        t.with_revealed(path, node, masks).result is Ok,
    ensures
        shown(t.shot(), t.with_revealed(path, node, masks).trie.shot(), path, node, masks, true),
{
    let r = t.with_revealed(path, node, masks).trie;
    if is_upper(path) {
        let kids = t.lower_kids(path, node);
        let b = t.with_children(kids).trie;
        lemma_kids_low(t, path, node);
        lemma_all_lower(t, path, kids);
        lemma_kids_apart(t, path, node);
        lemma_children_shown(t, path, kids);
        assert(r.lower == b.lower);
        assert(all_shown(t.shot(), r.shot(), kids)) by {
            assert forall|i: int| 0 <= i < kids.len() implies child_shown(
                t.shot(),
                r.shot(),
                (#[trigger] kids[i]).path,
                kids[i].rlp,
                true,
            ) by {
                let k = kids[i].path;
                assert(low_below(path, kids[i]));
                assert forall|z: Seq<u8>| k.is_prefix_of(z) implies !is_upper(z) by {
                    lemma_prefix_pointwise(k, z);
                }
                assert forall|z: Seq<u8>| k.is_prefix_of(z) implies #[trigger] b.shot().nodes.contains_key(
                    z,
                ) == r.shot().nodes.contains_key(z) && (b.shot().nodes.contains_key(z)
                    ==> b.shot().nodes[z] == r.shot().nodes[z]) by {
                    assert(b.has_node(z) == r.has_node(z));
                }
                assert(same_nodes_below(t.shot(), t.shot(), k));
                lemma_child_shown_same(
                    t.shot(),
                    t.shot(),
                    b.shot(),
                    r.shot(),
                    k,
                    kids[i].rlp,
                    true,
                    true,
                );
            }
        }
        assert(!open_in(t.upper.shot(), path));
        lemma_reveal_shown(t.upper, path, node, masks);
        lemma_joined(t, r, path, node, masks);
    } else {
        let s = t.subtrie_at(path);
        let after = s.with_revealed(path, node, masks).subtrie;
        assert(path[0] < 16 && path[1] < 16);
        assert(!open_in(s.shot(), path));
        lemma_reveal_shown(s, path, node, masks);
        lemma_lower_shot(t, path);
        lemma_lower_shot(r, path);
        let got = r.subtrie_at(path);
        assert(got.nodes == after.nodes && got.src == after.src);
        assert(same_nodes_below(after.shot(), r.shot(), path)) by {
            assert forall|z: Seq<u8>| path.is_prefix_of(z) implies #[trigger] after.shot().nodes.contains_key(
                z,
            ) == r.shot().nodes.contains_key(z) && (after.shot().nodes.contains_key(z)
                ==> after.shot().nodes[z] == r.shot().nodes[z]) by {
                assert(got.shot().nodes.contains_key(z) == r.shot().nodes.contains_key(z));
            }
        }
        assert(same_values_below(after.shot(), r.shot(), path)) by {
            assert forall|z: Seq<u8>, full: Seq<u8>|
                path.is_prefix_of(z) && path.is_prefix_of(full) && after.shot().nodes.contains_key(z)
                    implies #[trigger] (after.shot().value)(z, full) == (r.shot().value)(z, full) by {
                assert((got.shot().value)(z, full) == (r.shot().value)(z, full));
            }
        }
        lemma_shown_same(
            s.shot(),
            t.shot(),
            after.shot(),
            r.shot(),
            path,
            node,
            masks,
            false,
            true,
        );
    }
}

// When revealing succeeds.

/// Whether a node can be revealed at a path, in a subtrie with the given nodes: it fits, and its children of
/// the same level can be. An empty root can only be the root of the trie.
pub open spec fn acceptable(a: Shot, top: bool, path: Seq<u8>, node: TrieNodeModel) -> bool
    decreases child_bound(node), 2int, 0int,
{
    match node {
        TrieNodeModel::EmptyRoot => top && path.len() == 0,
        TrieNodeModel::Leaf { key, .. } => path.len() + key.len() <= MAX_PATH_LEN,
        TrieNodeModel::Extension { key, child } => {
            &&& path.len() + key.len() <= MAX_PATH_LEN
            &&& key.len() == 0 && child.len() != 33 ==> (decoded_node(child) matches Ok(inner)
                && inner.children_below(child.len()))
            &&& key.len() > 0 && same_level(path, path + key) ==> child_acceptable(
                a,
                top,
                path + key,
                child,
            )
        },
        TrieNodeModel::Branch { stack, mask } => {
            &&& path.len() < MAX_PATH_LEN || child_nibbles(mask).len() == 0
            &&& kids_acceptable(a, top, path, stack, child_nibbles(mask), 0)
        },
    }
}

/// Whether the children of a branch can be revealed, from number `from` on.
pub open spec fn kids_acceptable(
    a: Shot,
    top: bool,
    path: Seq<u8>,
    stack: Seq<Seq<u8>>,
    nibbles: Seq<u8>,
    from: int,
) -> bool
    decreases widest(stack), 1int, nibbles.len() - from,
{
    let place = stack.len() - nibbles.len() + from;
    if from >= nibbles.len() || !(0 <= place < stack.len()) {
        true
    } else {
        let kid = path.push(nibbles[from]);
        proof {
            lemma_widest(stack, place);
        }
        &&& same_level(path, kid) ==> child_acceptable(a, top, kid, stack[place])
        &&& kids_acceptable(a, top, path, stack, nibbles, from + 1)
    }
}

/// Whether a child can be revealed from its RLP node: one of 33 bytes, unless a blinded node with another
/// hash is there; another one, if it is the RLP of a node that can be revealed, or has been.
pub open spec fn child_acceptable(a: Shot, top: bool, path: Seq<u8>, child: Seq<u8>) -> bool
    decreases child.len(), 3int, 0int,
{
    if child.len() == 33 {
        blinded_in(a, path) matches Some(hash) ==> hash == child.skip(1)
    } else {
        match decoded_node(child) {
            Ok(node) => node.children_below(child.len()) && (open_in(a, path) || {
                proof {
                    lemma_child_bound(node, child.len());
                }
                acceptable(a, top, path, node)
            }),
            Err(_) => false,
        }
    }
}

/// Whether a node can be revealed depends on nothing but what is below it.
proof fn lemma_acceptable_same(a: Shot, b: Shot, top: bool, path: Seq<u8>, node: TrieNodeModel)
    requires
        same_nodes_below(a, b, path),
    ensures
        acceptable(a, top, path, node) == acceptable(b, top, path, node),
    decreases child_bound(node), 2int, 0int,
{
    match node {
        TrieNodeModel::Extension { key, child } => {
            lemma_prefix_pointwise(path, path + key);
            lemma_same_deeper(a, b, path, path + key);
            lemma_child_acceptable_same(a, b, top, path + key, child);
        },
        TrieNodeModel::Branch { stack, mask } => {
            let nibbles = child_nibbles(mask);
            assert forall|i: int| 0 <= i < nibbles.len() implies same_nodes_below(
                a,
                b,
                path.push(#[trigger] nibbles[i]),
            ) by {
                lemma_prefix_pointwise(path, path.push(nibbles[i]));
                lemma_same_deeper(a, b, path, path.push(nibbles[i]));
            }
            lemma_kids_acceptable_same(a, b, top, path, stack, nibbles, 0);
        },
        _ => {},
    }
}

/// Whether children can be revealed depends on nothing but what is below them.
proof fn lemma_kids_acceptable_same(
    a: Shot,
    b: Shot,
    top: bool,
    path: Seq<u8>,
    stack: Seq<Seq<u8>>,
    nibbles: Seq<u8>,
    from: int,
)
    requires
        forall|i: int|
            from <= i < nibbles.len() ==> same_nodes_below(a, b, path.push(#[trigger] nibbles[i])),
        from >= 0,
    ensures
        kids_acceptable(a, top, path, stack, nibbles, from) == kids_acceptable(
            b,
            top,
            path,
            stack,
            nibbles,
            from,
        ),
    decreases widest(stack), 1int, nibbles.len() - from,
{
    let place = stack.len() - nibbles.len() + from;
    if !(from >= nibbles.len() || !(0 <= place < stack.len())) {
        lemma_widest(stack, place);
        lemma_child_acceptable_same(a, b, top, path.push(nibbles[from]), stack[place]);
        lemma_kids_acceptable_same(a, b, top, path, stack, nibbles, from + 1);
    }
}

/// Whether a child can be revealed depends on nothing but what is below it.
pub proof fn lemma_child_acceptable_same(a: Shot, b: Shot, top: bool, path: Seq<u8>, child: Seq<u8>)
    requires
        same_nodes_below(a, b, path),
    ensures
        child_acceptable(a, top, path, child) == child_acceptable(b, top, path, child),
    decreases child.len(), 3int, 0int,
{
    lemma_prefix_pointwise(path, path);
    assert(a.nodes.contains_key(path) == b.nodes.contains_key(path));
    if child.len() != 33 {
        if let Ok(node) = decoded_node(child) {
            if node.children_below(child.len()) {
                lemma_child_bound(node, child.len());
                lemma_acceptable_same(a, b, top, path, node);
            }
        }
    }
}

/// A node that has not been revealed is revealed in a subtrie just if it can be.
pub proof fn lemma_accepted(s: SubtrieModel, path: Seq<u8>, node: TrieNodeModel, masks: MasksModel)
    requires
        !open_in(s.shot(), path),
    ensures
        s.with_revealed(path, node, masks).result is Ok == acceptable(
            s.shot(),
            s.path.len() == 0,
            path,
            node,
        ),
    decreases child_bound(node), 2int, 0int,
{
    match node {
        TrieNodeModel::Branch { stack, mask } => {
            lemma_nibbles_below(mask, 16);
            lemma_kids_accepted(s, path, stack, child_nibbles(mask), 0);
        },
        TrieNodeModel::Extension { key, child } => {
            lemma_child_accepted(s, path + key, child);
        },
        _ => {},
    }
}

/// The children of a branch are revealed just if they can be.
proof fn lemma_kids_accepted(
    s: SubtrieModel,
    path: Seq<u8>,
    stack: Seq<Seq<u8>>,
    nibbles: Seq<u8>,
    from: int,
)
    requires
        forall|i: int, j: int|
            0 <= i < j < nibbles.len() ==> #[trigger] nibbles[i] < #[trigger] nibbles[j],
        from >= 0,
    ensures
        s.reveal_kids(path, stack, nibbles, from).result is Ok == kids_acceptable(
            s.shot(),
            s.path.len() == 0,
            path,
            stack,
            nibbles,
            from,
        ),
    decreases widest(stack), 1int, nibbles.len() - from,
{
    let place = stack.len() - nibbles.len() + from;
    if !(from >= nibbles.len() || !(0 <= place < stack.len())) {
        let n = nibbles[from];
        let kid = path.push(n);
        lemma_widest(stack, place);
        let next = if same_level(path, kid) {
            lemma_child_accepted(s, kid, stack[place]);
            s.reveal_child(kid, stack[place])
        } else {
            s.ok()
        };
        if next.result is Ok {
            let u = next.subtrie;
            if same_level(path, kid) {
                lemma_child_there(s, kid, stack[place]);
            }
            assert forall|i: int| from + 1 <= i < nibbles.len() implies same_nodes_below(
                u.shot(),
                s.shot(),
                path.push(#[trigger] nibbles[i]),
            ) by {
                assert(nibbles[from] < nibbles[i]);
                if same_level(path, kid) {
                    lemma_other_kid(s, path, n, nibbles[i], stack[place]);
                    lemma_same_back(s.shot(), u.shot(), path.push(nibbles[i]));
                }
            }
            lemma_kids_accepted(u, path, stack, nibbles, from + 1);
            lemma_kids_acceptable_same(
                u.shot(),
                s.shot(),
                s.path.len() == 0,
                path,
                stack,
                nibbles,
                from + 1,
            );
        }
    }
}

/// A child is revealed just if it can be.
pub proof fn lemma_child_accepted(s: SubtrieModel, path: Seq<u8>, child: Seq<u8>)
    ensures
        s.reveal_child(path, child).result is Ok == child_acceptable(
            s.shot(),
            s.path.len() == 0,
            path,
            child,
        ),
    decreases child.len(), 3int, 0int,
{
    if child.len() != 33 {
        if let Ok(node) = decoded_node(child) {
            if node.children_below(child.len()) && !open_in(s.shot(), path) {
                lemma_child_bound(node, child.len());
                lemma_accepted(s, path, node, MasksModel::none());
            }
        }
    }
}

/// A child that is shown, at some place among those of a branch.
pub proof fn lemma_kid_shown(
    a: Shot,
    r: Shot,
    path: Seq<u8>,
    stack: Seq<Seq<u8>>,
    nibbles: Seq<u8>,
    from: int,
    across: bool,
    i: int,
)
    requires
        kids_shown(a, r, path, stack, nibbles, from, across),
        stack.len() >= nibbles.len(),
        0 <= from <= i < nibbles.len(),
        across || same_level(path, path.push(nibbles[i])),
    ensures
        child_shown(a, r, path.push(nibbles[i]), stack[stack.len() - nibbles.len() + i], across),
    decreases i - from,
{
    if from < i {
        lemma_kid_shown(a, r, path, stack, nibbles, from + 1, across, i);
    }
}

/// Children in lower subtries that are all blinded can be revealed, where nothing contradicts their hashes.
pub proof fn lemma_blinded_children(t: TrieModel, path: Seq<u8>, kids: Seq<LowerChild>)
    requires
        t.lower.len() == NUM_LOWER_SUBTRIES,
        all_low(path, kids),
        apart(kids),
        forall|i: int|
            0 <= i < kids.len() ==> (#[trigger] kids[i]).rlp.len() == 33 && (t.has_node(kids[i].path)
                && t.node(kids[i].path) is Hash ==> t.node(kids[i].path) == NodeModel::Hash(
                kids[i].rlp.skip(1),
            )),
    ensures
        t.with_children(kids).result is Ok,
    decreases kids.len(),
{
    if kids.len() > 0 {
        let kid = kids[0];
        let next = t.with_child(kid).trie;
        let rest = kids.skip(1);
        let s = t.subtrie_at(kid.path);
        assert(low_below(path, kid));
        assert(kid.path[0] < 16 && kid.path[1] < 16);
        lemma_child_accepted(s, kid.path, kid.rlp);
        lemma_one_only(t, path, kid);
        assert forall|i: int| 0 <= i < rest.len() implies low_below(path, #[trigger] rest[i])
            && rest[i].rlp.len() == 33 && (next.has_node(rest[i].path) && next.node(
            rest[i].path,
        ) is Hash ==> next.node(rest[i].path) == NodeModel::Hash(rest[i].rlp.skip(1))) by {
            assert(rest[i] == kids[i + 1]);
            assert(low_below(path, kids[i + 1]));
            assert(!kids[0].path.is_prefix_of(kids[i + 1].path));
            assert(next.has_node(rest[i].path) == t.has_node(rest[i].path));
        }
        assert(apart(rest)) by {
            assert forall|i: int, j: int|
                0 <= i < rest.len() && 0 <= j < rest.len() && i != j implies !(
            #[trigger] rest[i]).path.is_prefix_of((#[trigger] rest[j]).path) by {
                assert(rest[i] == kids[i + 1] && rest[j] == kids[j + 1]);
            }
        }
        lemma_blinded_children(next, path, rest);
    }
}

/// What belongs to lower subtries of children that are all blinded.
pub proof fn lemma_blinded_lower(
    t: TrieModel,
    path: Seq<u8>,
    stack: Seq<Seq<u8>>,
    nibbles: Seq<u8>,
    from: int,
)
    requires
        stack.len() >= nibbles.len(),
        from >= 0,
        forall|i: int| 0 <= i < stack.len() ==> (#[trigger] stack[i]).len() == 33,
        forall|i: int|
            0 <= i < nibbles.len() ==> {
                let kid = path.push(#[trigger] nibbles[i]);
                t.has_node(kid) && t.node(kid) is Hash ==> t.node(kid) == NodeModel::Hash(
                    stack[stack.len() - nibbles.len() + i].skip(1),
                )
            },
    ensures
        ({
            let kids = t.lower_of_kids(path, stack, nibbles, from);
            forall|i: int|
                0 <= i < kids.len() ==> (#[trigger] kids[i]).rlp.len() == 33 && (t.has_node(
                    kids[i].path,
                ) && t.node(kids[i].path) is Hash ==> t.node(kids[i].path) == NodeModel::Hash(
                    kids[i].rlp.skip(1),
                ))
        }),
    decreases nibbles.len() - from,
{
    let place = stack.len() - nibbles.len() + from;
    if from < nibbles.len() {
        let kid = path.push(nibbles[from]);
        let kids = t.lower_of_kids(path, stack, nibbles, from);
        let first = t.lower_of_child(kid, stack[place]);
        let others = t.lower_of_kids(path, stack, nibbles, from + 1);
        lemma_blinded_lower(t, path, stack, nibbles, from + 1);
        assert(stack[place].len() == 33);
        assert forall|i: int| 0 <= i < kids.len() implies (#[trigger] kids[i]).rlp.len() == 33 && (
        t.has_node(kids[i].path) && t.node(kids[i].path) is Hash ==> t.node(kids[i].path)
            == NodeModel::Hash(kids[i].rlp.skip(1))) by {
            if i < first.len() {
                assert(kids[i] == first[i]);
            } else {
                assert(kids[i] == others[i - first.len()]);
            }
        }
    }
}

/// Children that are all blinded can be revealed, where nothing contradicts their hashes.
pub proof fn lemma_blinded_kids(
    a: Shot,
    top: bool,
    path: Seq<u8>,
    stack: Seq<Seq<u8>>,
    nibbles: Seq<u8>,
    from: int,
)
    requires
        stack.len() >= nibbles.len(),
        from >= 0,
        forall|i: int| 0 <= i < stack.len() ==> (#[trigger] stack[i]).len() == 33,
        forall|i: int|
            0 <= i < nibbles.len() && same_level(path, path.push(nibbles[i])) ==> (blinded_in(
                a,
                path.push(#[trigger] nibbles[i]),
            ) matches Some(hash) ==> hash == stack[stack.len() - nibbles.len() + i].skip(1)),
    ensures
        kids_acceptable(a, top, path, stack, nibbles, from),
    decreases nibbles.len() - from,
{
    if from < nibbles.len() {
        let kid = path.push(nibbles[from]);
        let child = stack[stack.len() - nibbles.len() + from];
        assert(child.len() == 33);
        assert(same_level(path, kid) ==> child_acceptable(a, top, kid, child));
        lemma_blinded_kids(a, top, path, stack, nibbles, from + 1);
    }
}

}
