//! Nodes in normal form that are yet to be revealed, and that revealing them keeps the normal form.

use crate::error::ErrorModel;
use crate::hash_run::{lemma_kid_paths, lemma_nibbles_below};
use crate::hashing::kid_paths;
use crate::kept_hashes::{lemma_blind_bottom, lemma_kids_leave, lemma_prefixes_meet};
use crate::lower::{
    all_low, apart, lemma_all_lower, lemma_children_after, lemma_kids_apart, lemma_kids_low,
    lemma_shown_deeper, lemma_shown_off, low_below, shown_in, LowerChild,
};
use crate::model::{child_nibbles, MasksModel, NodeModel, TrieNodeModel};
use crate::order::{lemma_prefix_pointwise, lemma_prefix_transitive};
use crate::outside::{decoded_node, MAX_PATH_LEN};
use crate::path::{is_path, is_upper, lower_index_of, NUM_LOWER_SUBTRIES};
use crate::provider::RevealedModel;
use crate::revealed::{
    lemma_kid_path, lemma_reveal_only, lemma_step_only, lemma_then_revealed, only_below,
};
use crate::revealing::{
    child_bound, lemma_child_below, lemma_child_bound, lemma_child_grows, lemma_revealed_node,
    lemma_widest, same_elsewhere, same_level, widest,
};
use crate::root::lemma_owns_below;
use crate::subtrie::SubtrieModel;
use crate::trie::TrieModel;
use vstd::prelude::*;

verus! {

/// Whether a key is made of nibbles.
pub open spec fn nibbled(key: Seq<u8>) -> bool {
    forall|i: int| 0 <= i < key.len() ==> (#[trigger] key[i]) < 16
}

/// Whether a node is in normal form, with all children that it holds: it is not the empty root; a
/// branch has at least two children; an extension has a key, and leads to a branch or to a blinded
/// node.
pub open spec fn in_form(node: TrieNodeModel) -> bool
    decreases child_bound(node), 0int,
{
    match node {
        TrieNodeModel::EmptyRoot => false,
        TrieNodeModel::Leaf { key, .. } => nibbled(key),
        TrieNodeModel::Extension { key, child } => {
            &&& key.len() > 0
            &&& nibbled(key)
            &&& child_in_form(child)
            &&& child.len() != 33 ==> (decoded_node(child) matches Ok(below) && below is Branch)
        },
        TrieNodeModel::Branch { stack, mask } => {
            &&& 2 <= child_nibbles(mask).len() <= stack.len()
            &&& forall|n: u8| #[trigger] mask.contains(n) ==> n < 16
            &&& forall|i: int|
                0 <= i < stack.len() ==> (#[trigger] stack[i]).len() < widest(stack)
                    && child_in_form(stack[i])
        },
    }
}

/// Whether the RLP node of a child is a hash, or that of a node in normal form.
pub open spec fn child_in_form(child: Seq<u8>) -> bool
    decreases child.len(), 1int,
{
    if child.len() == 33 {
        true
    } else {
        match decoded_node(child) {
            Ok(node) => if node.children_below(child.len()) {
                proof {
                    lemma_child_bound(node, child.len());
                }
                in_form(node)
            } else {
                false
            },
            Err(_) => false,
        }
    }
}

impl TrieModel {
    /// Whether a node in normal form may take the place of a blinded one: where an extension leads
    /// there, it must be a branch.
    pub open spec fn takes_node(self, path: Seq<u8>, node: TrieNodeModel) -> bool {
        &&& self.has_node(path)
        &&& self.node(path) is Hash
        &&& in_form(node)
        &&& forall|p: Seq<u8>| #[trigger]
            self.has_node(p) && (self.node(p) matches NodeModel::Extension { key, .. } && p + key
                == path) ==> node is Branch
    }
}

/// Whether what a provider answers, if it can be read, is in normal form.
pub open spec fn reply_in_form(reply: Result<Option<RevealedModel>, ErrorModel>) -> bool {
    reply matches Ok(Some(revealed)) ==> (decoded_node(revealed.node) matches Ok(node) ==> in_form(
        node,
    ))
}

// In a subtrie.

/// Whether the node at a path is in normal form, with its children as far as they belong to the same
/// level of the trie.
spec fn form_at(nodes: Map<Seq<u8>, NodeModel>, q: Seq<u8>) -> bool {
    &&& is_path(q)
    &&& match nodes[q] {
        NodeModel::Empty => false,
        NodeModel::Hash(_) => true,
        NodeModel::Leaf { key, .. } => is_path(q + key),
        NodeModel::Extension { key, .. } => {
            &&& key.len() > 0
            &&& is_path(q + key)
            &&& same_level(q, q + key) ==> nodes.contains_key(q + key) && (nodes[q + key] is Branch
                || nodes[q + key] is Hash)
        },
        NodeModel::Branch { mask, .. } => {
            &&& child_nibbles(mask).len() >= 2
            &&& q.len() < MAX_PATH_LEN
            &&& forall|n: u8| #[trigger] mask.contains(n) ==> n < 16
            &&& forall|i: int|
                0 <= i < child_nibbles(mask).len() && same_level(q, q.push(child_nibbles(mask)[i]))
                    ==> nodes.contains_key(#[trigger] q.push(child_nibbles(mask)[i]))
        },
    }
}

/// Whether all nodes at a path and below are in normal form.
spec fn formed(nodes: Map<Seq<u8>, NodeModel>, path: Seq<u8>) -> bool {
    forall|q: Seq<u8>| #[trigger] nodes.contains_key(q) && path.is_prefix_of(q) ==> form_at(nodes, q)
}

/// Whether all nodes strictly below a path are in normal form.
spec fn formed_below(nodes: Map<Seq<u8>, NodeModel>, path: Seq<u8>) -> bool {
    forall|q: Seq<u8>| #[trigger]
        nodes.contains_key(q) && path.is_prefix_of(q) && q != path ==> form_at(nodes, q)
}

/// Whether there is no node at a path nor below it.
spec fn vacant(nodes: Map<Seq<u8>, NodeModel>, path: Seq<u8>) -> bool {
    forall|q: Seq<u8>| path.is_prefix_of(q) ==> !#[trigger] nodes.contains_key(q)
}

/// What changes off a node and all below it leaves it in normal form.
proof fn lemma_form_off(s: SubtrieModel, after: SubtrieModel, kid: Seq<u8>, q: Seq<u8>)
    requires
        same_elsewhere(s, after, kid),
        !q.is_prefix_of(kid),
        !kid.is_prefix_of(q),
        form_at(s.nodes, q),
    ensures
        form_at(after.nodes, q),
{
    assert forall|x: Seq<u8>| q.is_prefix_of(x) implies #[trigger] s.nodes.contains_key(x)
        == after.nodes.contains_key(x) && s.nodes[x] == after.nodes[x] by {
        if kid.is_prefix_of(x) {
            lemma_prefix_pointwise(kid, x);
            lemma_prefix_pointwise(q, x);
            lemma_prefix_pointwise(kid, q);
            lemma_prefix_pointwise(q, kid);
            if q.len() <= kid.len() {
                assert forall|i: int| 0 <= i < q.len() implies q[i] == kid[i] by {
                    assert(q[i] == x[i] && kid[i] == x[i]);
                }
                assert(q.is_prefix_of(kid));
            } else {
                assert forall|i: int| 0 <= i < kid.len() implies kid[i] == q[i] by {
                    assert(q[i] == x[i] && kid[i] == x[i]);
                }
                assert(kid.is_prefix_of(q));
            }
        }
        assert(!kid.is_prefix_of(x));
        assert(s.nodes.contains_key(x) == after.nodes.contains_key(x));
    }
    lemma_prefix_pointwise(q, q);
    assert(s.nodes.contains_key(q) == after.nodes.contains_key(q));
    match s.nodes[q] {
        NodeModel::Extension { key, .. } => {
            lemma_prefix_pointwise(q, q + key);
            assert(s.nodes.contains_key(q + key) == after.nodes.contains_key(q + key));
        },
        NodeModel::Branch { mask, .. } => {
            assert forall|i: int|
                0 <= i < child_nibbles(mask).len() && same_level(
                    q,
                    q.push(child_nibbles(mask)[i]),
                ) implies after.nodes.contains_key(#[trigger] q.push(child_nibbles(mask)[i])) by {
                let kid = q.push(child_nibbles(mask)[i]);
                lemma_prefix_pointwise(q, kid);
                assert(s.nodes.contains_key(kid) == after.nodes.contains_key(kid));
            }
        },
        _ => {},
    }
}

/// Revealing a node in normal form where there is nothing but a blinded node.
proof fn lemma_reveal_form(s: SubtrieModel, path: Seq<u8>, node: TrieNodeModel, masks: MasksModel)
    requires
        in_form(node),
        is_path(path),
        s.with_revealed(path, node, masks).result is Ok,
        s.nodes.contains_key(path) ==> s.nodes[path] is Hash,
        forall|q: Seq<u8>| path.is_prefix_of(q) && q != path ==> !#[trigger] s.nodes.contains_key(q),
    ensures
        formed(s.with_revealed(path, node, masks).subtrie.nodes, path),
    decreases child_bound(node), 2int, 0int,
{
    let after = s.with_revealed(path, node, masks).subtrie;
    lemma_prefix_pointwise(path, path);
    lemma_revealed_node(s, path, node, masks);
    match node {
        TrieNodeModel::Branch { stack, mask } => {
            let nibbles = child_nibbles(mask);
            lemma_nibbles_below(mask, 16);
            let kids = s.reveal_kids(path, stack, nibbles, 0).subtrie;
            assert forall|j: int| 0 <= j < nibbles.len() implies vacant(
                s.nodes,
                #[trigger] path.push(nibbles[j]),
            ) by {
                let kid = path.push(nibbles[j]);
                assert forall|q: Seq<u8>| kid.is_prefix_of(q) implies !#[trigger] s.nodes.contains_key(
                    q,
                ) by {
                    lemma_prefix_pointwise(path, kid);
                    lemma_prefix_transitive(path, kid, q);
                    lemma_prefix_pointwise(kid, q);
                }
            }
            lemma_kids_form(s, path, stack, nibbles, 0);
            assert forall|q: Seq<u8>| #[trigger]
                after.nodes.contains_key(q) && path.is_prefix_of(q) implies form_at(after.nodes, q) by {
                if q != path {
                    assert(kids.nodes.contains_key(q));
                    assert(form_at(kids.nodes, q));
                    lemma_prefix_pointwise(path, q);
                    if q.len() == path.len() {
                        assert(q =~= path);
                    }
                }
            }
        },
        TrieNodeModel::Extension { key, child } => {
            let kid = path + key;
            lemma_kid_path(path, key);
            lemma_prefix_pointwise(path, kid);
            if same_level(path, kid) {
                let below = s.reveal_child(kid, child).subtrie;
                assert(vacant(s.nodes, kid)) by {
                    assert forall|q: Seq<u8>| kid.is_prefix_of(q) implies !#[trigger] s.nodes.contains_key(
                        q,
                    ) by {
                        lemma_prefix_transitive(path, kid, q);
                        lemma_prefix_pointwise(kid, q);
                        assert(!s.nodes.contains_key(q));
                    }
                }
                lemma_child_form(s, kid, child);
                lemma_child_below(s, kid, child);
                assert forall|q: Seq<u8>| #[trigger]
                    after.nodes.contains_key(q) && path.is_prefix_of(q) implies form_at(
                    after.nodes,
                    q,
                ) by {
                    if kid.is_prefix_of(q) {
                        lemma_prefix_pointwise(kid, q);
                        assert(below.nodes.contains_key(q));
                        assert(form_at(below.nodes, q));
                    } else if q != path {
                        assert(s.nodes.contains_key(q) == below.nodes.contains_key(q));
                        assert(!s.nodes.contains_key(q));
                    }
                }
            } else {
                assert forall|q: Seq<u8>| #[trigger]
                    after.nodes.contains_key(q) && path.is_prefix_of(q) implies form_at(
                    after.nodes,
                    q,
                ) by {
                    if q != path {
                        assert(!s.nodes.contains_key(q));
                    }
                }
            }
        },
        TrieNodeModel::Leaf { key, .. } => {
            lemma_kid_path(path, key);
            assert forall|q: Seq<u8>| #[trigger]
                after.nodes.contains_key(q) && path.is_prefix_of(q) implies form_at(after.nodes, q) by {
                if q != path {
                    assert(!s.nodes.contains_key(q));
                }
            }
        },
        _ => {},
    }
}

/// Revealing the children of a branch in normal form, where there is nothing yet.
proof fn lemma_kids_form(
    s: SubtrieModel,
    path: Seq<u8>,
    stack: Seq<Seq<u8>>,
    nibbles: Seq<u8>,
    from: int,
)
    requires
        is_path(path),
        path.len() < MAX_PATH_LEN,
        0 <= from <= nibbles.len() <= stack.len(),
        forall|i: int| 0 <= i < nibbles.len() ==> (#[trigger] nibbles[i]) < 16,
        forall|i: int, j: int| 0 <= i < j < nibbles.len() ==> nibbles[i] < nibbles[j],
        forall|i: int| 0 <= i < stack.len() ==> child_in_form(#[trigger] stack[i]),
        formed_below(s.nodes, path),
        forall|j: int|
            from <= j < nibbles.len() ==> vacant(s.nodes, #[trigger] path.push(nibbles[j])),
        forall|i: int|
            0 <= i < from && same_level(path, path.push(nibbles[i])) ==> s.nodes.contains_key(
                #[trigger] path.push(nibbles[i]),
            ),
        s.reveal_kids(path, stack, nibbles, from).result is Ok,
    ensures
        ({
            let after = s.reveal_kids(path, stack, nibbles, from).subtrie;
            &&& formed_below(after.nodes, path)
            &&& forall|i: int|
                0 <= i < nibbles.len() && same_level(path, path.push(nibbles[i]))
                    ==> after.nodes.contains_key(#[trigger] path.push(nibbles[i]))
        }),
    decreases widest(stack), 1int, nibbles.len() - from,
{
    if from < nibbles.len() {
        let place = stack.len() - nibbles.len() + from;
        let kid = path.push(nibbles[from]);
        lemma_prefix_pointwise(path, kid);
        if same_level(path, kid) {
            let next = s.reveal_child(kid, stack[place]).subtrie;
            lemma_widest(stack, place);
            assert(is_path(kid));
            assert(vacant(s.nodes, kid));
            lemma_child_form(s, kid, stack[place]);
            lemma_child_below(s, kid, stack[place]);
            lemma_child_grows(s, kid, stack[place]);
            assert forall|q: Seq<u8>| #[trigger]
                next.nodes.contains_key(q) && path.is_prefix_of(q) && q != path implies form_at(
                next.nodes,
                q,
            ) by {
                if !kid.is_prefix_of(q) {
                    assert(s.nodes.contains_key(q) == next.nodes.contains_key(q));
                    lemma_prefix_pointwise(path, q);
                    lemma_prefix_pointwise(q, kid);
                    lemma_prefix_pointwise(kid, kid);
                    if q.is_prefix_of(kid) {
                        if q.len() == path.len() {
                            assert(q =~= path);
                        }
                        assert(q =~= kid);
                    }
                    lemma_form_off(s, next, kid, q);
                }
            }
            assert forall|j: int| from + 1 <= j < nibbles.len() implies vacant(
                next.nodes,
                #[trigger] path.push(nibbles[j]),
            ) by {
                let other = path.push(nibbles[j]);
                assert(vacant(s.nodes, other));
                assert forall|q: Seq<u8>| other.is_prefix_of(q) implies !#[trigger] next.nodes.contains_key(
                    q,
                ) by {
                    lemma_prefix_pointwise(other, q);
                    lemma_prefix_pointwise(kid, q);
                    assert(other[path.len() as int] == q[path.len() as int]);
                    assert(s.nodes.contains_key(q) == next.nodes.contains_key(q));
                }
            }
            lemma_kids_form(next, path, stack, nibbles, from + 1);
        } else {
            lemma_kids_form(s, path, stack, nibbles, from + 1);
        }
    }
}

/// Revealing a child in normal form where there is nothing yet.
proof fn lemma_child_form(s: SubtrieModel, path: Seq<u8>, child: Seq<u8>)
    requires
        child_in_form(child),
        is_path(path),
        s.reveal_child(path, child).result is Ok,
        vacant(s.nodes, path),
    ensures
        ({
            let after = s.reveal_child(path, child).subtrie;
            &&& formed(after.nodes, path)
            &&& after.nodes.contains_key(path)
            &&& child.len() == 33 ==> after.nodes[path] is Hash
            &&& child.len() != 33 && decoded_node(child)->Ok_0 is Branch
                ==> after.nodes[path] is Branch
        }),
    decreases child.len(), 3int, 0int,
{
    lemma_prefix_pointwise(path, path);
    assert(!s.nodes.contains_key(path));
    let after = s.reveal_child(path, child).subtrie;
    if child.len() == 33 {
        assert forall|q: Seq<u8>| #[trigger]
            after.nodes.contains_key(q) && path.is_prefix_of(q) implies form_at(after.nodes, q) by {
            assert(!s.nodes.contains_key(q));
        }
    } else {
        let node = decoded_node(child)->Ok_0;
        lemma_child_bound(node, child.len());
        lemma_reveal_form(s, path, node, MasksModel::none());
        lemma_revealed_node(s, path, node, MasksModel::none());
    }
}

// In a trie.

/// Whether there is no node of a trie at a path nor below it.
spec fn bare(t: TrieModel, path: Seq<u8>) -> bool {
    forall|q: Seq<u8>| path.is_prefix_of(q) ==> !#[trigger] t.has_node(q)
}

/// A node of a lower subtrie that is in normal form there is so in the trie, and has its children.
proof fn lemma_lower_form(t: TrieModel, i: int, q: Seq<u8>)
    requires
        0 <= i < t.lower.len(),
        t.lower[i] is Some,
        TrieModel::owns(i, q),
        t.has_node(q),
        form_at(t.lower[i]->0.nodes, q),
    ensures
        t.tidy(q),
{
    let nodes = t.lower[i]->0.nodes;
    let kids = kid_paths(q, nodes[q]);
    lemma_kid_paths(q, nodes[q]);
    assert forall|k: int| 0 <= k < kids.len() implies t.has_node(#[trigger] kids[k]) && t.node(kids[k])
        == nodes[kids[k]] by {
        let kid = kids[k];
        assert(q.is_prefix_of(kid));
        lemma_owns_below(i, q, kid);
        lemma_prefix_pointwise(q, kid);
        if let NodeModel::Branch { mask, .. } = nodes[q] {
            assert(kid == q.push(child_nibbles(mask)[k]));
        }
    }
    if let NodeModel::Extension { key, .. } = nodes[q] {
        assert(kids[0] == q + key);
    }
}

/// What is revealed at a path and below leaves a node off it in normal form. An extension that leads
/// to the path needs a branch or a blinded node there.
proof fn lemma_tidy_off(t: TrieModel, r: TrieModel, path: Seq<u8>, p: Seq<u8>)
    requires
        t.tidy(p),
        !path.is_prefix_of(p),
        only_below(t, r, path),
        forall|q: Seq<u8>| path.is_prefix_of(q) && q != path ==> !#[trigger] t.has_node(q),
        t.has_node(path) && t.has_node(p) && (t.node(p) matches NodeModel::Extension { key, .. } && p
            + key == path) ==> r.node(path) is Branch || r.node(path) is Hash,
    ensures
        r.tidy(p),
{
    assert(r.has_node(p) == t.has_node(p));
    if r.has_node(p) {
        let kids = kid_paths(p, t.node(p));
        assert forall|k: int| 0 <= k < kids.len() implies r.has_node(#[trigger] kids[k]) by {
            assert(t.has_node(kids[k]));
        }
        if let NodeModel::Extension { key, .. } = t.node(p) {
            assert(kids[0] == p + key);
            assert(t.has_node(p + key));
            assert(r.has_node(p + key));
            if !path.is_prefix_of(p + key) {
                assert(r.has_node(p + key) == t.has_node(p + key));
            }
        }
    }
}

/// Whether all nodes of lower subtries are in normal form.
spec fn low_tidy(t: TrieModel) -> bool {
    forall|p: Seq<u8>| !is_upper(p) ==> #[trigger] t.tidy(p)
}

/// Whether the RLP node of a child is a hash, or that of a branch.
spec fn leads_on(child: Seq<u8>) -> bool {
    child.len() == 33 || (decoded_node(child) matches Ok(node) && node is Branch)
}

/// Revealing a child in normal form in a lower subtrie, where there is nothing yet.
proof fn lemma_step_form(t: TrieModel, kid: LowerChild)
    requires
        t.lower.len() == NUM_LOWER_SUBTRIES,
        low_tidy(t),
        bare(t, kid.path),
        child_in_form(kid.rlp),
        is_path(kid.path),
        !is_upper(kid.path),
        t.with_child(kid).result is Ok,
    ensures
        ({
            let r = t.with_child(kid).trie;
            &&& low_tidy(r)
            &&& only_below(t, r, kid.path)
            &&& r.has_node(kid.path)
            &&& leads_on(kid.rlp) ==> r.node(kid.path) is Hash || r.node(kid.path) is Branch
        }),
{
    let path = kid.path;
    let s = t.subtrie_at(path);
    let revealed = s.reveal_child(path, kid.rlp);
    let r = t.after(path, revealed).trie;
    let i = lower_index_of(path);
    lemma_prefix_pointwise(path, path);
    assert(path[0] < 16 && path[1] < 16);
    assert(vacant(s.nodes, path)) by {
        assert forall|q: Seq<u8>| path.is_prefix_of(q) implies !#[trigger] s.nodes.contains_key(q) by {
            assert(TrieModel::owns(i, path));
            lemma_owns_below(i, path, q);
            assert(!t.has_node(q));
        }
    }
    lemma_child_form(s, path, kid.rlp);
    lemma_child_below(s, path, kid.rlp);
    lemma_child_grows(s, path, kid.rlp);
    lemma_step_only(t, path, path, revealed);
    assert forall|p: Seq<u8>| !is_upper(p) implies #[trigger] r.tidy(p) by {
        assert(t.tidy(p));
        if path.is_prefix_of(p) {
            if r.has_node(p) {
                lemma_owns_below(i, path, p);
                assert(revealed.subtrie.nodes.contains_key(p));
                lemma_lower_form(r, i, p);
            }
        } else {
            assert(!t.has_node(path));
            lemma_tidy_off(t, r, path, p);
        }
    }
}

/// Revealing children leaves what is below none of them.
proof fn lemma_children_leave(t: TrieModel, path: Seq<u8>, kids: Seq<LowerChild>, q: Seq<u8>)
    requires
        t.lower.len() == NUM_LOWER_SUBTRIES,
        all_low(path, kids),
        forall|i: int| 0 <= i < kids.len() ==> !(#[trigger] kids[i]).path.is_prefix_of(q),
    ensures
        t.with_children(kids).trie.has_node(q) == t.has_node(q),
        t.has_node(q) ==> t.with_children(kids).trie.node(q) == t.node(q),
    decreases kids.len(),
{
    if kids.len() > 0 {
        let kid = kids[0].path;
        let s = t.subtrie_at(kid);
        let next = t.with_child(kids[0]);
        let rest = kids.skip(1);
        assert(low_below(path, kids[0]));
        assert(kid[0] < 16 && kid[1] < 16);
        lemma_prefix_pointwise(kid, kid);
        lemma_child_grows(s, kid, kids[0].rlp);
        lemma_child_below(s, kid, kids[0].rlp);
        lemma_step_only(t, kid, kid, s.reveal_child(kid, kids[0].rlp));
        assert(next.trie.has_node(q) == t.has_node(q));
        if next.result is Ok {
            assert forall|i: int| 0 <= i < rest.len() implies low_below(path, #[trigger] rest[i])
                && !rest[i].path.is_prefix_of(q) by {
                assert(rest[i] == kids[i + 1]);
                assert(low_below(path, kids[i + 1]));
            }
            lemma_children_leave(next.trie, path, rest, q);
        }
    }
}

/// Revealing children in normal form in lower subtries, where there is nothing yet.
proof fn lemma_children_form(t: TrieModel, path: Seq<u8>, kids: Seq<LowerChild>)
    requires
        t.lower.len() == NUM_LOWER_SUBTRIES,
        low_tidy(t),
        all_low(path, kids),
        apart(kids),
        forall|i: int| 0 <= i < kids.len() ==> bare(t, (#[trigger] kids[i]).path),
        forall|i: int| 0 <= i < kids.len() ==> child_in_form((#[trigger] kids[i]).rlp),
        t.with_children(kids).result is Ok,
    ensures
        ({
            let r = t.with_children(kids).trie;
            &&& low_tidy(r)
            &&& forall|i: int|
                0 <= i < kids.len() ==> r.has_node((#[trigger] kids[i]).path) && (leads_on(kids[i].rlp)
                    ==> r.node(kids[i].path) is Hash || r.node(kids[i].path) is Branch)
        }),
    decreases kids.len(),
{
    if kids.len() > 0 {
        let kid = kids[0].path;
        let next = t.with_child(kids[0]).trie;
        let rest = kids.skip(1);
        let r = next.with_children(rest).trie;
        assert(low_below(path, kids[0]));
        assert(bare(t, kid));
        lemma_step_form(t, kids[0]);
        assert forall|i: int| 0 <= i < rest.len() implies low_below(path, #[trigger] rest[i]) && bare(
            next,
            rest[i].path,
        ) && child_in_form(rest[i].rlp) && !rest[i].path.is_prefix_of(kid) by {
            let other = rest[i].path;
            assert(rest[i] == kids[i + 1]);
            assert(low_below(path, kids[i + 1]));
            assert(bare(t, other));
            assert(!kid.is_prefix_of(other) && !other.is_prefix_of(kid));
            assert forall|q: Seq<u8>| other.is_prefix_of(q) implies !#[trigger] next.has_node(q) by {
                if kid.is_prefix_of(q) {
                    lemma_prefixes_meet(kid, other, q);
                }
                assert(next.has_node(q) == t.has_node(q));
            }
        }
        lemma_children_form(next, path, rest);
        lemma_children_leave(next, path, rest, kid);
        assert forall|i: int| 0 <= i < kids.len() implies r.has_node((#[trigger] kids[i]).path) && (
        leads_on(kids[i].rlp) ==> r.node(kids[i].path) is Hash || r.node(kids[i].path) is Branch) by {
            if i > 0 {
                assert(rest[i - 1] == kids[i]);
            }
        }
    }
}

/// Revealing a node in normal form in a lower subtrie, where a blinded node is.
proof fn lemma_lower_normal(t: TrieModel, path: Seq<u8>, node: TrieNodeModel, masks: MasksModel)
    requires
        t.sound(),
        t.normal(),
        t.has_node(path),
        t.node(path) is Hash,
        !is_upper(path),
        is_path(path),
        in_form(node),
        t.with_revealed(path, node, masks).result is Ok,
        forall|p: Seq<u8>| #[trigger]
            t.has_node(p) && (t.node(p) matches NodeModel::Extension { key, .. } && p + key == path)
                ==> node is Branch,
    ensures
        t.with_revealed(path, node, masks).trie.normal(),
{
    let s = t.subtrie_at(path);
    let revealed = s.with_revealed(path, node, masks);
    let r = t.with_revealed(path, node, masks).trie;
    let i = lower_index_of(path);
    lemma_prefix_pointwise(path, path);
    assert forall|q: Seq<u8>| path.is_prefix_of(q) && q != path implies !#[trigger] t.has_node(q) by {
        if t.has_node(q) {
            lemma_blind_bottom(t, path, q);
        }
    }
    assert forall|q: Seq<u8>| path.is_prefix_of(q) && q != path implies !#[trigger] s.nodes.contains_key(
        q,
    ) by {
        lemma_owns_below(i, path, q);
        assert(!t.has_node(q));
    }
    lemma_reveal_form(s, path, node, masks);
    lemma_revealed_node(s, path, node, masks);
    lemma_reveal_only(t, path, node, masks);
    assert forall|p: Seq<u8>| #[trigger] r.tidy(p) by {
        assert(t.tidy(p));
        if path.is_prefix_of(p) {
            if r.has_node(p) {
                lemma_owns_below(i, path, p);
                assert(revealed.subtrie.nodes.contains_key(p));
                lemma_lower_form(r, i, p);
            }
        } else {
            lemma_tidy_off(t, r, path, p);
        }
    }
}

// In the upper subtrie.

/// Whether a path is that of a child that belongs to a lower subtrie; below an extension it must be
/// blinded or a branch.
spec fn listed(kids: Seq<LowerChild>, p: Seq<u8>, below_ext: bool) -> bool {
    exists|i: int|
        0 <= i < kids.len() && (#[trigger] kids[i]).path == p && (below_ext ==> leads_on(kids[i].rlp))
}

/// Whether all children of a node that belong to lower subtries are listed.
spec fn covered(node: NodeModel, kids: Seq<LowerChild>, q: Seq<u8>) -> bool {
    forall|k: int|
        0 <= k < kid_paths(q, node).len() && !is_upper(#[trigger] kid_paths(q, node)[k]) ==> listed(
            kids,
            kid_paths(q, node)[k],
            node is Extension,
        )
}

/// Whether all children are in normal form.
spec fn all_form(kids: Seq<LowerChild>) -> bool {
    forall|i: int| 0 <= i < kids.len() ==> child_in_form((#[trigger] kids[i]).rlp)
}

/// What is listed is so in a longer list.
proof fn lemma_listed_more(
    a: Seq<LowerChild>,
    b: Seq<LowerChild>,
    p: Seq<u8>,
    below_ext: bool,
)
    requires
        listed(a, p, below_ext) || listed(b, p, below_ext),
    ensures
        listed(a + b, p, below_ext),
{
    if listed(a, p, below_ext) {
        let i = choose|i: int|
            0 <= i < a.len() && (#[trigger] a[i]).path == p && (below_ext ==> leads_on(a[i].rlp));
        assert((a + b)[i] == a[i]);
    } else {
        let i = choose|i: int|
            0 <= i < b.len() && (#[trigger] b[i]).path == p && (below_ext ==> leads_on(b[i].rlp));
        assert((a + b)[a.len() + i] == b[i]);
    }
}

/// What is covered by a list is so by a longer one.
proof fn lemma_covered_more(node: NodeModel, a: Seq<LowerChild>, b: Seq<LowerChild>, q: Seq<u8>)
    requires
        covered(node, a, q) || covered(node, b, q),
    ensures
        covered(node, a + b, q),
{
    assert forall|k: int|
        0 <= k < kid_paths(q, node).len() && !is_upper(
            #[trigger] kid_paths(q, node)[k],
        ) implies listed(a + b, kid_paths(q, node)[k], node is Extension) by {
        lemma_listed_more(a, b, kid_paths(q, node)[k], node is Extension);
    }
}

/// Once a node in normal form was revealed in the upper subtrie, all children in lower subtries of the
/// nodes that are new are listed.
proof fn lemma_kids_cover(
    t: TrieModel,
    s: SubtrieModel,
    path: Seq<u8>,
    node: TrieNodeModel,
    masks: MasksModel,
)
    requires
        in_form(node),
        is_path(path),
        is_upper(path),
        s.with_revealed(path, node, masks).result is Ok,
        s.nodes.contains_key(path) ==> s.nodes[path] is Hash,
        forall|q: Seq<u8>| path.is_prefix_of(q) && q != path ==> !#[trigger] s.nodes.contains_key(q),
        shown_in(t, s, path),
    ensures
        ({
            let after = s.with_revealed(path, node, masks).subtrie;
            let kids = t.lower_kids(path, node);
            &&& all_form(kids)
            &&& forall|q: Seq<u8>| #[trigger]
                after.nodes.contains_key(q) && path.is_prefix_of(q) ==> covered(
                    after.nodes[q],
                    kids,
                    q,
                )
        }),
    decreases child_bound(node), 2int, 0int,
{
    let after = s.with_revealed(path, node, masks).subtrie;
    let kids = t.lower_kids(path, node);
    lemma_prefix_pointwise(path, path);
    lemma_revealed_node(s, path, node, masks);
    match node {
        TrieNodeModel::Branch { stack, mask } => {
            let nibbles = child_nibbles(mask);
            let held = s.reveal_kids(path, stack, nibbles, 0).subtrie;
            lemma_nibbles_below(mask, 16);
            assert forall|j: int| 0 <= j < nibbles.len() implies vacant(
                s.nodes,
                #[trigger] path.push(nibbles[j]),
            ) && shown_in(t, s, path.push(nibbles[j])) by {
                let kid = path.push(nibbles[j]);
                lemma_prefix_pointwise(path, kid);
                assert forall|q: Seq<u8>| kid.is_prefix_of(q) implies !#[trigger] s.nodes.contains_key(
                    q,
                ) by {
                    lemma_prefix_transitive(path, kid, q);
                    lemma_prefix_pointwise(kid, q);
                }
                assert(shown_in(t, s, path));
                lemma_shown_deeper(t, s, path, kid);
            }
            lemma_of_kids_cover(t, s, path, stack, nibbles, 0);
            assert forall|q: Seq<u8>| #[trigger]
                after.nodes.contains_key(q) && path.is_prefix_of(q) implies covered(
                after.nodes[q],
                kids,
                q,
            ) by {
                if q == path {
                    assert forall|k: int|
                        0 <= k < kid_paths(q, after.nodes[q]).len() && !is_upper(
                            #[trigger] kid_paths(q, after.nodes[q])[k],
                        ) implies listed(kids, kid_paths(q, after.nodes[q])[k], false) by {
                        assert(kid_paths(q, after.nodes[q])[k] == path.push(nibbles[k]));
                    }
                } else {
                    assert(held.nodes.contains_key(q));
                    if forall|j: int|
                        0 <= j < nibbles.len() ==> !(#[trigger] path.push(nibbles[j])).is_prefix_of(q) {
                        lemma_kids_leave(s, path, stack, nibbles, 0, q);
                    }
                    let j = choose|j: int|
                        0 <= j < nibbles.len() && (#[trigger] path.push(nibbles[j])).is_prefix_of(q);
                    assert(below_kid(path, nibbles, 0, q));
                }
            }
        },
        TrieNodeModel::Extension { key, child } => {
            let kid = path + key;
            lemma_kid_path(path, key);
            lemma_prefix_pointwise(path, kid);
            if is_upper(kid) {
                let held = s.reveal_child(kid, child).subtrie;
                assert(vacant(s.nodes, kid)) by {
                    assert forall|q: Seq<u8>| kid.is_prefix_of(q) implies !#[trigger] s.nodes.contains_key(
                        q,
                    ) by {
                        lemma_prefix_transitive(path, kid, q);
                        lemma_prefix_pointwise(kid, q);
                    }
                }
                assert(shown_in(t, s, path));
                lemma_shown_deeper(t, s, path, kid);
                lemma_of_child_cover(t, s, kid, child);
                lemma_child_below(s, kid, child);
                assert forall|q: Seq<u8>| #[trigger]
                    after.nodes.contains_key(q) && path.is_prefix_of(q) implies covered(
                    after.nodes[q],
                    kids,
                    q,
                ) by {
                    if q == path {
                        assert(kid_paths(q, after.nodes[q]) =~= seq![kid]);
                    } else {
                        assert(held.nodes.contains_key(q));
                        if !kid.is_prefix_of(q) {
                            assert(s.nodes.contains_key(q) == held.nodes.contains_key(q));
                        }
                    }
                }
            } else {
                assert(kids =~= seq![LowerChild { path: kid, rlp: child }]);
                assert(leads_on(child));
                assert forall|q: Seq<u8>| #[trigger]
                    after.nodes.contains_key(q) && path.is_prefix_of(q) implies covered(
                    after.nodes[q],
                    kids,
                    q,
                ) by {
                    if q != path {
                        assert(!s.nodes.contains_key(q));
                    } else {
                        assert(kid_paths(q, after.nodes[q]) =~= seq![kid]);
                        assert(kids[0].path == kid);
                        assert(listed(kids, kid, true));
                    }
                }
            }
        },
        _ => {
            assert forall|q: Seq<u8>| #[trigger]
                after.nodes.contains_key(q) && path.is_prefix_of(q) implies covered(
                after.nodes[q],
                kids,
                q,
            ) by {
                if q != path {
                    assert(!s.nodes.contains_key(q));
                }
            }
        },
    }
}

/// Whether a path is that of one of the children of a branch, from number `from` on, or below it.
spec fn below_kid(path: Seq<u8>, nibbles: Seq<u8>, from: int, q: Seq<u8>) -> bool {
    exists|j: int|
        from <= j < nibbles.len() && (#[trigger] path.push(nibbles[j])).is_prefix_of(q)
}

/// Once the children of a branch in normal form were revealed in the upper subtrie, all children in
/// lower subtries are listed.
proof fn lemma_of_kids_cover(
    t: TrieModel,
    s: SubtrieModel,
    path: Seq<u8>,
    stack: Seq<Seq<u8>>,
    nibbles: Seq<u8>,
    from: int,
)
    requires
        is_path(path),
        is_upper(path),
        0 <= from <= nibbles.len() <= stack.len(),
        s.reveal_kids(path, stack, nibbles, from).result is Ok,
        forall|i: int| 0 <= i < nibbles.len() ==> (#[trigger] nibbles[i]) < 16,
        forall|i: int, j: int| 0 <= i < j < nibbles.len() ==> nibbles[i] < nibbles[j],
        forall|i: int| 0 <= i < stack.len() ==> child_in_form(#[trigger] stack[i]),
        forall|j: int|
            from <= j < nibbles.len() ==> vacant(s.nodes, #[trigger] path.push(nibbles[j]))
                && shown_in(t, s, path.push(nibbles[j])),
    ensures
        ({
            let after = s.reveal_kids(path, stack, nibbles, from).subtrie;
            let kids = t.lower_of_kids(path, stack, nibbles, from);
            &&& all_form(kids)
            &&& forall|q: Seq<u8>| #[trigger]
                after.nodes.contains_key(q) && below_kid(path, nibbles, from, q) ==> covered(
                    after.nodes[q],
                    kids,
                    q,
                )
            &&& forall|j: int|
                from <= j < nibbles.len() && !is_upper(#[trigger] path.push(nibbles[j])) ==> listed(
                    kids,
                    path.push(nibbles[j]),
                    false,
                )
        }),
    decreases widest(stack), 1int, nibbles.len() - from,
{
    if from < nibbles.len() {
        let place = stack.len() - nibbles.len() + from;
        let kid = path.push(nibbles[from]);
        let first = t.lower_of_child(kid, stack[place]);
        let rest = t.lower_of_kids(path, stack, nibbles, from + 1);
        let kids = t.lower_of_kids(path, stack, nibbles, from);
        let after = s.reveal_kids(path, stack, nibbles, from).subtrie;
        lemma_widest(stack, place);
        assert(is_path(kid));
        assert(vacant(s.nodes, kid) && shown_in(t, s, kid));
        assert(child_in_form(stack[place]));
        let next = if same_level(path, kid) {
            lemma_of_child_cover(t, s, kid, stack[place]);
            lemma_child_below(s, kid, stack[place]);
            s.reveal_child(kid, stack[place])
        } else {
            s.ok()
        };
        assert forall|j: int| from + 1 <= j < nibbles.len() implies vacant(
            next.subtrie.nodes,
            #[trigger] path.push(nibbles[j]),
        ) && shown_in(t, next.subtrie, path.push(nibbles[j])) by {
            let other = path.push(nibbles[j]);
            assert(vacant(s.nodes, other) && shown_in(t, s, other));
            if same_level(path, kid) {
                lemma_shown_off(t, s, next.subtrie, path, nibbles[from], nibbles[j]);
                assert forall|q: Seq<u8>| other.is_prefix_of(q) implies !#[trigger] next.subtrie.nodes.contains_key(
                    q,
                ) by {
                    lemma_kids_differ(path, nibbles[from], nibbles[j], q);
                    assert(s.nodes.contains_key(q) == next.subtrie.nodes.contains_key(q));
                }
            }
        }
        lemma_of_kids_cover(t, next.subtrie, path, stack, nibbles, from + 1);
        assert forall|q: Seq<u8>| #[trigger]
            after.nodes.contains_key(q) && below_kid(path, nibbles, from, q) implies covered(
            after.nodes[q],
            kids,
            q,
        ) by {
            if kid.is_prefix_of(q) {
                assert forall|j: int| from + 1 <= j < nibbles.len() implies !(
                #[trigger] path.push(nibbles[j])).is_prefix_of(q) by {
                    if path.push(nibbles[j]).is_prefix_of(q) {
                        lemma_kids_differ(path, nibbles[from], nibbles[j], q);
                    }
                }
                lemma_kids_leave(next.subtrie, path, stack, nibbles, from + 1, q);
                assert(next.subtrie.nodes.contains_key(q));
                if !same_level(path, kid) {
                    assert(!s.nodes.contains_key(q));
                }
                lemma_covered_more(after.nodes[q], first, rest, q);
            } else {
                let j = choose|j: int|
                    from <= j < nibbles.len() && (#[trigger] path.push(nibbles[j])).is_prefix_of(q);
                assert(j != from);
                assert(below_kid(path, nibbles, from + 1, q));
                lemma_covered_more(after.nodes[q], first, rest, q);
            }
        }
        assert forall|j: int|
            from <= j < nibbles.len() && !is_upper(#[trigger] path.push(nibbles[j])) implies listed(
            kids,
            path.push(nibbles[j]),
            false,
        ) by {
            if j == from {
                assert(first[0].path == kid);
                assert(listed(first, kid, false));
            }
            lemma_listed_more(first, rest, path.push(nibbles[j]), false);
        }
        assert(all_form(kids)) by {
            assert forall|i: int| 0 <= i < kids.len() implies child_in_form(
                (#[trigger] kids[i]).rlp,
            ) by {
                if i < first.len() {
                    assert(kids[i] == first[i]);
                } else {
                    assert(kids[i] == rest[i - first.len()]);
                }
            }
        }
    }
}

/// Nothing is below two children of a branch.
proof fn lemma_kids_differ(path: Seq<u8>, n: u8, m: u8, q: Seq<u8>)
    requires
        n != m,
        path.push(m).is_prefix_of(q),
    ensures
        !path.push(n).is_prefix_of(q),
{
    lemma_prefix_pointwise(path.push(n), q);
    lemma_prefix_pointwise(path.push(m), q);
    assert(path.push(m)[path.len() as int] == q[path.len() as int]);
    assert(path.push(n)[path.len() as int] == n);
}

/// Once a child in normal form was revealed in the upper subtrie, all children in lower subtries of the
/// nodes that are new are listed.
proof fn lemma_of_child_cover(t: TrieModel, s: SubtrieModel, path: Seq<u8>, child: Seq<u8>)
    requires
        child_in_form(child),
        is_path(path),
        is_upper(path),
        s.reveal_child(path, child).result is Ok,
        vacant(s.nodes, path),
        shown_in(t, s, path),
    ensures
        ({
            let after = s.reveal_child(path, child).subtrie;
            let kids = t.lower_of_child(path, child);
            &&& all_form(kids)
            &&& forall|q: Seq<u8>| #[trigger]
                after.nodes.contains_key(q) && path.is_prefix_of(q) ==> covered(
                    after.nodes[q],
                    kids,
                    q,
                )
        }),
    decreases child.len(), 3int, 0int,
{
    lemma_prefix_pointwise(path, path);
    assert(!s.nodes.contains_key(path));
    assert(!t.is_revealed(path));
    if child.len() == 33 {
        let after = s.reveal_child(path, child).subtrie;
        let kids = t.lower_of_child(path, child);
        assert forall|q: Seq<u8>| #[trigger]
            after.nodes.contains_key(q) && path.is_prefix_of(q) implies covered(
            after.nodes[q],
            kids,
            q,
        ) by {
            assert(!s.nodes.contains_key(q));
        }
    } else {
        let node = decoded_node(child)->Ok_0;
        lemma_child_bound(node, child.len());
        lemma_kids_cover(t, s, path, node, MasksModel::none());
    }
}

/// A node of the upper subtrie that is in normal form there is so in the trie, if its children in lower
/// subtries are there.
proof fn lemma_upper_form(t: TrieModel, kids: Seq<LowerChild>, q: Seq<u8>)
    requires
        is_upper(q),
        t.has_node(q),
        form_at(t.upper.nodes, q),
        covered(t.node(q), kids, q),
        forall|i: int|
            0 <= i < kids.len() ==> t.has_node((#[trigger] kids[i]).path) && (leads_on(kids[i].rlp)
                ==> t.node(kids[i].path) is Hash || t.node(kids[i].path) is Branch),
    ensures
        t.tidy(q),
{
    let node = t.node(q);
    let paths = kid_paths(q, node);
    lemma_kid_paths(q, node);
    assert forall|k: int| 0 <= k < paths.len() implies t.has_node(#[trigger] paths[k]) by {
        if is_upper(paths[k]) {
            if let NodeModel::Branch { mask, .. } = node {
                assert(paths[k] == q.push(child_nibbles(mask)[k]));
            }
        } else {
            assert(listed(kids, paths[k], node is Extension));
        }
    }
    if let NodeModel::Extension { key, .. } = node {
        assert(paths[0] == q + key);
        if !is_upper(q + key) {
            assert(listed(kids, paths[0], true));
        }
    }
}

/// Revealing a node in normal form in the upper subtrie, where there is nothing but a blinded node at
/// most.
pub proof fn lemma_upper_normal(t: TrieModel, path: Seq<u8>, node: TrieNodeModel, masks: MasksModel)
    requires
        t.placed(),
        t.homed(),
        t.normal(),
        !t.is_revealed(path),
        forall|q: Seq<u8>| path.is_prefix_of(q) && q != path ==> !#[trigger] t.has_node(q),
        is_upper(path),
        is_path(path),
        in_form(node),
        t.with_revealed(path, node, masks).result is Ok,
        forall|p: Seq<u8>| #[trigger]
            t.has_node(p) && (t.node(p) matches NodeModel::Extension { key, .. } && p + key == path)
                ==> node is Branch,
    ensures
        t.with_revealed(path, node, masks).trie.normal(),
{
    let s = t.upper;
    let kids = t.lower_kids(path, node);
    let own = t.after(path, s.with_revealed(path, node, masks)).trie;
    let r = t.with_revealed(path, node, masks).trie;
    lemma_prefix_pointwise(path, path);
    lemma_children_after(t, path, node, masks);
    lemma_reveal_only(t, path, node, masks);
    lemma_revealed_node(s, path, node, masks);
    assert forall|q: Seq<u8>| path.is_prefix_of(q) && q != path implies !#[trigger] s.nodes.contains_key(
        q,
    ) by {
        assert(!t.has_node(q));
    }
    lemma_reveal_form(s, path, node, masks);
    assert(shown_in(t, s, path));
    lemma_kids_cover(t, s, path, node, masks);
    lemma_kids_low(t, path, node);
    lemma_kids_apart(t, path, node);
    lemma_all_lower(own, path, kids);
    assert(low_tidy(own)) by {
        assert forall|p: Seq<u8>| !is_upper(p) implies #[trigger] own.tidy(p) by {
            assert(t.tidy(p));
            assert(own.has_node(p) == t.has_node(p));
            if own.has_node(p) {
                let paths = kid_paths(p, t.node(p));
                lemma_kid_paths(p, t.node(p));
                assert forall|k: int| 0 <= k < paths.len() implies own.has_node(#[trigger] paths[k]) by {
                    lemma_prefix_pointwise(p, paths[k]);
                    assert(t.has_node(paths[k]));
                }
                if let NodeModel::Extension { key, .. } = t.node(p) {
                    assert(paths[0] == p + key);
                }
            }
        }
    }
    assert forall|i: int| 0 <= i < kids.len() implies bare(own, (#[trigger] kids[i]).path) by {
        assert(low_below(path, kids[i]));
        assert forall|q: Seq<u8>| kids[i].path.is_prefix_of(q) implies !#[trigger] own.has_node(q) by {
            lemma_prefix_transitive(path, kids[i].path, q);
            lemma_prefix_pointwise(kids[i].path, q);
            assert(own.has_node(q) == t.has_node(q));
        }
    }
    lemma_children_form(own, path, kids);
    assert(r.upper == own.upper);
    assert(own.has_node(path) && r.has_node(path) && r.node(path) == own.node(path));
    assert forall|p: Seq<u8>| #[trigger] r.tidy(p) by {
        assert(t.tidy(p));
        if !path.is_prefix_of(p) {
            lemma_tidy_off(t, r, path, p);
        } else if is_upper(p) && r.has_node(p) {
            assert(r.upper.nodes.contains_key(p));
            assert(form_at(r.upper.nodes, p));
            lemma_upper_form(r, kids, p);
        }
    }
}

/// Revealing a node in normal form, where a blinded node is, keeps the normal form. Where an extension
/// leads there, the node must be a branch.
pub proof fn lemma_reveal_normal(
    t: TrieModel,
    path: Seq<u8>,
    node: TrieNodeModel,
    masks: MasksModel,
)
    requires
        t.sound(),
        t.normal(),
        t.has_node(path),
        t.node(path) is Hash,
        in_form(node),
        t.with_revealed(path, node, masks).result is Ok,
        forall|p: Seq<u8>| #[trigger]
            t.has_node(p) && (t.node(p) matches NodeModel::Extension { key, .. } && p + key == path)
                ==> node is Branch,
    ensures
        t.with_revealed(path, node, masks).trie.normal(),
{
    assert(t.tidy(path));
    if is_upper(path) {
        assert forall|q: Seq<u8>| path.is_prefix_of(q) && q != path implies !#[trigger] t.has_node(q) by {
            if t.has_node(q) {
                lemma_blind_bottom(t, path, q);
            }
        }
        lemma_upper_normal(t, path, node, masks);
    } else {
        lemma_lower_normal(t, path, node, masks);
    }
}

/// Revealing a root in normal form where there is nothing.
pub proof fn lemma_root_normal(t: TrieModel, node: TrieNodeModel, masks: MasksModel)
    requires
        t.placed(),
        t.homed(),
        forall|q: Seq<u8>| !#[trigger] t.has_node(q),
        node is EmptyRoot || in_form(node),
        t.with_revealed(Seq::empty(), node, masks).result is Ok,
    ensures
        t.with_revealed(Seq::empty(), node, masks).trie.normal(),
        t.with_revealed(Seq::empty(), node, masks).trie.has_node(Seq::empty()),
{
    let root = Seq::<u8>::empty();
    let r = t.with_revealed(root, node, masks).trie;
    assert(t.normal()) by {
        assert forall|p: Seq<u8>| #[trigger] t.tidy(p) by {
            assert(!t.has_node(p));
        }
    }
    assert(!t.has_node(root));
    lemma_then_revealed(t, root, node, masks);
    if node is EmptyRoot {
        lemma_children_after(t, root, node, masks);
        lemma_revealed_node(t.upper, root, node, masks);
        assert forall|p: Seq<u8>| #[trigger] r.tidy(p) by {
            assert(!t.has_node(p));
        }
    } else {
        lemma_upper_normal(t, root, node, masks);
    }
}

}
