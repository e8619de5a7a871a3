//! Why hashing step by step, with a stack of waiting nodes, computes what hashing is.

use crate::hashing::{
    all_headed, cached, deeper, encoded_node, fresh, fresh_kids, kid_paths, latest, ready,
    record_branch, rlp_step, step_ok, Hashing, PathItem, RlpItem, StepState,
};
use crate::model::{child_nibbles, headed, nibbles_below, NodeModel};
use crate::order::{lemma_prefix_pointwise, lemma_prefix_transitive};
use crate::outside::MAX_PATH_LEN;
use crate::updates::UpdatesModel;
use vstd::prelude::*;

verus! {

/// The state of a run: the waiting nodes, the encoded ones, the nodes and the updates so far.
#[verifier::ext_equal]
pub struct Run {
    pub paths: Seq<PathItem>,
    pub rlps: Seq<RlpItem>,
    pub nodes: Map<Seq<u8>, NodeModel>,
    pub updates: Option<UpdatesModel>,
}

/// Whether a waiting node still has the node at a path to be encoded.
pub open spec fn covers(h: Hashing, item: PathItem, path: Seq<u8>) -> bool {
    match item.touched {
        None => h.visits(item.path, path),
        Some(_) => item.path == path,
    }
}

/// Whether the node at a path is still to be encoded.
pub open spec fn owed(h: Hashing, paths: Seq<PathItem>, path: Seq<u8>) -> bool {
    exists|i: int| 0 <= i < paths.len() && covers(h, #[trigger] paths[i], path)
}

/// The paths of encoded nodes.
pub open spec fn rlp_paths(rlps: Seq<RlpItem>) -> Seq<Seq<u8>> {
    rlps.map_values(|r: RlpItem| r.path)
}

/// Whether working off the waiting nodes leaves the root as the only encoded node: a node that has
/// waited finds its children as the latest encoded ones.
pub open spec fn shape(
    h: Hashing,
    paths: Seq<PathItem>,
    encoded: Seq<Seq<u8>>,
    root: Seq<u8>,
) -> bool
    decreases paths.len(),
{
    if paths.len() == 0 {
        encoded == seq![root]
    } else {
        let top = paths.last();
        match top.touched {
            None => shape(h, paths.drop_last(), encoded.push(top.path), root),
            Some(_) => {
                let kids = h.kids(top.path);
                &&& encoded.len() >= kids.len()
                &&& encoded.skip(encoded.len() - kids.len()) == kids
                &&& shape(
                    h,
                    paths.drop_last(),
                    encoded.take(encoded.len() - kids.len()).push(top.path),
                    root,
                )
            },
        }
    }
}

/// Whether a waiting node that has been asked is one that waits for children.
pub open spec fn item_ok(h: Hashing, item: PathItem) -> bool {
    item.touched matches Some(yes) ==> yes == h.prefix.touches(item.path) && h.kids(
        item.path,
    ).len() > 0
}

/// Whether two waiting nodes, the first below the second on the stack, may stand so: the second is
/// not above the first in the trie, and below it only if the first waits for it.
pub open spec fn apart(lower: PathItem, upper: PathItem) -> bool {
    &&& !upper.path.is_prefix_of(lower.path)
    &&& lower.touched is None ==> !lower.path.is_prefix_of(upper.path)
}

/// Whether the node at a path has been encoded anew.
pub open spec fn done(h: Hashing, root: Seq<u8>, paths: Seq<PathItem>, path: Seq<u8>) -> bool {
    h.visits(root, path) && h.opens(path) && !owed(h, paths, path)
}

/// The node at a path as it stands.
pub open spec fn node_now(
    h: Hashing,
    root: Seq<u8>,
    paths: Seq<PathItem>,
    path: Seq<u8>,
) -> NodeModel {
    if done(h, root, paths, path) {
        encoded_node(h.nodes[path], h.encoded(path))
    } else {
        h.nodes[path]
    }
}

/// Whether the updates at a path are those of the branch there, if it has been encoded.
pub open spec fn updates_at(
    h: Hashing,
    root: Seq<u8>,
    paths: Seq<PathItem>,
    path: Seq<u8>,
    before: UpdatesModel,
    now: UpdatesModel,
) -> bool {
    let one = if done(h, root, paths, path) && h.records(path) {
        record_branch(
            (h.source)(path),
            path,
            h.nodes[path],
            h.encoded_kids(path),
            before,
        )
    } else {
        before
    };
    &&& now.updated.contains_key(path) == one.updated.contains_key(path)
    &&& now.updated.contains_key(path) ==> now.updated[path] == one.updated[path]
    &&& now.removed.contains(path) == one.removed.contains(path)
}

/// Whether the updates so far are those of the branches that have been encoded.
pub open spec fn updates_now(
    h: Hashing,
    root: Seq<u8>,
    paths: Seq<PathItem>,
    before: Option<UpdatesModel>,
    now: Option<UpdatesModel>,
) -> bool {
    match (before, now) {
        (None, None) => !h.recording,
        (Some(b), Some(n)) => {
            &&& h.recording
            &&& b.wiped == n.wiped
            &&& forall|path: Seq<u8>| #[trigger]
                updates_at(h, root, paths, path, b, n)
        },
        _ => false,
    }
}

/// What holds before each step of a run from `root`.
pub open spec fn running(h: Hashing, root: Seq<u8>, before: Option<UpdatesModel>, r: Run) -> bool {
    &&& forall|i: int| 0 <= i < r.paths.len() ==> item_ok(h, #[trigger] r.paths[i])
    &&& forall|i: int, j: int|
        0 <= i < j < r.paths.len() ==> apart(#[trigger] r.paths[i], #[trigger] r.paths[j])
    &&& forall|i: int, j: int|
        0 <= i < r.paths.len() && 0 <= j < r.rlps.len() && (#[trigger] r.paths[i]).touched is None
            ==> !r.paths[i].path.is_prefix_of((#[trigger] r.rlps[j]).path)
    &&& forall|j: int|
        0 <= j < r.rlps.len() ==> (#[trigger] r.rlps[j]).encoded() == h.encoded(r.rlps[j].path)
    &&& shape(h, r.paths, rlp_paths(r.rlps), root)
    &&& forall|path: Seq<u8>| #[trigger] owed(h, r.paths, path) ==> h.visits(root, path)
    &&& r.nodes.dom() == h.nodes.dom()
    &&& forall|path: Seq<u8>| #[trigger]
        r.nodes.contains_key(path) ==> r.nodes[path] == node_now(h, root, r.paths, path)
    &&& updates_now(h, root, r.paths, before, r.updates)
}

/// A bound on the steps for a node that has not been looked at, from the room below it.
pub open spec fn fresh_cost(room: nat) -> nat
    decreases room,
{
    if room == 0 {
        2
    } else {
        2 + 16 * fresh_cost((room - 1) as nat)
    }
}

/// A bound on the steps for a waiting node.
pub open spec fn item_cost(item: PathItem) -> nat {
    match item.touched {
        None => fresh_cost((MAX_PATH_LEN - item.path.len()) as nat),
        Some(_) => 1,
    }
}

/// A bound on the steps for all waiting nodes.
pub open spec fn cost(paths: Seq<PathItem>) -> nat
    decreases paths.len(),
{
    if paths.len() == 0 {
        0
    } else {
        cost(paths.drop_last()) + item_cost(paths.last())
    }
}

// Children.

/// The nibbles of a mask below a bound are in ascending order, within the mask and below it.
pub proof fn lemma_nibbles_below(mask: Set<u8>, bound: int)
    requires
        0 <= bound <= 16,
    ensures
        nibbles_below(mask, bound).len() <= bound,
        forall|i: int|
            0 <= i < nibbles_below(mask, bound).len() ==> (#[trigger] nibbles_below(mask, bound)[i])
                < bound && mask.contains(nibbles_below(mask, bound)[i]),
        forall|i: int, j: int|
            0 <= i < j < nibbles_below(mask, bound).len() ==> #[trigger] nibbles_below(mask, bound)[i]
                < #[trigger] nibbles_below(mask, bound)[j],
        forall|n: u8|
            n < bound && mask.contains(n) ==> #[trigger] nibbles_below(mask, bound).contains(n),
    decreases bound,
{
    if bound > 0 {
        lemma_nibbles_below(mask, bound - 1);
        let below = nibbles_below(mask, bound - 1);
        let all = nibbles_below(mask, bound);
        assert forall|n: u8| n < bound && mask.contains(n) implies #[trigger] all.contains(n) by {
            if n < bound - 1 {
                assert(below.contains(n));
                let i = below.index_of(n);
                assert(all[i] == n);
            } else {
                assert(all[below.len() as int] == n);
            }
        }
    }
}

/// The children of a node have its path as a prefix; none is a prefix of another; and there are at
/// most 16.
pub proof fn lemma_kid_paths(path: Seq<u8>, node: NodeModel)
    ensures
        kid_paths(path, node).len() <= 16,
        forall|i: int|
            0 <= i < kid_paths(path, node).len() ==> path.is_prefix_of(
                #[trigger] kid_paths(path, node)[i],
            ),
        forall|i: int, j: int|
            0 <= i < kid_paths(path, node).len() && 0 <= j < kid_paths(path, node).len() && i != j
                ==> !(#[trigger] kid_paths(path, node)[i]).is_prefix_of(
                #[trigger] kid_paths(path, node)[j],
            ),
{
    let kids = kid_paths(path, node);
    match node {
        NodeModel::Extension { key, .. } => {
            lemma_prefix_pointwise(path, path + key);
        },
        NodeModel::Branch { mask, .. } => {
            lemma_nibbles_below(mask, 16);
            let nibbles = child_nibbles(mask);
            assert forall|i: int| 0 <= i < kids.len() implies path.is_prefix_of(
                #[trigger] kids[i],
            ) by {
                lemma_prefix_pointwise(path, path.push(nibbles[i]));
            }
            assert forall|i: int, j: int|
                0 <= i < kids.len() && 0 <= j < kids.len() && i
                    != j implies !(#[trigger] kids[i]).is_prefix_of(#[trigger] kids[j]) by {
                lemma_prefix_pointwise(kids[i], kids[j]);
                assert(kids[i][path.len() as int] == nibbles[i]);
                assert(kids[j][path.len() as int] == nibbles[j]);
                if i < j {
                    assert(nibbles[i] < nibbles[j]);
                } else {
                    assert(nibbles[j] < nibbles[i]);
                }
            }
        },
        _ => {},
    }
}

/// Hashing visits only what lies below.
pub proof fn lemma_visits_below(h: Hashing, from: Seq<u8>, to: Seq<u8>)
    requires
        h.visits(from, to),
    ensures
        from.is_prefix_of(to),
    decreases MAX_PATH_LEN - from.len(),
{
    if from == to {
        lemma_prefix_pointwise(from, to);
    } else {
        let i = choose|i: int|
            0 <= i < h.kids(from).len() && deeper(from, #[trigger] h.kids(from)[i]) && h.visits(
                h.kids(from)[i],
                to,
            );
        lemma_visits_below(h, h.kids(from)[i], to);
        lemma_kid_paths(from, h.nodes[from]);
        lemma_prefix_transitive(from, h.kids(from)[i], to);
    }
}

/// What a child visits, its parent visits.
pub proof fn lemma_visits_step(h: Hashing, from: Seq<u8>, i: int, to: Seq<u8>)
    requires
        0 <= i < h.kids(from).len(),
        deeper(from, h.kids(from)[i]),
        h.visits(h.kids(from)[i], to),
    ensures
        h.visits(from, to),
{
}

/// Visiting is transitive.
pub proof fn lemma_visits_transitive(h: Hashing, a: Seq<u8>, b: Seq<u8>, c: Seq<u8>)
    requires
        h.visits(a, b),
        h.visits(b, c),
    ensures
        h.visits(a, c),
    decreases MAX_PATH_LEN - a.len(),
{
    if a != b {
        let i = choose|i: int|
            0 <= i < h.kids(a).len() && deeper(a, #[trigger] h.kids(a)[i]) && h.visits(
                h.kids(a)[i],
                b,
            );
        lemma_visits_transitive(h, h.kids(a)[i], b, c);
        lemma_visits_step(h, a, i, c);
    }
}

// The stack.

/// What is owed with one more item.
proof fn lemma_owed_push(h: Hashing, paths: Seq<PathItem>, item: PathItem, path: Seq<u8>)
    ensures
        owed(h, paths.push(item), path) <==> owed(h, paths, path) || covers(h, item, path),
{
    let all = paths.push(item);
    if owed(h, paths, path) {
        let i = choose|i: int| 0 <= i < paths.len() && covers(h, #[trigger] paths[i], path);
        assert(covers(h, all[i], path));
    }
    if covers(h, item, path) {
        assert(covers(h, all[paths.len() as int], path));
    }
}

/// What is owed with more items.
proof fn lemma_owed_add(h: Hashing, paths: Seq<PathItem>, more: Seq<PathItem>, path: Seq<u8>)
    ensures
        owed(h, paths + more, path) <==> owed(h, paths, path) || owed(h, more, path),
{
    let all = paths + more;
    if owed(h, paths, path) {
        let i = choose|i: int| 0 <= i < paths.len() && covers(h, #[trigger] paths[i], path);
        assert(covers(h, all[i], path));
    }
    if owed(h, more, path) {
        let i = choose|i: int| 0 <= i < more.len() && covers(h, #[trigger] more[i], path);
        assert(covers(h, all[paths.len() + i], path));
    }
    if owed(h, all, path) {
        let i = choose|i: int| 0 <= i < all.len() && covers(h, #[trigger] all[i], path);
        if i < paths.len() {
            assert(covers(h, paths[i], path));
        } else {
            assert(covers(h, more[i - paths.len()], path));
        }
    }
}

/// Children that have not been looked at become the latest encoded nodes.
proof fn lemma_shape_kids(
    h: Hashing,
    paths: Seq<PathItem>,
    kids: Seq<Seq<u8>>,
    encoded: Seq<Seq<u8>>,
    root: Seq<u8>,
)
    ensures
        shape(h, paths + fresh_kids(kids), encoded, root) == shape(h, paths, encoded + kids, root),
    decreases kids.len(),
{
    let items = fresh_kids(kids);
    if kids.len() == 0 {
        assert(paths + items =~= paths);
        assert(encoded + kids =~= encoded);
    } else {
        let rest = kids.skip(1);
        let all = paths + items;
        assert(all.last() == fresh(kids[0]));
        assert(all.drop_last() =~= paths + fresh_kids(rest));
        lemma_shape_kids(h, paths, rest, encoded.push(kids[0]), root);
        assert(encoded.push(kids[0]) + rest =~= encoded + kids);
    }
}

/// The cost of items together is the sum of their costs.
proof fn lemma_cost_add(paths: Seq<PathItem>, more: Seq<PathItem>)
    ensures
        cost(paths + more) == cost(paths) + cost(more),
    decreases more.len(),
{
    if more.len() == 0 {
        assert(paths + more =~= paths);
    } else {
        assert((paths + more).drop_last() =~= paths + more.drop_last());
        lemma_cost_add(paths, more.drop_last());
    }
}

/// A node further down costs no more.
proof fn lemma_fresh_cost_monotonic(a: nat, b: nat)
    requires
        a <= b,
    ensures
        fresh_cost(a) <= fresh_cost(b),
    decreases b,
{
    if a < b {
        lemma_fresh_cost_monotonic(a, (b - 1) as nat);
    }
}

/// The children of a node cost less than the node.
proof fn lemma_kids_cost(path: Seq<u8>, kids: Seq<Seq<u8>>)
    requires
        forall|i: int| 0 <= i < kids.len() ==> deeper(path, #[trigger] kids[i]),
    ensures
        kids.len() > 0 ==> cost(fresh_kids(kids)) <= kids.len() * fresh_cost(
            (MAX_PATH_LEN - path.len() - 1) as nat,
        ),
    decreases kids.len(),
{
    if kids.len() > 0 {
        let rest = kids.skip(1);
        let items = fresh_kids(kids);
        let each = fresh_cost((MAX_PATH_LEN - path.len() - 1) as nat);
        assert(deeper(path, kids[0]));
        assert(items.last() == fresh(kids[0]));
        assert(items.drop_last() =~= fresh_kids(rest));
        assert forall|i: int| 0 <= i < rest.len() implies deeper(path, #[trigger] rest[i]) by {
            assert(rest[i] == kids[i + 1]);
        }
        lemma_kids_cost(path, rest);
        lemma_fresh_cost_monotonic(
            (MAX_PATH_LEN - kids[0].len()) as nat,
            (MAX_PATH_LEN - path.len() - 1) as nat,
        );
        assert(item_cost(items.last()) <= each);
        if rest.len() == 0 {
            assert(cost(items.drop_last()) == 0);
        }
        assert(kids.len() * each == rest.len() * each + each) by (nonlinear_arith)
            requires
                kids.len() == rest.len() + 1,
        ;
    }
}

// The run.

/// The first state of a run.
pub open spec fn run_start(h: Hashing, root: Seq<u8>, updates: Option<UpdatesModel>) -> Run {
    Run { paths: seq![fresh(root)], rlps: Seq::empty(), nodes: h.nodes, updates }
}

/// The state after the next step.
pub open spec fn run_step(h: Hashing, r: Run) -> Run {
    let item = r.paths.last();
    let out = rlp_step(
        h.prefix,
        (h.source)(item.path),
        item,
        StepState {
            node: r.nodes[item.path],
            updates: r.updates,
            paths: r.paths.drop_last(),
            rlps: r.rlps,
        },
    );
    Run {
        paths: out.paths,
        rlps: out.rlps,
        nodes: r.nodes.insert(item.path, out.node),
        updates: out.updates,
    }
}

/// All nodes that have been encoded in a run with 33 bytes are encoded as hashes.
pub open spec fn headed_run(h: Hashing, root: Seq<u8>, r: Run) -> bool {
    &&& all_headed(r.rlps)
    &&& forall|path: Seq<u8>| #[trigger]
        h.visits(root, path) && !owed(h, r.paths, path) ==> headed(h.encoded(path).rlp)
}

/// A run starts well.
pub proof fn lemma_start(h: Hashing, root: Seq<u8>, updates: Option<UpdatesModel>)
    requires
        h.recording == (updates is Some),
    ensures
        running(h, root, updates, run_start(h, root, updates)),
        headed_run(h, root, run_start(h, root, updates)),
{
    let r = run_start(h, root, updates);
    assert(rlp_paths(r.rlps) =~= Seq::empty());
    assert(r.paths.drop_last() =~= Seq::empty());
    assert(rlp_paths(r.rlps).push(root) =~= seq![root]);
    assert(shape(h, r.paths.drop_last(), rlp_paths(r.rlps).push(root), root));
    assert forall|path: Seq<u8>| owed(h, r.paths, path) == h.visits(root, path) by {
        if h.visits(root, path) {
            assert(covers(h, r.paths[0], path));
        }
    }
    assert forall|path: Seq<u8>| !done(h, root, r.paths, path) by {
        assert(owed(h, r.paths, path) == h.visits(root, path));
    }
    if updates is Some {
        assert forall|path: Seq<u8>| #[trigger]
            updates_at(h, root, r.paths, path, updates->0, updates->0) by {}
    }
}

/// A run that has worked off all nodes has computed what hashing is.
pub proof fn lemma_end(h: Hashing, root: Seq<u8>, before: Option<UpdatesModel>, r: Run)
    requires
        running(h, root, before, r),
        r.paths.len() == 0,
    ensures
        r.rlps == seq![RlpItem::of(root, h.encoded(root))],
        r.nodes == h.hashed_nodes(root),
        match before {
            Some(b) => r.updates == Some(h.hashed_updates(root, b)),
            None => r.updates is None,
        },
        headed_run(h, root, r) ==> h.headed_from(root),
{
    let encoded = rlp_paths(r.rlps);
    assert(encoded.len() == 1 && encoded[0] == root);
    assert(r.rlps.len() == 1);
    assert(encoded[0] == r.rlps[0].path);
    assert(r.rlps[0].encoded() == h.encoded(root));
    assert(r.rlps =~= seq![RlpItem::of(root, h.encoded(root))]);
    assert forall|path: Seq<u8>| !owed(h, r.paths, path) by {}
    assert(r.nodes =~= h.hashed_nodes(root)) by {
        assert forall|path: Seq<u8>| r.nodes.contains_key(path) implies r.nodes[path]
            == h.hashed_nodes(root)[path] by {
            assert(!owed(h, r.paths, path));
        }
    }
    if before is Some {
        let b = before->0;
        let n = r.updates->0;
        let all = h.hashed_updates(root, b);
        assert forall|path: Seq<u8>|
            #![trigger n.updated.contains_key(path)]
            #![trigger n.updated.dom().contains(path)]
            #![trigger n.removed.contains(path)]
            n.updated.contains_key(path) == all.updated.contains_key(path) && n.removed.contains(
                path,
            ) == all.removed.contains(path) && (n.updated.contains_key(path) ==> n.updated[path]
                == all.updated[path]) by {
            assert(updates_at(h, root, r.paths, path, b, n));
            assert(!owed(h, r.paths, path));
        }
        assert(n.updated.dom() =~= all.updated.dom());
        assert(n.updated =~= all.updated);
        assert(n.removed =~= all.removed);
    }
}

/// A node that is taken off the stack is covered by nothing below it.
proof fn lemma_top_not_owed(h: Hashing, base: Seq<PathItem>, item: PathItem)
    requires
        forall|i: int| 0 <= i < base.len() ==> apart(#[trigger] base[i], item),
    ensures
        !owed(h, base, item.path),
{
    if owed(h, base, item.path) {
        let i = choose|i: int| 0 <= i < base.len() && covers(h, #[trigger] base[i], item.path);
        assert(apart(base[i], item));
        if base[i].touched is None {
            lemma_visits_below(h, base[i].path, item.path);
        } else {
            lemma_prefix_pointwise(item.path, base[i].path);
        }
    }
}

/// The next node to be encoded is there, and as it was at the start.
proof fn lemma_top(h: Hashing, root: Seq<u8>, before: Option<UpdatesModel>, r: Run)
    requires
        running(h, root, before, r),
        h.hashable(root),
        r.paths.len() > 0,
    ensures
        h.visits(root, r.paths.last().path),
        h.node_ok(r.paths.last().path),
        r.nodes.contains_key(r.paths.last().path),
        r.nodes[r.paths.last().path] == h.nodes[r.paths.last().path],
{
    let item = r.paths.last();
    assert(covers(h, item, item.path));
    assert(covers(h, r.paths[r.paths.len() - 1], item.path));
    assert(owed(h, r.paths, item.path));
}

/// What a run is after the next node has been encoded, with its children.
spec fn closed_run(h: Hashing, r: Run) -> Run {
    let p = r.paths.last().path;
    Run {
        paths: r.paths.drop_last(),
        rlps: r.rlps.take(r.rlps.len() - h.kids(p).len()).push(RlpItem::of(p, h.encoded(p))),
        nodes: r.nodes.insert(
            p,
            if h.opens(p) {
                encoded_node(h.nodes[p], h.encoded(p))
            } else {
                h.nodes[p]
            },
        ),
        updates: if h.opens(p) && h.records(p) {
            Some(
                record_branch((h.source)(p), p, h.nodes[p], h.encoded_kids(p), r.updates->0),
            )
        } else {
            r.updates
        },
    }
}

/// A step that encodes a node keeps the run going.
proof fn lemma_close(h: Hashing, root: Seq<u8>, before: Option<UpdatesModel>, r: Run)
    requires
        running(h, root, before, r),
        h.hashable(root),
        r.paths.len() > 0,
        r.paths.last().touched is Some || h.kids(r.paths.last().path).len() == 0,
    ensures
        running(h, root, before, closed_run(h, r)),
        cost(closed_run(h, r).paths) < cost(r.paths),
        forall|path: Seq<u8>| #[trigger]
            owed(h, r.paths, path) ==> owed(h, closed_run(h, r).paths, path) || path
                == r.paths.last().path,
{
    let item = r.paths.last();
    let p = item.path;
    let base = r.paths.drop_last();
    let kids = h.kids(p);
    let c = closed_run(h, r);
    let encoded = rlp_paths(r.rlps);
    assert(base.push(item) =~= r.paths);
    lemma_top(h, root, before, r);
    assert forall|i: int| 0 <= i < base.len() implies apart(#[trigger] base[i], item) by {
        assert(apart(r.paths[i], r.paths[r.paths.len() - 1]));
    }
    lemma_top_not_owed(h, base, item);
    assert forall|path: Seq<u8>| covers(h, item, path) == (path == p) by {
        if item.touched is None && h.visits(p, path) && p != path {
            assert(false);
        }
    }
    assert forall|path: Seq<u8>| #[trigger]
        owed(h, r.paths, path) == (owed(h, base, path) || path == p) by {
        lemma_owed_push(h, base, item, path);
        assert(covers(h, item, path) == (path == p));
    }
    assert forall|path: Seq<u8>| path != p implies done(h, root, base, path) == done(
        h,
        root,
        r.paths,
        path,
    ) by {
        assert(owed(h, r.paths, path) == (owed(h, base, path) || path == p));
    }
    assert(done(h, root, base, p) == h.opens(p));
    assert(owed(h, r.paths, p));
    // The encoded nodes.
    if item.touched is Some {
        assert(encoded.len() >= kids.len());
    }
    assert(rlp_paths(c.rlps) =~= encoded.take(encoded.len() - kids.len()).push(p));
    if item.touched is None {
        assert(encoded.take(encoded.len() - kids.len()) =~= encoded);
    }
    assert(shape(h, c.paths, rlp_paths(c.rlps), root));
    assert forall|i: int, j: int|
        0 <= i < c.paths.len() && 0 <= j < c.rlps.len() && (#[trigger] c.paths[i]).touched
            is None implies !c.paths[i].path.is_prefix_of((#[trigger] c.rlps[j]).path) by {
        assert(c.paths[i] == r.paths[i]);
        if j < c.rlps.len() - 1 {
            assert(c.rlps[j] == r.rlps[j]);
        } else {
            assert(apart(base[i], item));
        }
    }
    assert forall|j: int| 0 <= j < c.rlps.len() implies (#[trigger] c.rlps[j]).encoded()
        == h.encoded(c.rlps[j].path) by {
        if j < c.rlps.len() - 1 {
            assert(c.rlps[j] == r.rlps[j]);
        }
    }
    assert forall|i: int| 0 <= i < c.paths.len() implies item_ok(h, #[trigger] c.paths[i]) by {
        assert(c.paths[i] == r.paths[i]);
    }
    assert forall|i: int, j: int| 0 <= i < j < c.paths.len() implies apart(
        #[trigger] c.paths[i],
        #[trigger] c.paths[j],
    ) by {
        assert(c.paths[i] == r.paths[i]);
        assert(c.paths[j] == r.paths[j]);
    }
    assert forall|path: Seq<u8>| #[trigger] owed(h, c.paths, path) implies h.visits(root, path) by {
        assert(owed(h, r.paths, path) == (owed(h, base, path) || path == p));
    }
    // The nodes.
    assert forall|path: Seq<u8>| #[trigger] c.nodes.contains_key(path) implies c.nodes[path]
        == node_now(h, root, c.paths, path) by {
        if path != p {
            assert(r.nodes.contains_key(path));
            assert(done(h, root, base, path) == done(h, root, r.paths, path));
        }
    }
    assert(c.nodes.dom() =~= h.nodes.dom());
    // The updates.
    if before is Some {
        let b = before->0;
        let n = r.updates->0;
        let m = c.updates->0;
        assert forall|path: Seq<u8>| #[trigger] updates_at(h, root, base, path, b, m) by {
            assert(updates_at(h, root, r.paths, path, b, n));
            if path != p {
                assert(done(h, root, base, path) == done(h, root, r.paths, path));
            }
        }
    }
    assert(updates_now(h, root, c.paths, before, c.updates));
    assert(fresh_cost((MAX_PATH_LEN - p.len()) as nat) >= 2);
}

/// What a run is after the next node was left waiting for its children.
spec fn expanded_run(h: Hashing, r: Run) -> Run {
    let p = r.paths.last().path;
    let again = PathItem { path: p, touched: Some(h.prefix.touches(p)) };
    Run { paths: r.paths.drop_last().push(again) + fresh_kids(h.kids(p)), ..r }
}

/// A step that defers a node until its children are encoded keeps the run going.
proof fn lemma_expand(h: Hashing, root: Seq<u8>, before: Option<UpdatesModel>, r: Run)
    requires
        running(h, root, before, r),
        h.hashable(root),
        r.paths.len() > 0,
        r.paths.last().touched is None,
        h.kids(r.paths.last().path).len() > 0,
    ensures
        running(h, root, before, expanded_run(h, r)),
        cost(expanded_run(h, r).paths) < cost(r.paths),
        forall|path: Seq<u8>| #[trigger]
            owed(h, r.paths, path) ==> owed(h, expanded_run(h, r).paths, path),
{
    let item = r.paths.last();
    let p = item.path;
    let base = r.paths.drop_last();
    let kids = h.kids(p);
    let e = expanded_run(h, r);
    let again = PathItem { path: p, touched: Some(h.prefix.touches(p)) };
    let held = base.push(again);
    let items = fresh_kids(kids);
    let encoded = rlp_paths(r.rlps);
    assert(base.push(item) =~= r.paths);
    lemma_top(h, root, before, r);
    lemma_kid_paths(p, h.nodes[p]);
    assert(deeper(p, kids[0]));
    assert(e.paths =~= held + items);
    assert forall|i: int| 0 <= i < base.len() implies apart(#[trigger] base[i], item) by {
        assert(apart(r.paths[i], r.paths[r.paths.len() - 1]));
    }
    // Each place of the new stack.
    assert forall|i: int| 0 <= i < e.paths.len() implies (#[trigger] e.paths[i]) == if i
        < base.len() {
        r.paths[i]
    } else if i == base.len() {
        again
    } else {
        fresh(kids[kids.len() - 1 - (i - base.len() - 1)])
    } by {}
    assert forall|i: int| 0 <= i < e.paths.len() implies item_ok(h, #[trigger] e.paths[i]) by {}
    assert forall|i: int, j: int| 0 <= i < j < e.paths.len() implies apart(
        #[trigger] e.paths[i],
        #[trigger] e.paths[j],
    ) by {
        let a = e.paths[i];
        let b = e.paths[j];
        if j < base.len() {
            assert(apart(r.paths[i], r.paths[j]));
        } else if i < base.len() {
            assert(apart(base[i], item));
            if j > base.len() {
                let k = kids.len() - 1 - (j - base.len() - 1);
                let kid = kids[k];
                assert(p.is_prefix_of(kid));
                lemma_prefix_pointwise(p, kid);
                lemma_prefix_pointwise(kid, a.path);
                lemma_prefix_pointwise(p, a.path);
                lemma_prefix_pointwise(a.path, kid);
                lemma_prefix_pointwise(a.path, p);
            }
        } else if i == base.len() {
            let k = kids.len() - 1 - (j - base.len() - 1);
            assert(deeper(p, kids[k]));
            lemma_prefix_pointwise(kids[k], p);
        } else {
            let k = kids.len() - 1 - (i - base.len() - 1);
            let l = kids.len() - 1 - (j - base.len() - 1);
            assert(!kids[k].is_prefix_of(kids[l]));
            assert(!kids[l].is_prefix_of(kids[k]));
        }
    }
    assert forall|i: int, j: int|
        0 <= i < e.paths.len() && 0 <= j < e.rlps.len() && (#[trigger] e.paths[i]).touched
            is None implies !e.paths[i].path.is_prefix_of((#[trigger] e.rlps[j]).path) by {
        if i > base.len() {
            let k = kids.len() - 1 - (i - base.len() - 1);
            assert(p.is_prefix_of(kids[k]));
            assert(!r.paths[r.paths.len() - 1].path.is_prefix_of(r.rlps[j].path));
            if kids[k].is_prefix_of(r.rlps[j].path) {
                lemma_prefix_transitive(p, kids[k], r.rlps[j].path);
            }
        } else {
            assert(e.paths[i] == r.paths[i]);
        }
    }
    // The shape.
    lemma_shape_kids(h, held, kids, encoded, root);
    let more = encoded + kids;
    assert(more.skip(more.len() - kids.len()) =~= kids);
    assert(more.take(more.len() - kids.len()) =~= encoded);
    assert(held.drop_last() =~= base);
    assert(held.last() == again);
    assert(shape(h, base, encoded.push(p), root));
    assert(shape(h, held, more, root));
    // What is owed.
    assert forall|path: Seq<u8>| #[trigger] owed(h, e.paths, path) == owed(h, r.paths, path) by {
        lemma_owed_push(h, base, item, path);
        lemma_owed_push(h, base, again, path);
        lemma_owed_add(h, held, items, path);
        if owed(h, items, path) {
            let i = choose|i: int| 0 <= i < items.len() && covers(h, #[trigger] items[i], path);
            let k = kids.len() - 1 - i;
            assert(items[i] == fresh(kids[k]));
            assert(deeper(p, kids[k]));
            lemma_visits_step(h, p, k, path);
        }
        if h.visits(p, path) && p != path {
            let k = choose|k: int|
                0 <= k < h.kids(p).len() && deeper(p, #[trigger] h.kids(p)[k]) && h.visits(
                    h.kids(p)[k],
                    path,
                );
            let i = kids.len() - 1 - k;
            assert(items[i] == fresh(kids[k]));
            assert(covers(h, items[i], path));
        }
    }
    assert forall|path: Seq<u8>| done(h, root, e.paths, path) == done(h, root, r.paths, path) by {
        assert(owed(h, e.paths, path) == owed(h, r.paths, path));
    }
    assert forall|path: Seq<u8>| #[trigger] e.nodes.contains_key(path) implies e.nodes[path]
        == node_now(h, root, e.paths, path) by {
        assert(done(h, root, e.paths, path) == done(h, root, r.paths, path));
    }
    if before is Some {
        assert forall|path: Seq<u8>| #[trigger]
            updates_at(h, root, e.paths, path, before->0, r.updates->0) by {
            assert(updates_at(h, root, r.paths, path, before->0, r.updates->0));
            assert(done(h, root, e.paths, path) == done(h, root, r.paths, path));
        }
    }
    assert(updates_now(h, root, e.paths, before, e.updates));
    // The cost.
    lemma_cost_add(held, items);
    lemma_kids_cost(p, kids);
    let room = (MAX_PATH_LEN - p.len()) as nat;
    let each = fresh_cost((room - 1) as nat);
    assert(kids.len() * each <= 16 * each) by (nonlinear_arith)
        requires
            kids.len() <= 16,
            each >= 0,
    ;
    assert(fresh_cost(room) == 2 + 16 * each);
    assert(cost(held) == cost(base) + 1);
}

/// The next step of a run needs nothing that is missing, keeps the run going and comes closer to
/// its end.
pub proof fn lemma_step(h: Hashing, root: Seq<u8>, before: Option<UpdatesModel>, r: Run)
    requires
        running(h, root, before, r),
        h.hashable(root),
        r.paths.len() > 0,
    ensures
        r.nodes.contains_key(r.paths.last().path),
        h.visits(root, r.paths.last().path),
        step_ok(
            h.prefix,
            (h.source)(r.paths.last().path),
            r.paths.last(),
            StepState {
                node: r.nodes[r.paths.last().path],
                updates: r.updates,
                paths: r.paths.drop_last(),
                rlps: r.rlps,
            },
        ),
        running(h, root, before, run_step(h, r)),
        cost(run_step(h, r).paths) < cost(r.paths),
        headed_run(h, root, r) && all_headed(run_step(h, r).rlps) ==> headed_run(
            h,
            root,
            run_step(h, r),
        ),
{
    let item = r.paths.last();
    let p = item.path;
    let node = h.nodes[p];
    let kids = h.kids(p);
    let all = kid_paths(p, node);
    let encoded = rlp_paths(r.rlps);
    let src = (h.source)(p);
    lemma_top(h, root, before, r);
    lemma_kid_paths(p, node);
    assert(item_ok(h, r.paths[r.paths.len() - 1]));
    assert(cached(h.prefix, item.touched, p, node) == cached(h.prefix, None, p, node));
    assert(r.nodes.insert(p, node) =~= r.nodes);
    if item.touched is None {
        if r.rlps.len() > 0 && all.len() > 0 {
            assert(!r.paths[r.paths.len() - 1].path.is_prefix_of(r.rlps[r.rlps.len() - 1].path));
            assert(p.is_prefix_of(all[all.len() - 1]));
            assert(r.rlps.last().path != all.last());
            if ready(r.rlps, all) {
                assert(r.rlps[r.rlps.len() - all.len() + (all.len() - 1)].path == all[all.len()
                    - 1]);
            }
        }
        if !h.opens(p) {
            lemma_close(h, root, before, r);
            assert(r.rlps.take(r.rlps.len() as int) =~= r.rlps);
        } else if kids.len() == 0 {
            lemma_close(h, root, before, r);
            assert(latest(r.rlps, 0) =~= h.encoded_kids(p));
        } else {
            lemma_expand(h, root, before, r);
        }
    } else {
        let skipped = encoded.skip(encoded.len() - kids.len());
        assert(skipped == kids);
        assert forall|i: int| 0 <= i < kids.len() implies (#[trigger] r.rlps[r.rlps.len()
            - kids.len() + i]).path == kids[i] by {
            assert(skipped[i] == encoded[encoded.len() - kids.len() + i]);
        }
        assert(ready(r.rlps, all));
        assert(latest(r.rlps, kids.len() as int) =~= h.encoded_kids(p)) by {
            assert forall|i: int| 0 <= i < kids.len() implies latest(r.rlps, kids.len() as int)[i]
                == h.encoded_kids(p)[i] by {
                assert(r.rlps[r.rlps.len() - kids.len() + i].path == kids[i]);
                assert(deeper(p, kids[i]));
            }
        }
        lemma_close(h, root, before, r);
    }
    let next = run_step(h, r);
    if headed_run(h, root, r) && all_headed(next.rlps) {
        assert forall|path: Seq<u8>| #[trigger]
            h.visits(root, path) && !owed(h, next.paths, path) implies headed(
            h.encoded(path).rlp,
        ) by {
            if owed(h, r.paths, path) {
                assert(path == p);
                assert(next.rlps[next.rlps.len() - 1].path == p);
            }
        }
    }
}

}
