//! Which nodes stand under a node, and how far below it.

use crate::model::{
    dedup, ids_of, lemma_child, lemma_node, lemma_parent, one_less, position, push_new, subtree,
    subtree_below, subtree_ids, traversal, walk, well_formed,
};
use crate::tree::TraversalStrategy;
use crate::node::NodeView;
use vstd::prelude::*;

verus! {

/// How many generations the node at position `j` stands below the node at
/// position `x`: the number of steps from `j` up to `x`, from a node to
/// its parent. `None` where the way up from `j` does not pass `x`.
pub open spec fn generation<Q, T>(nodes: Seq<NodeView<Q, T>>, x: int, j: int) -> Option<nat>
    decreases j,
{
    if j == x {
        Some(0)
    } else if 0 <= j < nodes.len() && nodes[j].parent is Some {
        let q = position(nodes, nodes[j].parent->0);
        if 0 <= q < j {
            match generation(nodes, x, q) {
                Some(d) => Some(d + 1),
                None => None,
            }
        } else {
            None
        }
    } else {
        None
    }
}

/// Whether `d` generations are within the limit `limit`.
pub open spec fn allows(limit: Option<int>, d: nat) -> bool {
    match limit {
        Some(n) => d == 0 || d <= n,
        None => true,
    }
}

/// Whether the node at position `j` is the node at position `x` or one of
/// its descendants, no more than `limit` generations below it.
pub open spec fn within<Q, T>(nodes: Seq<NodeView<Q, T>>, x: int, j: int, limit: Option<int>) -> bool {
    &&& 0 <= j < nodes.len()
    &&& generation(nodes, x, j) is Some
    &&& allows(limit, generation(nodes, x, j)->0)
}

/// The positions of the nodes of `subtree(nodes, i, limit)`, in the same
/// order.
pub open spec fn reach<Q, T>(nodes: Seq<NodeView<Q, T>>, i: int, limit: Option<int>) -> Seq<int>
    decreases nodes.len() - i, 1int, 0int,
{
    if 0 <= i < nodes.len() {
        if limit is None || limit->0 > 0 {
            seq![i] + reach_below(nodes, i, one_less(limit), nodes[i].children.len() as int)
        } else {
            seq![i]
        }
    } else {
        Seq::empty()
    }
}

/// The positions of the nodes of `subtree_below(nodes, i, limit, k)`, in
/// the same order.
pub open spec fn reach_below<Q, T>(
    nodes: Seq<NodeView<Q, T>>,
    i: int,
    limit: Option<int>,
    k: int,
) -> Seq<int>
    decreases nodes.len() - i, 0int, k,
{
    if 0 <= i < nodes.len() && 0 < k <= nodes[i].children.len() {
        let j = position(nodes, nodes[i].children[k - 1]);
        let before = reach_below(nodes, i, limit, k - 1);
        if i < j < nodes.len() {
            before + reach(nodes, j, limit)
        } else {
            before
        }
    } else {
        Seq::empty()
    }
}

/// The nodes at the positions `at`, in the same order.
pub open spec fn nodes_at<Q, T>(nodes: Seq<NodeView<Q, T>>, at: Seq<int>) -> Seq<NodeView<Q, T>> {
    Seq::new(at.len(), |a: int| nodes[at[a]])
}

/// `reach` lists the positions of the nodes of `subtree`.
pub proof fn lemma_reach_subtree<Q, T>(nodes: Seq<NodeView<Q, T>>, i: int, limit: Option<int>)
    ensures
        subtree(nodes, i, limit) == nodes_at(nodes, reach(nodes, i, limit)),
    decreases nodes.len() - i, 1int, 0int,
{
    if 0 <= i < nodes.len() {
        if limit is None || limit->0 > 0 {
            lemma_reach_subtree_below(nodes, i, one_less(limit), nodes[i].children.len() as int);
        }
    }
    assert(subtree(nodes, i, limit) =~= nodes_at(nodes, reach(nodes, i, limit)));
}

proof fn lemma_reach_subtree_below<Q, T>(
    nodes: Seq<NodeView<Q, T>>,
    i: int,
    limit: Option<int>,
    k: int,
)
    ensures
        subtree_below(nodes, i, limit, k) == nodes_at(nodes, reach_below(nodes, i, limit, k)),
    decreases nodes.len() - i, 0int, k,
{
    if 0 <= i < nodes.len() && 0 < k <= nodes[i].children.len() {
        let j = position(nodes, nodes[i].children[k - 1]);
        lemma_reach_subtree_below(nodes, i, limit, k - 1);
        if i < j < nodes.len() {
            lemma_reach_subtree(nodes, j, limit);
        }
    }
    assert(subtree_below(nodes, i, limit, k) =~= nodes_at(
        nodes,
        reach_below(nodes, i, limit, k),
    ));
}

/// A node that stands under another one stands after it in the tree, or
/// is that node.
pub proof fn lemma_generation_order<Q, T>(nodes: Seq<NodeView<Q, T>>, x: int, j: int)
    requires
        0 <= x,
        generation(nodes, x, j) is Some,
    ensures
        j >= x,
        generation(nodes, x, j) == Some(0nat) <==> j == x,
    decreases j,
{
    if j != x {
        let q = position(nodes, nodes[j].parent->0);
        lemma_generation_order(nodes, x, q);
    }
}

/// A node that stands `d` generations under a child of `x` stands `d + 1`
/// generations under `x`.
pub proof fn lemma_generation_step<Q, T>(nodes: Seq<NodeView<Q, T>>, x: int, c: int, j: int)
    requires
        0 <= x < c < nodes.len(),
        nodes[c].parent is Some,
        position(nodes, nodes[c].parent->0) == x,
        generation(nodes, c, j) is Some,
    ensures
        generation(nodes, x, j) == Some((generation(nodes, c, j)->0 + 1) as nat),
    decreases j,
{
    lemma_generation_order(nodes, c, j);
    if j != c {
        let q = position(nodes, nodes[j].parent->0);
        lemma_generation_step(nodes, x, c, q);
    }
}

/// Of a node that stands under `x`, one ancestor or the node itself is a
/// child of `x`: the node stands one generation less under that child.
pub proof fn lemma_generation_through_child<Q, T>(nodes: Seq<NodeView<Q, T>>, x: int, j: int) -> (k:
    int)
    requires
        well_formed(nodes),
        0 <= x < nodes.len(),
        0 <= j < nodes.len(),
        generation(nodes, x, j) is Some,
        j != x,
    ensures
        0 <= k < nodes[x].children.len(),
        generation(nodes, position(nodes, nodes[x].children[k]), j) == Some(
            (generation(nodes, x, j)->0 - 1) as nat,
        ),
        generation(nodes, x, j)->0 >= 1,
    decreases j,
{
    lemma_parent(nodes, j);
    lemma_node(nodes, j);
    let q = position(nodes, nodes[j].parent->0);
    if q == x {
        let k = choose|k: int|
            0 <= k < nodes[x].children.len() && nodes[x].children[k] == nodes[j].node_id;
        k
    } else {
        let k = lemma_generation_through_child(nodes, x, q);
        let c = position(nodes, nodes[x].children[k]);
        lemma_child(nodes, x, k);
        assert(j != c) by {
            if j == c {
                lemma_node(nodes, x);
            }
        }
        k
    }
}

/// The ancestor of a node that stands a given number of generations above
/// it is one node.
pub proof fn lemma_generation_unique<Q, T>(nodes: Seq<NodeView<Q, T>>, a: int, b: int, j: int)
    requires
        0 <= a,
        0 <= b,
        generation(nodes, a, j) is Some,
        generation(nodes, a, j) == generation(nodes, b, j),
    ensures
        a == b,
    decreases j,
{
    lemma_generation_order(nodes, a, j);
    lemma_generation_order(nodes, b, j);
    if j != a && j != b {
        let q = position(nodes, nodes[j].parent->0);
        lemma_generation_unique(nodes, a, b, q);
    }
}

/// Whether the node at position `j` stands within the limit under one of
/// the first `k` children of the node at position `x`.
pub open spec fn within_child<Q, T>(
    nodes: Seq<NodeView<Q, T>>,
    x: int,
    j: int,
    limit: Option<int>,
    k: int,
) -> bool {
    exists|w: int|
        0 <= w < k && w < nodes[x].children.len() && #[trigger] within(
            nodes,
            position(nodes, nodes[x].children[w]),
            j,
            limit,
        )
}

/// What `reach` holds: the positions of the node and of its descendants
/// within the limit, each once.
pub proof fn lemma_reach<Q, T>(nodes: Seq<NodeView<Q, T>>, x: int, limit: Option<int>)
    requires
        well_formed(nodes),
        0 <= x < nodes.len(),
    ensures
        forall|a: int|
            0 <= a < reach(nodes, x, limit).len() ==> within(
                nodes,
                x,
                #[trigger] reach(nodes, x, limit)[a],
                limit,
            ),
        forall|j: int| #[trigger] within(nodes, x, j, limit) ==> reach(nodes, x, limit).contains(j),
        reach(nodes, x, limit).no_duplicates(),
        reach(nodes, x, limit).len() >= 1,
        reach(nodes, x, limit)[0] == x,
    decreases nodes.len() - x, 1int, 0int,
{
    let all = reach(nodes, x, limit);
    lemma_node(nodes, x);
    if limit is None || limit->0 > 0 {
        let deeper = one_less(limit);
        let n = nodes[x].children.len() as int;
        let below = reach_below(nodes, x, deeper, n);
        lemma_reach_below(nodes, x, deeper, n);
        assert(all == seq![x] + below);
        assert forall|a: int| 0 <= a < all.len() implies within(nodes, x, #[trigger] all[a], limit) by {
            if a > 0 {
                let j = below[a - 1];
                assert(all[a] == j);
                assert(within_child(nodes, x, j, deeper, n));
                let w = choose|w: int|
                    0 <= w < n && w < nodes[x].children.len() && #[trigger] within(
                        nodes,
                        position(nodes, nodes[x].children[w]),
                        j,
                        deeper,
                    );
                lemma_child(nodes, x, w);
                lemma_generation_step(nodes, x, position(nodes, nodes[x].children[w]), j);
            }
        }
        assert forall|j: int| #[trigger] within(nodes, x, j, limit) implies all.contains(j) by {
            if j == x {
                assert(all[0] == x);
            } else {
                let w = lemma_generation_through_child(nodes, x, j);
                let c = position(nodes, nodes[x].children[w]);
                assert(within(nodes, c, j, deeper));
                assert(within_child(nodes, x, j, deeper, n));
                assert(below.contains(j));
                let b = choose|b: int| 0 <= b < below.len() && below[b] == j;
                assert(all[b + 1] == j);
            }
        }
        assert forall|b: int| 0 <= b < below.len() implies below[b] != x by {
            let j = below[b];
            assert(within_child(nodes, x, j, deeper, n));
            let w = choose|w: int|
                0 <= w < n && w < nodes[x].children.len() && #[trigger] within(
                    nodes,
                    position(nodes, nodes[x].children[w]),
                    j,
                    deeper,
                );
            lemma_child(nodes, x, w);
            lemma_generation_order(nodes, position(nodes, nodes[x].children[w]), j);
        }
        assert(all.no_duplicates());
    } else {
        assert(all == seq![x]);
        assert forall|j: int| #[trigger] within(nodes, x, j, limit) implies all.contains(j) by {
            lemma_generation_order(nodes, x, j);
            if j != x {
                let w = lemma_generation_through_child(nodes, x, j);
            }
            assert(all[0] == x);
        }
    }
}

/// What `reach_below` holds: the positions of the nodes that stand within
/// the limit under one of the first `k` children, each once.
pub proof fn lemma_reach_below<Q, T>(
    nodes: Seq<NodeView<Q, T>>,
    x: int,
    limit: Option<int>,
    k: int,
)
    requires
        well_formed(nodes),
        0 <= x < nodes.len(),
        0 <= k <= nodes[x].children.len(),
    ensures
        forall|a: int|
            0 <= a < reach_below(nodes, x, limit, k).len() ==> within_child(
                nodes,
                x,
                #[trigger] reach_below(nodes, x, limit, k)[a],
                limit,
                k,
            ),
        forall|j: int| #[trigger]
            within_child(nodes, x, j, limit, k) ==> reach_below(nodes, x, limit, k).contains(j),
        reach_below(nodes, x, limit, k).no_duplicates(),
    decreases nodes.len() - x, 0int, k,
{
    let all = reach_below(nodes, x, limit, k);
    if k > 0 {
        let before = reach_below(nodes, x, limit, k - 1);
        let c = position(nodes, nodes[x].children[k - 1]);
        lemma_child(nodes, x, k - 1);
        lemma_node(nodes, x);
        let here = reach(nodes, c, limit);
        lemma_reach_below(nodes, x, limit, k - 1);
        lemma_reach(nodes, c, limit);
        assert(all == before + here);
        assert forall|a: int| 0 <= a < all.len() implies within_child(
            nodes,
            x,
            #[trigger] all[a],
            limit,
            k,
        ) by {
            if a < before.len() {
                let j = before[a];
                assert(within_child(nodes, x, j, limit, k - 1));
                let w = choose|w: int|
                    0 <= w < k - 1 && w < nodes[x].children.len() && #[trigger] within(
                        nodes,
                        position(nodes, nodes[x].children[w]),
                        j,
                        limit,
                    );
                assert(within(nodes, position(nodes, nodes[x].children[w]), j, limit));
            } else {
                let j = here[a - before.len()];
                assert(within(nodes, position(nodes, nodes[x].children[k - 1]), j, limit));
            }
        }
        assert forall|j: int| #[trigger] within_child(nodes, x, j, limit, k) implies all.contains(
            j,
        ) by {
            let w = choose|w: int|
                0 <= w < k && w < nodes[x].children.len() && #[trigger] within(
                    nodes,
                    position(nodes, nodes[x].children[w]),
                    j,
                    limit,
                );
            if w < k - 1 {
                assert(within_child(nodes, x, j, limit, k - 1));
                let b = choose|b: int| 0 <= b < before.len() && before[b] == j;
                assert(all[b] == j);
            } else {
                assert(here.contains(j));
                let b = choose|b: int| 0 <= b < here.len() && here[b] == j;
                assert(all[before.len() + b] == j);
            }
        }
        assert forall|a: int, b: int|
            0 <= a < before.len() && 0 <= b < here.len() implies before[a] != here[b] by {
            let j = before[a];
            if j == here[b] {
                assert(within_child(nodes, x, j, limit, k - 1));
                let w = choose|w: int|
                    0 <= w < k - 1 && w < nodes[x].children.len() && #[trigger] within(
                        nodes,
                        position(nodes, nodes[x].children[w]),
                        j,
                        limit,
                    );
                let other = position(nodes, nodes[x].children[w]);
                lemma_child(nodes, x, w);
                lemma_generation_step(nodes, x, other, j);
                lemma_generation_step(nodes, x, c, j);
                lemma_generation_unique(nodes, other, c, j);
                assert(nodes[x].children[w] == nodes[x].children[k - 1]);
            }
        }
        vstd::seq_lib::lemma_no_dup_in_concat(before, here);
    }
}

/// The ids of the nodes of a subtree: the ids of the node and of its
/// descendants within the limit, each once.
pub proof fn lemma_subtree<Q, T>(nodes: Seq<NodeView<Q, T>>, x: int, limit: Option<int>)
    requires
        well_formed(nodes),
        0 <= x < nodes.len(),
    ensures
        subtree(nodes, x, limit).len() == reach(nodes, x, limit).len(),
        ids_of(subtree(nodes, x, limit)).no_duplicates(),
        forall|j: int|
            0 <= j < nodes.len() ==> (ids_of(subtree(nodes, x, limit)).contains(
                (#[trigger] nodes[j]).node_id,
            ) <==> within(nodes, x, j, limit)),
        forall|id: Q| #[trigger]
            ids_of(subtree(nodes, x, limit)).contains(id) ==> 0 <= position(nodes, id)
                < nodes.len() && nodes[position(nodes, id)].node_id == id,
{
    let at = reach(nodes, x, limit);
    let part = subtree(nodes, x, limit);
    let ids = ids_of(part);
    lemma_reach(nodes, x, limit);
    lemma_reach_subtree(nodes, x, limit);
    assert forall|a: int| 0 <= a < ids.len() implies 0 <= at[a] < nodes.len() && #[trigger] ids[a]
        == nodes[at[a]].node_id && position(nodes, ids[a]) == at[a] by {
        assert(within(nodes, x, at[a], limit));
        lemma_node(nodes, at[a]);
    }
    assert forall|a: int, b: int| 0 <= a < ids.len() && 0 <= b < ids.len() && a != b implies ids[a]
        != ids[b] by {
        assert(position(nodes, ids[a]) == at[a]);
        assert(position(nodes, ids[b]) == at[b]);
    }
    assert forall|j: int| 0 <= j < nodes.len() implies (ids.contains((#[trigger] nodes[j]).node_id)
        <==> within(nodes, x, j, limit)) by {
        lemma_node(nodes, j);
        if ids.contains(nodes[j].node_id) {
            let a = choose|a: int| 0 <= a < ids.len() && ids[a] == nodes[j].node_id;
            assert(position(nodes, ids[a]) == at[a]);
            assert(within(nodes, x, at[a], limit));
        }
        if within(nodes, x, j, limit) {
            assert(at.contains(j));
            let a = choose|a: int| 0 <= a < at.len() && at[a] == j;
            assert(ids[a] == nodes[j].node_id);
        }
    }
    assert forall|id: Q| #[trigger] ids.contains(id) implies 0 <= position(nodes, id) < nodes.len()
        && nodes[position(nodes, id)].node_id == id by {
        let a = choose|a: int| 0 <= a < ids.len() && ids[a] == id;
        assert(position(nodes, ids[a]) == at[a]);
    }
}

/// Whether `ids` holds the ids of the node at position `x` and of its
/// descendants within the limit, each once, and no other id.
pub open spec fn lists_descendants<Q, T>(
    nodes: Seq<NodeView<Q, T>>,
    x: int,
    limit: Option<int>,
    ids: Seq<Q>,
) -> bool {
    &&& ids.no_duplicates()
    &&& forall|j: int|
        0 <= j < nodes.len() ==> (ids.contains((#[trigger] nodes[j]).node_id) <==> within(
            nodes,
            x,
            j,
            limit,
        ))
    &&& forall|id: Q| #[trigger] ids.contains(id) ==> crate::model::has_id(nodes, id)
}

/// The ids of the nodes of a subtree are the ids of its first node and of
/// the descendants of that node within the limit, each once.
pub proof fn lemma_subtree_lists_descendants<Q, T>(
    nodes: Seq<NodeView<Q, T>>,
    x: int,
    limit: Option<int>,
)
    requires
        well_formed(nodes),
        0 <= x < nodes.len(),
    ensures
        lists_descendants(nodes, x, limit, ids_of(subtree(nodes, x, limit))),
        subtree(nodes, x, limit).len() >= 1,
        subtree(nodes, x, limit)[0] == nodes[x],
{
    lemma_subtree(nodes, x, limit);
    lemma_reach(nodes, x, limit);
    lemma_reach_subtree(nodes, x, limit);
    assert forall|id: Q| #[trigger] ids_of(subtree(nodes, x, limit)).contains(id) implies crate::model::has_id(
        nodes,
        id,
    ) by {
        crate::model::lemma_position(nodes, id);
    }
}

/// A subtree without generations below its first node is that node alone.
pub proof fn lemma_subtree_alone<Q, T>(nodes: Seq<NodeView<Q, T>>, x: int, n: int)
    requires
        0 <= x < nodes.len(),
        n <= 0,
    ensures
        subtree(nodes, x, Some(n)) == seq![nodes[x]],
        subtree(nodes, x, Some(n)).len() == 1,
{
}

/// A subtree has as many nodes as stand within its limit under its first
/// node, that node counted.
pub proof fn lemma_subtree_count<Q, T>(nodes: Seq<NodeView<Q, T>>, x: int, limit: Option<int>)
    requires
        well_formed(nodes),
        0 <= x < nodes.len(),
    ensures
        Set::new(|j: int| within(nodes, x, j, limit)).finite(),
        subtree(nodes, x, limit).len() == Set::new(|j: int| within(nodes, x, j, limit)).len(),
{
    let at = reach(nodes, x, limit);
    lemma_reach(nodes, x, limit);
    lemma_reach_subtree(nodes, x, limit);
    at.unique_seq_to_set();
    vstd::seq_lib::seq_to_set_is_finite(at);
    assert(at.to_set() =~= Set::new(|j: int| within(nodes, x, j, limit))) by {
        assert forall|j: int| at.to_set().contains(j) implies within(nodes, x, j, limit) by {
            let a = choose|a: int| 0 <= a < at.len() && at[a] == j;
            assert(within(nodes, x, at[a], limit));
        }
    }
}

/// Every node of a tree is its first node or stands under it.
pub proof fn lemma_all_under_root<Q, T>(nodes: Seq<NodeView<Q, T>>, j: int)
    requires
        well_formed(nodes),
        0 <= j < nodes.len(),
    ensures
        within(nodes, 0, j, None),
    decreases j,
{
    if j != 0 {
        crate::model::lemma_root_is_first(nodes);
        assert(nodes[j].parent is Some) by {
            reveal(well_formed);
        }
        lemma_parent(nodes, j);
        lemma_all_under_root(nodes, position(nodes, nodes[j].parent->0));
    }
}

/// Taking the repetitions out leaves no repetition, and no element out.
pub proof fn lemma_dedup<Q>(s: Seq<Q>)
    ensures
        dedup(s).no_duplicates(),
        forall|id: Q| #[trigger] dedup(s).contains(id) <==> s.contains(id),
{
    lemma_remove_duplicates_unique(s, Seq::empty());
    s.lemma_remove_duplicates_properties(Seq::empty());
    assert(s + Seq::<Q>::empty() =~= s);
}

proof fn lemma_remove_duplicates_unique<Q>(s: Seq<Q>, seen: Seq<Q>)
    requires
        seen.no_duplicates(),
    ensures
        s.remove_duplicates(seen).no_duplicates(),
    decreases s.len(),
{
    if s.len() > 0 {
        if seen.contains(s[0]) {
            lemma_remove_duplicates_unique(s.skip(1), seen);
        } else {
            let more = seen + seq![s[0]];
            assert forall|a: int, b: int|
                0 <= a < more.len() && 0 <= b < more.len() && a != b implies more[a] != more[b] by {
                if a == seen.len() {
                    assert(seen.contains(seen[b]));
                } else if b == seen.len() {
                    assert(seen.contains(seen[a]));
                }
            }
            lemma_remove_duplicates_unique(s.skip(1), more);
        }
    }
}

/// Whether `id` is the id of one of the nodes under the first `k` children
/// of the node at position `x`, those children counted.
spec fn under_children<Q, T>(nodes: Seq<NodeView<Q, T>>, x: int, k: int, id: Q) -> bool {
    ids_of(subtree_below(nodes, x, None, k)).contains(id)
}

/// The ids of the nodes under the first `k` children: those under the
/// first `k - 1`, and those under the `k`-th.
proof fn lemma_under_children_step<Q, T>(nodes: Seq<NodeView<Q, T>>, x: int, k: int, id: Q)
    requires
        well_formed(nodes),
        0 <= x < nodes.len(),
        0 < k <= nodes[x].children.len(),
    ensures
        under_children(nodes, x, k, id) <==> under_children(nodes, x, k - 1, id) || subtree_ids(
            nodes,
            position(nodes, nodes[x].children[k - 1]),
        ).contains(id),
{
    lemma_child(nodes, x, k - 1);
    let c = position(nodes, nodes[x].children[k - 1]);
    let before = ids_of(subtree_below(nodes, x, None, k - 1));
    let here = subtree_ids(nodes, c);
    let all = ids_of(subtree_below(nodes, x, None, k));
    assert(all =~= before + here);
    if all.contains(id) {
        let a = choose|a: int| 0 <= a < all.len() && all[a] == id;
        if a < before.len() {
            assert(before[a] == id);
        } else {
            assert(here[a - before.len()] == id);
        }
    }
    if before.contains(id) {
        let a = choose|a: int| 0 <= a < before.len() && before[a] == id;
        assert(all[a] == id);
    }
    if here.contains(id) {
        let a = choose|a: int| 0 <= a < here.len() && here[a] == id;
        assert(all[before.len() + a] == id);
    }
}

/// The ids of a node and its descendants: the id of the node, and the ids
/// of the nodes under its children.
proof fn lemma_subtree_ids_unfold<Q, T>(nodes: Seq<NodeView<Q, T>>, x: int, id: Q)
    requires
        0 <= x < nodes.len(),
    ensures
        subtree_ids(nodes, x).contains(id) <==> id == nodes[x].node_id || under_children(
            nodes,
            x,
            nodes[x].children.len() as int,
            id,
        ),
        subtree_ids(nodes, x).contains(nodes[x].node_id),
{
    let n = nodes[x].children.len() as int;
    let below = ids_of(subtree_below(nodes, x, None, n));
    let all = subtree_ids(nodes, x);
    assert(one_less(None) == None::<int>);
    assert(all =~= seq![nodes[x].node_id] + below);
    assert(all[0] == nodes[x].node_id);
    if all.contains(id) {
        let a = choose|a: int| 0 <= a < all.len() && all[a] == id;
        if a > 0 {
            assert(below[a - 1] == id);
        }
    }
    if below.contains(id) {
        let a = choose|a: int| 0 <= a < below.len() && below[a] == id;
        assert(all[a + 1] == id);
    }
}

/// The ids that a traversal holds before its repetitions are taken out.
spec fn visited<Q, T>(
    nodes: Seq<NodeView<Q, T>>,
    x: int,
    order: TraversalStrategy,
) -> Seq<Q> {
    let walked = walk(nodes, x, order, nodes[x].children.len() as int);
    match order {
        TraversalStrategy::PreOrder => seq![nodes[x].node_id] + walked,
        TraversalStrategy::PostOrder => walked.push(nodes[x].node_id),
        TraversalStrategy::InOrder => walked,
    }
}

/// A traversal visits every node that stands under the node it starts
/// from, that node counted, and no other: each of them once. The one
/// exception: in in-order, from a node without children, it visits
/// nothing.
pub proof fn lemma_traversal<Q, T>(nodes: Seq<NodeView<Q, T>>, x: int, order: TraversalStrategy)
    requires
        well_formed(nodes),
        0 <= x < nodes.len(),
    ensures
        traversal(nodes, x, order).no_duplicates(),
        order is InOrder && nodes[x].children.len() == 0 ==> traversal(nodes, x, order)
            == Seq::<Q>::empty(),
        !(order is InOrder && nodes[x].children.len() == 0) ==> forall|id: Q| #[trigger]
            traversal(nodes, x, order).contains(id) <==> subtree_ids(nodes, x).contains(id),
    decreases nodes.len() - x, 1int, 0int,
{
    let n = nodes[x].children.len() as int;
    let inner = visited(nodes, x, order);
    assert(traversal(nodes, x, order) == dedup(inner));
    lemma_dedup(inner);
    lemma_walk(nodes, x, order, n);
    let walked = walk(nodes, x, order, n);
    if order is InOrder && n == 0 {
        assert(inner =~= Seq::<Q>::empty());
        assert(dedup(inner) =~= Seq::<Q>::empty()) by {
            reveal_with_fuel(Seq::remove_duplicates, 1);
        }
    } else {
        assert forall|id: Q| #[trigger]
            traversal(nodes, x, order).contains(id) <==> subtree_ids(nodes, x).contains(id) by {
            lemma_subtree_ids_unfold(nodes, x, id);
            if inner.contains(id) {
                let a = choose|a: int| 0 <= a < inner.len() && inner[a] == id;
                match order {
                    TraversalStrategy::PreOrder => {
                        if a > 0 {
                            assert(walked[a - 1] == id);
                        }
                    },
                    TraversalStrategy::PostOrder => {
                        if a < walked.len() {
                            assert(walked[a] == id);
                        }
                    },
                    TraversalStrategy::InOrder => {},
                }
            }
            if id == nodes[x].node_id {
                match order {
                    TraversalStrategy::PreOrder => {
                        assert(inner[0] == id);
                    },
                    TraversalStrategy::PostOrder => {
                        assert(inner[walked.len() as int] == id);
                    },
                    TraversalStrategy::InOrder => {},
                }
            }
            if walked.contains(id) {
                let a = choose|a: int| 0 <= a < walked.len() && walked[a] == id;
                match order {
                    TraversalStrategy::PreOrder => {
                        assert(inner[a + 1] == id);
                    },
                    TraversalStrategy::PostOrder => {
                        assert(inner[a] == id);
                    },
                    TraversalStrategy::InOrder => {},
                }
            }
        }
    }
}

/// What the first `k` children contribute to a traversal: the ids of the
/// nodes under them, and in in-order the id of the node itself as well.
proof fn lemma_walk<Q, T>(nodes: Seq<NodeView<Q, T>>, x: int, order: TraversalStrategy, k: int)
    requires
        well_formed(nodes),
        0 <= x < nodes.len(),
        0 <= k <= nodes[x].children.len(),
    ensures
        forall|id: Q| #[trigger]
            walk(nodes, x, order, k).contains(id) <==> (under_children(nodes, x, k, id) || (
            order is InOrder && k > 0 && id == nodes[x].node_id)),
    decreases nodes.len() - x, 0int, k,
{
    let all = walk(nodes, x, order, k);
    if k == 0 {
        assert(all =~= Seq::<Q>::empty());
        assert(ids_of(subtree_below(nodes, x, None, 0)) =~= Seq::<Q>::empty());
    } else {
        let child = nodes[x].children[k - 1];
        let c = position(nodes, child);
        lemma_child(nodes, x, k - 1);
        let before = walk(nodes, x, order, k - 1);
        let below = traversal(nodes, c, order);
        lemma_walk(nodes, x, order, k - 1);
        lemma_traversal(nodes, c, order);
        assert forall|id: Q| #[trigger]
            all.contains(id) <==> (under_children(nodes, x, k, id) || (order is InOrder && id
                == nodes[x].node_id)) by {
            lemma_under_children_step(nodes, x, k, id);
            lemma_subtree_ids_unfold(nodes, c, id);
            lemma_subtree_ids_unfold(nodes, c, child);
            // What the child contributes in in-order: itself and its
            // descendants.
            let leaf = nodes[c].children.len() == 0;
            if leaf {
                assert(ids_of(subtree_below(nodes, c, None, 0)) =~= Seq::<Q>::empty());
            }
            if order is InOrder {
                if k == 1 {
                    assert(before =~= Seq::<Q>::empty());
                    assert(ids_of(subtree_below(nodes, x, None, 0)) =~= Seq::<Q>::empty());
                    let with_child = push_new(below, child);
                    assert(all == push_new(with_child, nodes[x].node_id));
                    lemma_push_new(below, child, id);
                    lemma_push_new(with_child, nodes[x].node_id, id);
                } else {
                    assert(all == before.push(child) + below);
                    lemma_contains_concat(before.push(child), below, id);
                    lemma_push_contains(before, child, id);
                }
            } else {
                assert(all == before + below);
                lemma_contains_concat(before, below, id);
            }
        }
    }
}

/// What `push_new` holds.
proof fn lemma_push_new<Q>(s: Seq<Q>, x: Q, id: Q)
    ensures
        push_new(s, x).contains(id) <==> s.contains(id) || id == x,
{
    lemma_push_contains(s, x, id);
}

/// What a sequence holds after an element was appended.
proof fn lemma_push_contains<Q>(s: Seq<Q>, x: Q, id: Q)
    ensures
        s.push(x).contains(id) <==> s.contains(id) || id == x,
{
    let more = s.push(x);
    if more.contains(id) {
        let a = choose|a: int| 0 <= a < more.len() && more[a] == id;
        if a < s.len() {
            assert(s[a] == id);
        }
    }
    if s.contains(id) {
        let a = choose|a: int| 0 <= a < s.len() && s[a] == id;
        assert(more[a] == id);
    }
    if id == x {
        assert(more[s.len() as int] == id);
    }
}

/// What two sequences put one after the other hold.
proof fn lemma_contains_concat<Q>(a: Seq<Q>, b: Seq<Q>, id: Q)
    ensures
        (a + b).contains(id) <==> a.contains(id) || b.contains(id),
{
    let all = a + b;
    if all.contains(id) {
        let w = choose|w: int| 0 <= w < all.len() && all[w] == id;
        if w < a.len() {
            assert(a[w] == id);
        } else {
            assert(b[w - a.len()] == id);
        }
    }
    if a.contains(id) {
        let w = choose|w: int| 0 <= w < a.len() && a[w] == id;
        assert(all[w] == id);
    }
    if b.contains(id) {
        let w = choose|w: int| 0 <= w < b.len() && b[w] == id;
        assert(all[a.len() + w] == id);
    }
}

/// A traversal from a node visits the nodes that are that node or one of
/// its descendants, each once, and no other id. (In in-order this is so
/// from a node that has children.)
pub proof fn lemma_traversal_visits_descendants<Q, T>(
    nodes: Seq<NodeView<Q, T>>,
    x: int,
    order: TraversalStrategy,
)
    requires
        well_formed(nodes),
        0 <= x < nodes.len(),
        order is InOrder ==> nodes[x].children.len() > 0,
    ensures
        lists_descendants(nodes, x, None, traversal(nodes, x, order)),
{
    lemma_traversal(nodes, x, order);
    lemma_subtree(nodes, x, None);
    assert forall|id: Q| #[trigger] traversal(nodes, x, order).contains(id) implies crate::model::has_id(
        nodes,
        id,
    ) by {
        assert(subtree_ids(nodes, x).contains(id));
        crate::model::lemma_position(nodes, id);
    }
}

/// A traversal from the root of a tree visits every node of the tree
/// once, and no other id. (In in-order this is so where the root has
/// children.)
pub proof fn lemma_traversal_visits_tree<Q, T>(nodes: Seq<NodeView<Q, T>>, order: TraversalStrategy)
    requires
        well_formed(nodes),
        nodes.len() > 0,
        order is InOrder ==> nodes[0].children.len() > 0,
    ensures
        crate::model::root_position(nodes) == 0,
        traversal(nodes, 0, order).no_duplicates(),
        traversal(nodes, 0, order).len() == nodes.len(),
        forall|j: int|
            0 <= j < nodes.len() ==> traversal(nodes, 0, order).contains(
                (#[trigger] nodes[j]).node_id,
            ),
        forall|id: Q| #[trigger]
            traversal(nodes, 0, order).contains(id) ==> crate::model::has_id(nodes, id),
{
    let visit = traversal(nodes, 0, order);
    crate::model::lemma_root_is_first(nodes);
    lemma_traversal_visits_descendants(nodes, 0, order);
    assert forall|j: int| 0 <= j < nodes.len() implies visit.contains(
        (#[trigger] nodes[j]).node_id,
    ) by {
        lemma_all_under_root(nodes, j);
    }
    // As many visits as nodes: both are the ids of the tree, each once.
    let ids = ids_of(nodes);
    assert(ids.no_duplicates()) by {
        assert forall|a: int, b: int|
            0 <= a < ids.len() && 0 <= b < ids.len() && a != b implies ids[a] != ids[b] by {
            lemma_node(nodes, a);
            lemma_node(nodes, b);
        }
    }
    visit.unique_seq_to_set();
    ids.unique_seq_to_set();
    assert(visit.to_set() =~= ids.to_set()) by {
        assert forall|id: Q| visit.to_set().contains(id) implies ids.to_set().contains(id) by {
            crate::model::lemma_position(nodes, id);
            assert(ids[position(nodes, id)] == id);
        }
        assert forall|id: Q| ids.to_set().contains(id) implies visit.to_set().contains(id) by {
            let j = choose|j: int| 0 <= j < ids.len() && ids[j] == id;
            assert(visit.contains(nodes[j].node_id));
        }
    }
}

} // verus!
