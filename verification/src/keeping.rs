//! The operations of a tree keep its invariant.

use crate::model::{
    children_linked, detached, distinct_ids, handed_over, has_id, has_root, ids_of, lemma_child,
    lemma_node, lemma_parent, lemma_position, lemma_position_absent, lemma_position_is,
    lemma_position_same_ids, lemma_root_is_first, parents_linked, position, single_root, subtree,
    subtree_ids, well_formed, with_node, with_subtree, without_node, without_subtree,
};
use crate::node::{without, NodeView};
use crate::reach::{lemma_subtree, within};
use vstd::prelude::*;

verus! {

/// A node as `Node::new` makes it: without children and without a parent.
pub open spec fn is_fresh<Q, T>(node: NodeView<Q, T>) -> bool {
    node.children.len() == 0 && node.parent is None
}

/// A tree without nodes keeps the invariant.
pub proof fn lemma_empty_well_formed<Q, T>()
    ensures
        well_formed(Seq::<NodeView<Q, T>>::empty()),
{
    reveal(well_formed);
}

/// Where an id stands after a node was appended.
pub proof fn lemma_position_push<Q, T>(nodes: Seq<NodeView<Q, T>>, node: NodeView<Q, T>, id: Q)
    ensures
        has_id(nodes, id) ==> position(nodes.push(node), id) == position(nodes, id),
        !has_id(nodes, id) && node.node_id == id ==> position(nodes.push(node), id) == nodes.len(),
        has_id(nodes.push(node), id) <==> has_id(nodes, id) || node.node_id == id,
{
    let more = nodes.push(node);
    lemma_position(nodes, id);
    if has_id(nodes, id) {
        let p = position(nodes, id);
        assert(more[p] == nodes[p]);
        assert forall|j: int| 0 <= j < p implies (#[trigger] more[j]).node_id != id by {
            assert(more[j] == nodes[j]);
            assert(nodes[j].node_id != id);
        }
        lemma_position_is(more, id, p);
    } else if node.node_id == id {
        assert forall|j: int| 0 <= j < nodes.len() implies (#[trigger] more[j]).node_id != id by {
            assert(more[j] == nodes[j]);
            assert(nodes[j].node_id != id);
        }
        assert(more[nodes.len() as int].node_id == id);
        lemma_position_is(more, id, nodes.len() as int);
    } else {
        assert forall|j: int| 0 <= j < more.len() implies (#[trigger] more[j]).node_id != id by {
            if j < nodes.len() {
                assert(more[j] == nodes[j]);
                assert(nodes[j].node_id != id);
            }
        }
        lemma_position_absent(more, id);
    }
}

/// Adding a fresh node with a new id keeps the invariant of a tree.
pub proof fn lemma_with_node_well_formed<Q, T>(
    nodes: Seq<NodeView<Q, T>>,
    node: NodeView<Q, T>,
    parent: Option<Q>,
)
    requires
        well_formed(nodes),
        is_fresh(node),
        !has_id(nodes, node.node_id),
        match parent {
            Some(p) => has_id(nodes, p),
            None => !has_root(nodes),
        },
    ensures
        well_formed(with_node(nodes, node, parent)),
{
    let after = with_node(nodes, node, parent);
    let n = nodes.len() as int;
    match parent {
        None => {
            if n > 0 {
                lemma_root_is_first(nodes);
            }
            assert(after =~= seq![node]);
            reveal(well_formed);
            assert(after[0].children.len() == 0);
        },
        Some(p) => {
            let at = position(nodes, p);
            lemma_position(nodes, p);
            let grown = nodes.update(
                at,
                NodeView { children: nodes[at].children.push(node.node_id), ..nodes[at] },
            );
            let added = NodeView { parent: Some(p), ..node };
            assert(after == grown.push(added));
            assert(after.len() == n + 1);
            assert forall|i: int| 0 <= i < n implies (#[trigger] after[i]).node_id
                == nodes[i].node_id && after[i].parent == nodes[i].parent && (i != at
                ==> after[i].children == nodes[i].children) by {}
            // Every id of the old tree stands where it stood.
            assert forall|id: Q| has_id(nodes, id) implies #[trigger] position(after, id)
                == position(nodes, id) by {
                lemma_position_same_ids(grown, nodes, id);
                lemma_position_push(grown, added, id);
            }
            assert(position(after, node.node_id) == n) by {
                lemma_position_same_ids(grown, nodes, node.node_id);
                lemma_position_push(grown, added, node.node_id);
            }
            assert(distinct_ids(after)) by {
                reveal(well_formed);
                assert forall|i: int, j: int| 0 <= i < j < after.len() implies (
                #[trigger] after[i]).node_id != (#[trigger] after[j]).node_id by {
                    if j == n {
                        assert(nodes[i].node_id != node.node_id);
                    } else {
                        assert(nodes[i].node_id != nodes[j].node_id);
                    }
                }
            }
            assert(children_linked(after)) by {
                assert forall|i: int, k: int|
                    0 <= i < after.len() && 0 <= k < after[i].children.len() implies ({
                    let j = position(after, #[trigger] after[i].children[k]);
                    i < j < after.len() && after[j].parent == Some(after[i].node_id)
                }) by {
                    if i < n && k < nodes[i].children.len() {
                        lemma_child(nodes, i, k);
                        let c = nodes[i].children[k];
                        assert(after[i].children[k] == c);
                        assert(position(after, c) == position(nodes, c));
                    } else {
                        assert(i == at && k == nodes[at].children.len());
                        assert(after[i].children[k] == node.node_id);
                    }
                }
                assert forall|i: int| 0 <= i < after.len() implies (
                #[trigger] after[i]).children.no_duplicates() by {
                    if i < n {
                        lemma_node(nodes, i);
                        if i == at {
                            let old_children = nodes[at].children;
                            assert forall|k: int| 0 <= k < old_children.len() implies old_children[k]
                                != node.node_id by {
                                lemma_child(nodes, at, k);
                            }
                        }
                    }
                }
            }
            assert(parents_linked(after)) by {
                assert forall|j: int|
                    0 <= j < after.len() && (#[trigger] after[j]).parent is Some implies ({
                    let i = position(after, after[j].parent->0);
                    i < j && after[i].children.contains(after[j].node_id)
                }) by {
                    if j < n {
                        lemma_parent(nodes, j);
                        let q = nodes[j].parent->0;
                        let i = position(nodes, q);
                        assert(position(after, q) == i);
                        let w = choose|w: int|
                            0 <= w < nodes[i].children.len() && nodes[i].children[w]
                                == nodes[j].node_id;
                        assert(after[i].children[w] == nodes[j].node_id);
                    } else {
                        assert(position(after, p) == at);
                        assert(after[at].children[nodes[at].children.len() as int]
                            == node.node_id);
                    }
                }
            }
            assert(single_root(after)) by {
                reveal(well_formed);
                assert forall|i: int, j: int|
                    0 <= i < after.len() && 0 <= j < after.len() && (
                    #[trigger] after[i]).parent is None && (#[trigger] after[j]).parent is None implies i
                    == j by {
                    assert(nodes[i].parent is None && nodes[j].parent is None);
                }
            }
            reveal(well_formed);
        },
    }
}

/// What `without` keeps: the elements other than `id`, each as often as
/// it was there.
pub proof fn lemma_without<Q>(s: Seq<Q>, id: Q)
    ensures
        forall|c: Q| #[trigger] without(s, id).contains(c) <==> s.contains(c) && c != id,
        s.no_duplicates() ==> without(s, id).no_duplicates(),
        !s.contains(id) ==> without(s, id) == s,
    decreases s.len(),
{
    reveal(Seq::filter);
    let keep = |c: Q| c != id;
    if s.len() > 0 {
        let rest = s.drop_last();
        let last = s.last();
        lemma_without(rest, id);
        let inner = without(rest, id);
        assert(inner == rest.filter(keep));
        assert forall|c: Q| #[trigger] without(s, id).contains(c) <==> s.contains(c) && c
            != id by {
            if without(s, id).contains(c) {
                let w = choose|w: int| 0 <= w < without(s, id).len() && without(s, id)[w] == c;
                if last != id && w == inner.len() {
                    assert(s[s.len() - 1] == c);
                } else {
                    assert(inner[w] == c);
                    assert(inner.contains(c));
                    let v = choose|v: int| 0 <= v < rest.len() && rest[v] == c;
                    assert(s[v] == c);
                }
            }
            if s.contains(c) && c != id {
                let v = choose|v: int| 0 <= v < s.len() && s[v] == c;
                if v == s.len() - 1 {
                    assert(without(s, id)[inner.len() as int] == c);
                } else {
                    assert(rest[v] == c);
                    assert(inner.contains(c));
                    let w = choose|w: int| 0 <= w < inner.len() && inner[w] == c;
                    assert(without(s, id)[w] == c);
                }
            }
        }
        if s.no_duplicates() {
            assert(rest.no_duplicates());
            if last != id {
                assert forall|w: int| 0 <= w < inner.len() implies inner[w] != last by {
                    assert(inner.contains(inner[w]));
                    if inner[w] == last {
                        let v = choose|v: int| 0 <= v < rest.len() && rest[v] == last;
                        assert(s[v] == s[s.len() - 1]);
                    }
                }
            }
        }
        if !s.contains(id) {
            assert(!rest.contains(id)) by {
                if rest.contains(id) {
                    let v = choose|v: int| 0 <= v < rest.len() && rest[v] == id;
                    assert(s[v] == id);
                }
            }
            assert(s[s.len() - 1] != id);
            assert(without(s, id) =~= s);
        }
    } else {
        assert(without(s, id) =~= s);
    }
}

/// `after` holds the nodes of `before` whose ids are alive, in their
/// order, and no others.
pub open spec fn keeps<Q, T>(
    before: Seq<NodeView<Q, T>>,
    after: Seq<NodeView<Q, T>>,
    alive: spec_fn(Q) -> bool,
) -> bool {
    &&& distinct_ids(after)
    &&& forall|a: int|
        0 <= a < after.len() ==> {
            let id = (#[trigger] after[a]).node_id;
            alive(id) && has_id(before, id) && before[position(before, id)] == after[a]
        }
    &&& forall|i: int|
        0 <= i < before.len() && alive((#[trigger] before[i]).node_id) ==> {
            let id = before[i].node_id;
            has_id(after, id) && after[position(after, id)] == before[i]
        }
    &&& forall|i: int, j: int|
        0 <= i < j < before.len() && alive((#[trigger] before[i]).node_id) && alive(
            (#[trigger] before[j]).node_id,
        ) ==> position(after, before[i].node_id) < position(after, before[j].node_id)
}

/// The invariant of a tree, asked of the nodes with an alive id alone:
/// their links lead to alive nodes.
pub open spec fn well_formed_among<Q, T>(nodes: Seq<NodeView<Q, T>>, alive: spec_fn(Q) -> bool) -> bool {
    &&& distinct_ids(nodes)
    &&& forall|i: int, k: int|
        0 <= i < nodes.len() && alive(nodes[i].node_id) && 0 <= k < nodes[i].children.len() ==> {
            let c = #[trigger] nodes[i].children[k];
            let j = position(nodes, c);
            alive(c) && i < j < nodes.len() && nodes[j].node_id == c && nodes[j].parent == Some(
                nodes[i].node_id,
            )
        }
    &&& forall|i: int|
        0 <= i < nodes.len() && alive((#[trigger] nodes[i]).node_id)
            ==> nodes[i].children.no_duplicates()
    &&& forall|j: int|
        0 <= j < nodes.len() && alive((#[trigger] nodes[j]).node_id) && nodes[j].parent is Some ==> {
            let q = nodes[j].parent->0;
            let i = position(nodes, q);
            alive(q) && 0 <= i < j && nodes[i].node_id == q && nodes[i].children.contains(
                nodes[j].node_id,
            )
        }
    &&& forall|i: int, j: int|
        0 <= i < nodes.len() && 0 <= j < nodes.len() && alive((#[trigger] nodes[i]).node_id)
            && alive((#[trigger] nodes[j]).node_id) && nodes[i].parent is None
            && nodes[j].parent is None ==> i == j
}

/// Where the alive nodes keep the invariant among themselves, they are a
/// tree once the others are gone.
pub proof fn lemma_alive_well_formed<Q, T>(
    before: Seq<NodeView<Q, T>>,
    after: Seq<NodeView<Q, T>>,
    alive: spec_fn(Q) -> bool,
)
    requires
        well_formed_among(before, alive),
        keeps(before, after, alive),
    ensures
        well_formed(after),
{
    // Each node of `after` is a node of `before`: where it stood there.
    let origin = |a: int| position(before, after[a].node_id);
    assert forall|a: int| 0 <= a < after.len() implies 0 <= #[trigger] origin(a) < before.len()
        && before[origin(a)] == after[a] && alive(after[a].node_id) && position(
        after,
        after[a].node_id,
    ) == a by {
        lemma_position(before, after[a].node_id);
        lemma_position_of_node_distinct(after, a);
    }
    assert(children_linked(after)) by {
        assert forall|a: int, k: int|
            0 <= a < after.len() && 0 <= k < after[a].children.len() implies ({
            let b = position(after, #[trigger] after[a].children[k]);
            a < b < after.len() && after[b].parent == Some(after[a].node_id)
        }) by {
            let i = origin(a);
            let c = before[i].children[k];
            assert(after[a].children[k] == c);
            let j = position(before, c);
            assert(alive(before[j].node_id));
            lemma_position(after, c);
            assert(after[position(after, c)] == before[j]);
            assert(position(after, before[i].node_id) < position(after, before[j].node_id));
        }
        assert forall|a: int| 0 <= a < after.len() implies (
        #[trigger] after[a]).children.no_duplicates() by {
            let i = origin(a);
            assert(before[i].children.no_duplicates());
        }
    }
    assert(parents_linked(after)) by {
        assert forall|b: int|
            0 <= b < after.len() && (#[trigger] after[b]).parent is Some implies ({
            let a = position(after, after[b].parent->0);
            a < b && after[a].children.contains(after[b].node_id)
        }) by {
            let j = origin(b);
            let q = before[j].parent->0;
            let i = position(before, q);
            assert(alive(before[i].node_id));
            lemma_position(after, q);
            assert(after[position(after, q)] == before[i]);
            assert(position(after, before[i].node_id) < position(after, before[j].node_id));
        }
    }
    assert(single_root(after)) by {
        assert forall|a: int, b: int|
            0 <= a < after.len() && 0 <= b < after.len() && (#[trigger] after[a]).parent is None
                && (#[trigger] after[b]).parent is None implies a == b by {
            let i = origin(a);
            let j = origin(b);
            assert(alive(before[i].node_id) && alive(before[j].node_id));
            assert(i == j);
        }
    }
    reveal(well_formed);
}

/// With unique identifiers, each node stands at the position of its id.
proof fn lemma_position_of_node_distinct<Q, T>(nodes: Seq<NodeView<Q, T>>, i: int)
    requires
        distinct_ids(nodes),
        0 <= i < nodes.len(),
    ensures
        position(nodes, nodes[i].node_id) == i,
        has_id(nodes, nodes[i].node_id),
{
    crate::model::lemma_position_of_node(nodes, i);
}

/// Taking one node out of nodes with unique ids keeps the others, in
/// their order.
pub proof fn lemma_remove_keeps<Q, T>(nodes: Seq<NodeView<Q, T>>, x: int)
    requires
        distinct_ids(nodes),
        0 <= x < nodes.len(),
    ensures
        keeps(nodes, nodes.remove(x), |id: Q| id != nodes[x].node_id),
{
    let after = nodes.remove(x);
    let gone = nodes[x].node_id;
    let alive = |id: Q| id != gone;
    assert forall|a: int| 0 <= a < after.len() implies (#[trigger] after[a]) == nodes[if a < x {
        a
    } else {
        a + 1
    }] by {}
    assert(distinct_ids(after)) by {
        assert forall|a: int, b: int| 0 <= a < b < after.len() implies (
        #[trigger] after[a]).node_id != (#[trigger] after[b]).node_id by {
            let i = if a < x { a } else { a + 1 };
            let j = if b < x { b } else { b + 1 };
            assert(nodes[i].node_id != nodes[j].node_id);
        }
    }
    assert forall|a: int| 0 <= a < after.len() implies ({
        let id = (#[trigger] after[a]).node_id;
        alive(id) && has_id(nodes, id) && nodes[position(nodes, id)] == after[a]
    }) by {
        let i = if a < x { a } else { a + 1 };
        lemma_position_of_node_distinct(nodes, i);
        if i < x {
            assert(nodes[i].node_id != nodes[x].node_id);
        } else {
            assert(nodes[x].node_id != nodes[i].node_id);
        }
    }
    assert forall|i: int| 0 <= i < nodes.len() && alive((#[trigger] nodes[i]).node_id) implies ({
        let id = nodes[i].node_id;
        has_id(after, id) && after[position(after, id)] == nodes[i] && position(after, id) == (if i
            < x {
            i
        } else {
            i - 1
        })
    }) by {
        let a = if i < x { i } else { i - 1 };
        assert(after[a] == nodes[i]);
        lemma_position_of_node_distinct(after, a);
    }
}

/// The ids stand in `handed_over` where they stand in the tree.
proof fn lemma_handed_over_ids<Q, T>(nodes: Seq<NodeView<Q, T>>, x: int)
    requires
        well_formed(nodes),
        0 <= x < nodes.len(),
        nodes[x].parent is Some,
    ensures
        handed_over(nodes, x).len() == nodes.len(),
        distinct_ids(handed_over(nodes, x)),
        forall|i: int|
            0 <= i < nodes.len() ==> (#[trigger] handed_over(nodes, x)[i]).node_id
                == nodes[i].node_id,
        forall|c: Q| #[trigger] position(handed_over(nodes, x), c) == position(nodes, c),
        forall|c: Q| #[trigger] has_id(handed_over(nodes, x), c) == has_id(nodes, c),
{
    let mid = handed_over(nodes, x);
    assert forall|i: int| 0 <= i < nodes.len() implies (#[trigger] mid[i]).node_id
        == nodes[i].node_id by {}
    assert forall|c: Q| #[trigger] position(mid, c) == position(nodes, c) by {
        lemma_position_same_ids(mid, nodes, c);
    }
    assert forall|c: Q| #[trigger] has_id(mid, c) == has_id(nodes, c) by {
        lemma_position_same_ids(mid, nodes, c);
    }
    reveal(well_formed);
    assert forall|i: int, j: int| 0 <= i < j < mid.len() implies (#[trigger] mid[i]).node_id != (
    #[trigger] mid[j]).node_id by {
        assert(nodes[i].node_id != nodes[j].node_id);
    }
}

/// In `handed_over`, what a node other than the removed one lists as a
/// child is a node further on that names it as its parent.
proof fn lemma_handed_over_child<Q, T>(nodes: Seq<NodeView<Q, T>>, x: int, i: int, k: int)
    requires
        well_formed(nodes),
        0 <= x < nodes.len(),
        nodes[x].parent is Some,
        0 <= i < nodes.len(),
        i != x,
        0 <= k < handed_over(nodes, x)[i].children.len(),
    ensures
        ({
            let mid = handed_over(nodes, x);
            let c = mid[i].children[k];
            let j = position(nodes, c);
            c != nodes[x].node_id && i < j < nodes.len() && mid[j].node_id == c && mid[j].parent
                == Some(nodes[i].node_id)
        }),
{
    let id = nodes[x].node_id;
    let parent_id = nodes[x].parent->0;
    let p = position(nodes, parent_id);
    let mid = handed_over(nodes, x);
    let c = mid[i].children[k];
    lemma_parent(nodes, x);
    lemma_node(nodes, x);
    lemma_node(nodes, i);
    if i == p {
        let kept = without(nodes[p].children, id);
        lemma_without(nodes[p].children, id);
        if k < kept.len() {
            assert(kept[k] == c);
            assert(kept.contains(c));
            let w = choose|w: int| 0 <= w < nodes[p].children.len() && nodes[p].children[w] == c;
            lemma_child(nodes, p, w);
            let j = position(nodes, c);
            lemma_node(nodes, j);
        } else {
            let w = k - kept.len();
            assert(nodes[x].children[w] == c);
            lemma_child(nodes, x, w);
            let j = position(nodes, c);
            lemma_node(nodes, j);
        }
    } else {
        assert(mid[i].children == nodes[i].children);
        lemma_child(nodes, i, k);
        let j = position(nodes, c);
        lemma_node(nodes, j);
        if j == x {
            assert(position(nodes, nodes[i].node_id) == p);
        }
    }
}

/// In `handed_over`, no node lists a child twice.
proof fn lemma_handed_over_no_duplicates<Q, T>(nodes: Seq<NodeView<Q, T>>, x: int, i: int)
    requires
        well_formed(nodes),
        0 <= x < nodes.len(),
        nodes[x].parent is Some,
        0 <= i < nodes.len(),
    ensures
        handed_over(nodes, x)[i].children.no_duplicates(),
{
    let id = nodes[x].node_id;
    let parent_id = nodes[x].parent->0;
    let p = position(nodes, parent_id);
    lemma_parent(nodes, x);
    lemma_node(nodes, x);
    lemma_node(nodes, i);
    if i == p {
        let kept = without(nodes[p].children, id);
        let moved = nodes[x].children;
        lemma_without(nodes[p].children, id);
        assert forall|a: int, b: int|
            0 <= a < kept.len() && 0 <= b < moved.len() implies kept[a] != moved[b] by {
            assert(kept.contains(kept[a]));
            let w = choose|w: int|
                0 <= w < nodes[p].children.len() && nodes[p].children[w] == kept[a];
            lemma_child(nodes, p, w);
            lemma_child(nodes, x, b);
        }
        vstd::seq_lib::lemma_no_dup_in_concat(kept, moved);
    }
}

/// In `handed_over`, the parent that a node other than the removed one
/// names is a node before it, other than the removed one, that lists it.
proof fn lemma_handed_over_parent<Q, T>(nodes: Seq<NodeView<Q, T>>, x: int, j: int)
    requires
        well_formed(nodes),
        0 <= x < nodes.len(),
        nodes[x].parent is Some,
        0 <= j < nodes.len(),
        j != x,
        handed_over(nodes, x)[j].parent is Some,
    ensures
        ({
            let mid = handed_over(nodes, x);
            let q = mid[j].parent->0;
            let i = position(nodes, q);
            q != nodes[x].node_id && 0 <= i < j && mid[i].node_id == q && mid[i].children.contains(
                nodes[j].node_id,
            )
        }),
{
    let id = nodes[x].node_id;
    let parent_id = nodes[x].parent->0;
    let p = position(nodes, parent_id);
    let mid = handed_over(nodes, x);
    let kept = without(nodes[p].children, id);
    lemma_parent(nodes, x);
    lemma_node(nodes, x);
    lemma_node(nodes, p);
    lemma_node(nodes, j);
    lemma_without(nodes[p].children, id);
    if j == p {
        lemma_parent(nodes, p);
        let i = position(nodes, nodes[p].parent->0);
        lemma_node(nodes, i);
        assert(mid[i].children == nodes[i].children);
    } else if nodes[j].parent == Some(id) {
        lemma_parent(nodes, j);
        let w = choose|w: int|
            0 <= w < nodes[x].children.len() && nodes[x].children[w] == nodes[j].node_id;
        assert(mid[p].children[kept.len() + w] == nodes[j].node_id);
    } else {
        lemma_parent(nodes, j);
        let q = nodes[j].parent->0;
        let i = position(nodes, q);
        lemma_node(nodes, i);
        if i == p {
            assert(kept.contains(nodes[j].node_id));
            let w = choose|w: int| 0 <= w < kept.len() && kept[w] == nodes[j].node_id;
            assert(mid[p].children[w] == nodes[j].node_id);
        } else {
            assert(mid[i].children == nodes[i].children);
        }
    }
}

/// In `handed_over`, the nodes other than the removed one keep the
/// invariant among themselves.
proof fn lemma_handed_over_among<Q, T>(nodes: Seq<NodeView<Q, T>>, x: int)
    requires
        well_formed(nodes),
        0 <= x < nodes.len(),
        nodes[x].parent is Some,
    ensures
        well_formed_among(handed_over(nodes, x), |c: Q| c != nodes[x].node_id),
{
    let id = nodes[x].node_id;
    let mid = handed_over(nodes, x);
    let alive = |c: Q| c != id;
    lemma_handed_over_ids(nodes, x);
    lemma_node(nodes, x);
    assert forall|i: int, k: int|
        0 <= i < mid.len() && alive(mid[i].node_id) && 0 <= k < mid[i].children.len() implies ({
        let c = #[trigger] mid[i].children[k];
        let j = position(mid, c);
        alive(c) && i < j < mid.len() && mid[j].node_id == c && mid[j].parent == Some(
            mid[i].node_id,
        )
    }) by {
        lemma_handed_over_child(nodes, x, i, k);
    }
    assert forall|i: int| 0 <= i < mid.len() && alive((#[trigger] mid[i]).node_id) implies mid[i].children.no_duplicates() by {
        lemma_handed_over_no_duplicates(nodes, x, i);
    }
    assert forall|j: int|
        0 <= j < mid.len() && alive((#[trigger] mid[j]).node_id) && mid[j].parent is Some implies ({
        let q = mid[j].parent->0;
        let i = position(mid, q);
        alive(q) && 0 <= i < j && mid[i].node_id == q && mid[i].children.contains(mid[j].node_id)
    }) by {
        lemma_handed_over_parent(nodes, x, j);
    }
    assert forall|i: int, j: int|
        0 <= i < mid.len() && 0 <= j < mid.len() && alive((#[trigger] mid[i]).node_id) && alive(
            (#[trigger] mid[j]).node_id,
        ) && mid[i].parent is None && mid[j].parent is None implies i == j by {
        reveal(well_formed);
        assert(nodes[i].parent is None && nodes[j].parent is None);
    }
}

/// Removing a node that has a parent, and handing its children to that
/// parent, keeps the invariant of a tree. The node is gone, the tree has
/// one node less, and every child of the node is in the tree as it was,
/// but with the parent of the node as its parent.
pub proof fn lemma_without_node<Q, T>(nodes: Seq<NodeView<Q, T>>, x: int)
    requires
        well_formed(nodes),
        0 <= x < nodes.len(),
        nodes[x].parent is Some,
    ensures
        well_formed(without_node(nodes, x)),
        without_node(nodes, x).len() == nodes.len() - 1,
        !has_id(without_node(nodes, x), nodes[x].node_id),
        forall|k: int|
            0 <= k < nodes.len() && (#[trigger] nodes[k]).parent == Some(nodes[x].node_id) ==> {
                let after = without_node(nodes, x);
                let at = position(after, nodes[k].node_id);
                &&& has_id(after, nodes[k].node_id)
                &&& after[at] == (NodeView { parent: nodes[x].parent, ..nodes[k] })
            },
{
    let id = nodes[x].node_id;
    let parent_id = nodes[x].parent->0;
    let p = position(nodes, parent_id);
    let mid = handed_over(nodes, x);
    let after = mid.remove(x);
    let alive = |c: Q| c != id;
    lemma_handed_over_ids(nodes, x);
    lemma_handed_over_among(nodes, x);
    lemma_remove_keeps(mid, x);
    assert(alive =~= (|c: Q| c != mid[x].node_id));
    lemma_alive_well_formed(mid, after, alive);
    assert(!has_id(after, id)) by {
        if has_id(after, id) {
            lemma_position(after, id);
            let a = position(after, id);
            assert(alive(after[a].node_id));
        }
    }
    assert forall|k: int|
        0 <= k < nodes.len() && (#[trigger] nodes[k]).parent == Some(id) implies ({
        let at = position(after, nodes[k].node_id);
        &&& has_id(after, nodes[k].node_id)
        &&& after[at] == (NodeView { parent: nodes[x].parent, ..nodes[k] })
    }) by {
        lemma_parent(nodes, k);
        lemma_parent(nodes, x);
        lemma_node(nodes, k);
        lemma_node(nodes, x);
        assert(alive(mid[k].node_id));
    }
}

/// Filtering nodes with unique ids by a condition on their ids keeps the
/// nodes that meet it, in their order.
pub proof fn lemma_filter_keeps<Q, T>(
    nodes: Seq<NodeView<Q, T>>,
    pred: spec_fn(NodeView<Q, T>) -> bool,
    alive: spec_fn(Q) -> bool,
)
    requires
        distinct_ids(nodes),
        forall|n: NodeView<Q, T>| #[trigger] pred(n) == alive(n.node_id),
    ensures
        keeps(nodes, nodes.filter(pred), alive),
    decreases nodes.len(),
{
    reveal(Seq::filter);
    let after = nodes.filter(pred);
    if nodes.len() == 0 {
        assert(after.len() == 0);
    } else {
        let rest = nodes.drop_last();
        let last = nodes.last();
        let inner = rest.filter(pred);
        let n = rest.len() as int;
        assert(distinct_ids(rest)) by {
            assert forall|i: int, j: int| 0 <= i < j < rest.len() implies (
            #[trigger] rest[i]).node_id != (#[trigger] rest[j]).node_id by {
                assert(nodes[i].node_id != nodes[j].node_id);
            }
        }
        lemma_filter_keeps(rest, pred, alive);
        assert(nodes =~= rest.push(last));
        // No node of `rest` has the id of the last node.
        assert(!has_id(rest, last.node_id)) by {
            if has_id(rest, last.node_id) {
                lemma_position(rest, last.node_id);
                let i = position(rest, last.node_id);
                assert(nodes[i].node_id != nodes[n].node_id);
            }
        }
        assert(!has_id(inner, last.node_id)) by {
            if has_id(inner, last.node_id) {
                lemma_position(inner, last.node_id);
                let a = position(inner, last.node_id);
                assert(has_id(rest, inner[a].node_id));
            }
        }
        assert forall|id: Q| has_id(rest, id) implies #[trigger] position(nodes, id) == position(
            rest,
            id,
        ) && has_id(nodes, id) by {
            lemma_position_push(rest, last, id);
        }
        assert(position(nodes, last.node_id) == n && has_id(nodes, last.node_id)) by {
            lemma_position_push(rest, last, last.node_id);
        }
        if pred(last) {
            assert(after == inner.push(last));
            let m = inner.len() as int;
            assert forall|id: Q| has_id(inner, id) implies #[trigger] position(after, id)
                == position(inner, id) && has_id(after, id) by {
                lemma_position_push(inner, last, id);
            }
            assert(position(after, last.node_id) == m && has_id(after, last.node_id)) by {
                lemma_position_push(inner, last, last.node_id);
            }
            assert(distinct_ids(after)) by {
                assert forall|a: int, b: int| 0 <= a < b < after.len() implies (
                #[trigger] after[a]).node_id != (#[trigger] after[b]).node_id by {
                    if b == m {
                        assert(has_id(inner, inner[a].node_id));
                    } else {
                        assert(inner[a].node_id != inner[b].node_id);
                    }
                }
            }
            assert forall|a: int| 0 <= a < after.len() implies ({
                let id = (#[trigger] after[a]).node_id;
                alive(id) && has_id(nodes, id) && nodes[position(nodes, id)] == after[a]
            }) by {
                if a < m {
                    assert(after[a] == inner[a]);
                    let id = inner[a].node_id;
                    assert(has_id(rest, id));
                    lemma_position(rest, id);
                    assert(nodes[position(rest, id)] == rest[position(rest, id)]);
                }
            }
            assert forall|i: int|
                0 <= i < nodes.len() && alive((#[trigger] nodes[i]).node_id) implies ({
                let id = nodes[i].node_id;
                has_id(after, id) && after[position(after, id)] == nodes[i]
            }) by {
                if i < n {
                    assert(nodes[i] == rest[i]);
                    let id = rest[i].node_id;
                    assert(has_id(inner, id));
                    lemma_position(inner, id);
                    assert(after[position(inner, id)] == inner[position(inner, id)]);
                }
            }
            assert forall|i: int, j: int|
                0 <= i < j < nodes.len() && alive((#[trigger] nodes[i]).node_id) && alive(
                    (#[trigger] nodes[j]).node_id,
                ) implies position(after, nodes[i].node_id) < position(
                after,
                nodes[j].node_id,
            ) by {
                assert(nodes[i] == rest[i]);
                assert(has_id(inner, rest[i].node_id));
                lemma_position(inner, rest[i].node_id);
                if j < n {
                    assert(nodes[j] == rest[j]);
                    assert(has_id(inner, rest[j].node_id));
                }
            }
        } else {
            assert(after == inner);
            assert forall|a: int| 0 <= a < after.len() implies ({
                let id = (#[trigger] after[a]).node_id;
                alive(id) && has_id(nodes, id) && nodes[position(nodes, id)] == after[a]
            }) by {
                let id = inner[a].node_id;
                assert(has_id(rest, id));
                lemma_position(rest, id);
                assert(nodes[position(rest, id)] == rest[position(rest, id)]);
            }
            assert forall|i: int|
                0 <= i < nodes.len() && alive((#[trigger] nodes[i]).node_id) implies ({
                let id = nodes[i].node_id;
                has_id(after, id) && after[position(after, id)] == nodes[i]
            }) by {
                assert(i < n);
                assert(nodes[i] == rest[i]);
            }
            assert forall|i: int, j: int|
                0 <= i < j < nodes.len() && alive((#[trigger] nodes[i]).node_id) && alive(
                    (#[trigger] nodes[j]).node_id,
                ) implies position(after, nodes[i].node_id) < position(
                after,
                nodes[j].node_id,
            ) by {
                assert(nodes[i] == rest[i]);
                assert(nodes[j] == rest[j]);
            }
        }
    }
}

/// Whether the node at position `j` is the node at position `x` or one of
/// its descendants.
pub open spec fn under<Q, T>(nodes: Seq<NodeView<Q, T>>, x: int, j: int) -> bool {
    within(nodes, x, j, None)
}

/// In `detached`, what a node outside the subtree under `x` lists as a
/// child is a node outside that subtree, further on, that names it as its
/// parent.
proof fn lemma_detached_child<Q, T>(nodes: Seq<NodeView<Q, T>>, x: int, i: int, k: int)
    requires
        well_formed(nodes),
        0 <= x < nodes.len(),
        0 <= i < nodes.len(),
        !under(nodes, x, i),
        0 <= k < detached(nodes, x)[i].children.len(),
    ensures
        ({
            let mid = detached(nodes, x);
            let c = mid[i].children[k];
            let j = position(nodes, c);
            &&& i < j < nodes.len()
            &&& !under(nodes, x, j)
            &&& mid[j].node_id == c
            &&& mid[j].parent == Some(nodes[i].node_id)
        }),
{
    let id = nodes[x].node_id;
    let mid = detached(nodes, x);
    let c = mid[i].children[k];
    lemma_node(nodes, x);
    lemma_node(nodes, i);
    let w = if nodes[x].parent is Some && i == position(nodes, nodes[x].parent->0) {
        let p = position(nodes, nodes[x].parent->0);
        lemma_parent(nodes, x);
        lemma_without(nodes[p].children, id);
        let kept = without(nodes[p].children, id);
        assert(kept[k] == c);
        assert(kept.contains(c));
        choose|w: int| 0 <= w < nodes[p].children.len() && nodes[p].children[w] == c
    } else {
        if nodes[x].parent is Some {
            lemma_parent(nodes, x);
        }
        assert(mid[i].children == nodes[i].children);
        k
    };
    lemma_child(nodes, i, w);
    let j = position(nodes, c);
    lemma_node(nodes, j);
    assert(j != x) by {
        if j == x {
            lemma_parent(nodes, x);
        }
    }
    assert(position(nodes, nodes[j].parent->0) == i);
    if nodes[x].parent is Some {
        lemma_parent(nodes, x);
    }
}

/// In `detached`, the parent that a node outside the subtree under `x`
/// names is a node outside that subtree, before it, that lists it.
proof fn lemma_detached_parent<Q, T>(nodes: Seq<NodeView<Q, T>>, x: int, j: int)
    requires
        well_formed(nodes),
        0 <= x < nodes.len(),
        0 <= j < nodes.len(),
        !under(nodes, x, j),
        nodes[j].parent is Some,
    ensures
        ({
            let mid = detached(nodes, x);
            let q = mid[j].parent->0;
            let i = position(nodes, q);
            &&& mid[j].parent == nodes[j].parent
            &&& 0 <= i < j
            &&& !under(nodes, x, i)
            &&& mid[i].node_id == q
            &&& mid[i].children.contains(nodes[j].node_id)
        }),
{
    let id = nodes[x].node_id;
    let mid = detached(nodes, x);
    lemma_node(nodes, x);
    lemma_node(nodes, j);
    lemma_parent(nodes, j);
    let i = position(nodes, nodes[j].parent->0);
    lemma_node(nodes, i);
    if nodes[x].parent is Some {
        lemma_parent(nodes, x);
        let p = position(nodes, nodes[x].parent->0);
        lemma_without(nodes[p].children, id);
        if i == p {
            let kept = without(nodes[p].children, id);
            assert(kept.contains(nodes[j].node_id));
        }
    }
}

/// The ids of the nodes that stay when the subtree under `x` goes.
pub open spec fn outside<Q, T>(nodes: Seq<NodeView<Q, T>>, x: int) -> spec_fn(Q) -> bool {
    |id: Q| !subtree_ids(nodes, x).contains(id)
}

/// What `detached` changes and what it leaves.
proof fn lemma_detached_ids<Q, T>(nodes: Seq<NodeView<Q, T>>, x: int)
    requires
        well_formed(nodes),
        0 <= x < nodes.len(),
    ensures
        detached(nodes, x).len() == nodes.len(),
        distinct_ids(detached(nodes, x)),
        forall|i: int|
            0 <= i < nodes.len() ==> (#[trigger] detached(nodes, x)[i]).node_id
                == nodes[i].node_id && detached(nodes, x)[i].parent == nodes[i].parent && (outside(
                nodes,
                x,
            )(nodes[i].node_id) <==> !under(nodes, x, i)),
        forall|c: Q| #[trigger] position(detached(nodes, x), c) == position(nodes, c),
        forall|c: Q| #[trigger] has_id(detached(nodes, x), c) == has_id(nodes, c),
{
    let mid = detached(nodes, x);
    lemma_subtree(nodes, x, None);
    if nodes[x].parent is Some {
        lemma_parent(nodes, x);
    }
    assert forall|i: int| 0 <= i < nodes.len() implies (#[trigger] mid[i]).node_id
        == nodes[i].node_id && mid[i].parent == nodes[i].parent && (outside(nodes, x)(
        nodes[i].node_id,
    ) <==> !under(nodes, x, i)) by {}
    assert forall|c: Q| #[trigger] position(mid, c) == position(nodes, c) by {
        lemma_position_same_ids(mid, nodes, c);
    }
    assert forall|c: Q| #[trigger] has_id(mid, c) == has_id(nodes, c) by {
        lemma_position_same_ids(mid, nodes, c);
    }
    reveal(well_formed);
    assert forall|i: int, j: int| 0 <= i < j < mid.len() implies (#[trigger] mid[i]).node_id != (
    #[trigger] mid[j]).node_id by {
        assert(nodes[i].node_id != nodes[j].node_id);
    }
}

/// In `detached`, the nodes outside the subtree under `x` keep the
/// invariant among themselves.
proof fn lemma_detached_among<Q, T>(nodes: Seq<NodeView<Q, T>>, x: int)
    requires
        well_formed(nodes),
        0 <= x < nodes.len(),
    ensures
        well_formed_among(detached(nodes, x), outside(nodes, x)),
{
    let mid = detached(nodes, x);
    let alive = outside(nodes, x);
    lemma_detached_ids(nodes, x);
    assert forall|i: int, k: int|
        0 <= i < mid.len() && alive(mid[i].node_id) && 0 <= k < mid[i].children.len() implies ({
        let c = #[trigger] mid[i].children[k];
        let j = position(mid, c);
        alive(c) && i < j < mid.len() && mid[j].node_id == c && mid[j].parent == Some(
            mid[i].node_id,
        )
    }) by {
        lemma_detached_child(nodes, x, i, k);
    }
    assert forall|i: int| 0 <= i < mid.len() && alive((#[trigger] mid[i]).node_id) implies mid[i].children.no_duplicates() by {
        lemma_node(nodes, i);
        lemma_without(nodes[i].children, nodes[x].node_id);
        if nodes[x].parent is Some {
            lemma_parent(nodes, x);
        }
        assert(mid[i].children == nodes[i].children || mid[i].children == without(
            nodes[i].children,
            nodes[x].node_id,
        ));
    }
    assert forall|j: int|
        0 <= j < mid.len() && alive((#[trigger] mid[j]).node_id) && mid[j].parent is Some implies ({
        let q = mid[j].parent->0;
        let i = position(mid, q);
        alive(q) && 0 <= i < j && mid[i].node_id == q && mid[i].children.contains(mid[j].node_id)
    }) by {
        lemma_detached_parent(nodes, x, j);
    }
    assert forall|i: int, j: int|
        0 <= i < mid.len() && 0 <= j < mid.len() && alive((#[trigger] mid[i]).node_id) && alive(
            (#[trigger] mid[j]).node_id,
        ) && mid[i].parent is None && mid[j].parent is None implies i == j by {
        reveal(well_formed);
        assert(nodes[i].parent is None && nodes[j].parent is None);
    }
}

/// `without_subtree` keeps the nodes outside the subtree, in their order.
proof fn lemma_without_subtree_keeps<Q, T>(nodes: Seq<NodeView<Q, T>>, x: int)
    requires
        well_formed(nodes),
        0 <= x < nodes.len(),
    ensures
        keeps(detached(nodes, x), without_subtree(nodes, x), outside(nodes, x)),
{
    let doomed = subtree_ids(nodes, x);
    let mid = detached(nodes, x);
    let pred = |n: NodeView<Q, T>| !doomed.contains(n.node_id);
    assert(mid.filter(pred) == without_subtree(nodes, x));
    lemma_detached_ids(nodes, x);
    lemma_filter_keeps(mid, pred, outside(nodes, x));
}

/// The ids of `nodes`, which are unique, make a set of as many ids.
proof fn lemma_ids_count<Q, T>(nodes: Seq<NodeView<Q, T>>)
    requires
        distinct_ids(nodes),
    ensures
        ids_of(nodes).no_duplicates(),
        ids_of(nodes).to_set().len() == nodes.len(),
        ids_of(nodes).to_set().finite(),
{
    assert forall|a: int, b: int|
        0 <= a < nodes.len() && 0 <= b < nodes.len() && a != b implies ids_of(nodes)[a] != ids_of(
        nodes,
    )[b] by {
        if a < b {
            assert(nodes[a].node_id != nodes[b].node_id);
        } else {
            assert(nodes[b].node_id != nodes[a].node_id);
        }
    }
    ids_of(nodes).unique_seq_to_set();
    vstd::seq_lib::seq_to_set_is_finite(ids_of(nodes));
}

/// A tree without the subtree under `x` has as many nodes less as that
/// subtree has.
proof fn lemma_without_subtree_count<Q, T>(nodes: Seq<NodeView<Q, T>>, x: int)
    requires
        well_formed(nodes),
        0 <= x < nodes.len(),
    ensures
        without_subtree(nodes, x).len() == nodes.len() - subtree(nodes, x, None).len(),
{
    let doomed = subtree_ids(nodes, x);
    let mid = detached(nodes, x);
    let after = without_subtree(nodes, x);
    let alive = outside(nodes, x);
    lemma_subtree(nodes, x, None);
    lemma_detached_ids(nodes, x);
    lemma_without_subtree_keeps(nodes, x);
    let stay = ids_of(after).to_set();
    let go = doomed.to_set();
    let all = ids_of(nodes).to_set();
    lemma_ids_count(after);
    assert(distinct_ids(nodes)) by {
        reveal(well_formed);
    }
    lemma_ids_count(nodes);
    doomed.unique_seq_to_set();
    vstd::seq_lib::seq_to_set_is_finite(doomed);
    assert(stay.disjoint(go)) by {
        assert forall|id: Q| stay.contains(id) implies !go.contains(id) by {
            let a = choose|a: int| 0 <= a < ids_of(after).len() && ids_of(after)[a] == id;
            assert(alive(after[a].node_id));
        }
    }
    assert forall|id: Q| (stay + go).contains(id) implies all.contains(id) by {
        if stay.contains(id) {
            let a = choose|a: int| 0 <= a < ids_of(after).len() && ids_of(after)[a] == id;
            assert(has_id(mid, after[a].node_id));
            lemma_position(nodes, id);
            assert(ids_of(nodes)[position(nodes, id)] == id);
        } else {
            assert(doomed.contains(id));
            assert(ids_of(nodes)[position(nodes, id)] == id);
        }
    }
    assert forall|id: Q| all.contains(id) implies (stay + go).contains(id) by {
        let i = choose|i: int| 0 <= i < ids_of(nodes).len() && ids_of(nodes)[i] == id;
        if alive(mid[i].node_id) {
            lemma_position(after, id);
            assert(ids_of(after)[position(after, id)] == id);
        } else {
            assert(doomed.contains(id));
        }
    }
    assert(stay + go =~= all);
    vstd::set_lib::lemma_set_disjoint_lens(stay, go);
}

/// Removing a node with all its descendants keeps the invariant of a
/// tree. None of them is in the tree afterwards, every other node is, and
/// the tree has as many nodes less as the subtree under the node has.
pub proof fn lemma_without_subtree<Q, T>(nodes: Seq<NodeView<Q, T>>, x: int)
    requires
        well_formed(nodes),
        0 <= x < nodes.len(),
    ensures
        well_formed(without_subtree(nodes, x)),
        without_subtree(nodes, x).len() == nodes.len() - subtree(nodes, x, None).len(),
        forall|j: int|
            0 <= j < nodes.len() && under(nodes, x, j) ==> !has_id(
                without_subtree(nodes, x),
                (#[trigger] nodes[j]).node_id,
            ),
        forall|j: int|
            0 <= j < nodes.len() && !under(nodes, x, j) ==> has_id(
                without_subtree(nodes, x),
                (#[trigger] nodes[j]).node_id,
            ),
{
    let mid = detached(nodes, x);
    let alive = outside(nodes, x);
    let after = without_subtree(nodes, x);
    lemma_detached_ids(nodes, x);
    lemma_detached_among(nodes, x);
    lemma_without_subtree_keeps(nodes, x);
    lemma_alive_well_formed(mid, after, alive);
    lemma_without_subtree_count(nodes, x);
    assert forall|j: int| 0 <= j < nodes.len() && under(nodes, x, j) implies !has_id(
        after,
        (#[trigger] nodes[j]).node_id,
    ) by {
        if has_id(after, nodes[j].node_id) {
            lemma_position(after, nodes[j].node_id);
            let a = position(after, nodes[j].node_id);
            assert(alive(after[a].node_id));
        }
    }
    assert forall|j: int| 0 <= j < nodes.len() && !under(nodes, x, j) implies has_id(
        after,
        (#[trigger] nodes[j]).node_id,
    ) by {
        assert(alive(mid[j].node_id));
    }
}

/// No id belongs both to a node of `a` and to a node of `b`.
pub open spec fn disjoint_ids<Q, T>(a: Seq<NodeView<Q, T>>, b: Seq<NodeView<Q, T>>) -> bool {
    forall|i: int, j: int|
        0 <= i < a.len() && 0 <= j < b.len() ==> (#[trigger] a[i]).node_id != (
        #[trigger] b[j]).node_id
}

/// Where an id stands in two sequences of nodes put one after the other.
pub proof fn lemma_position_append<Q, T>(a: Seq<NodeView<Q, T>>, b: Seq<NodeView<Q, T>>, id: Q)
    ensures
        has_id(a, id) ==> position(a + b, id) == position(a, id),
        !has_id(a, id) && has_id(b, id) ==> position(a + b, id) == a.len() + position(b, id),
        has_id(a + b, id) <==> has_id(a, id) || has_id(b, id),
{
    let all = a + b;
    lemma_position(a, id);
    lemma_position(b, id);
    if has_id(a, id) {
        let p = position(a, id);
        assert(all[p] == a[p]);
        assert forall|j: int| 0 <= j < p implies (#[trigger] all[j]).node_id != id by {
            assert(all[j] == a[j]);
            assert(a[j].node_id != id);
        }
        lemma_position_is(all, id, p);
    } else if has_id(b, id) {
        let p = position(b, id);
        assert(all[a.len() + p] == b[p]);
        assert forall|j: int| 0 <= j < a.len() + p implies (#[trigger] all[j]).node_id != id by {
            if j < a.len() {
                assert(all[j] == a[j]);
                assert(a[j].node_id != id);
            } else {
                assert(all[j] == b[j - a.len()]);
                assert(b[j - a.len()].node_id != id);
            }
        }
        lemma_position_is(all, id, a.len() + p);
    } else {
        assert forall|j: int| 0 <= j < all.len() implies (#[trigger] all[j]).node_id != id by {
            if j < a.len() {
                assert(all[j] == a[j]);
                assert(a[j].node_id != id);
            } else {
                assert(all[j] == b[j - a.len()]);
                assert(b[j - a.len()].node_id != id);
            }
        }
        lemma_position_absent(all, id);
    }
}

/// Where the ids of a tree and of a subtree stand once the subtree was
/// added to the tree.
proof fn lemma_with_subtree_positions<Q, T>(
    nodes: Seq<NodeView<Q, T>>,
    at: int,
    part: Seq<NodeView<Q, T>>,
)
    requires
        well_formed(nodes),
        well_formed(part),
        0 <= at < nodes.len(),
        part.len() > 0,
        disjoint_ids(nodes, part),
    ensures
        ({
            let all = with_subtree(nodes, at, part);
            let n = nodes.len() as int;
            &&& all.len() == n + part.len()
            &&& forall|i: int|
                0 <= i < n ==> (#[trigger] all[i]).node_id == nodes[i].node_id && all[i].parent
                    == nodes[i].parent && position(all, nodes[i].node_id) == i
            &&& forall|i: int| 0 <= i < n && i != at ==> (#[trigger] all[i]).children == nodes[i].children
            &&& all[at].children == nodes[at].children.push(part[0].node_id)
            &&& forall|j: int|
                0 <= j < part.len() ==> (#[trigger] all[n + j]).node_id == part[j].node_id && all[n
                    + j].children == part[j].children && position(all, part[j].node_id) == n + j
            &&& forall|j: int| 0 < j < part.len() ==> (#[trigger] all[n + j]).parent == part[j].parent
            &&& all[n].parent == Some(nodes[at].node_id)
            &&& !nodes[at].children.contains(part[0].node_id)
        }),
{
    let n = nodes.len() as int;
    lemma_root_is_first(part);
    let r = crate::model::root_position(part);
    let grown = nodes.update(
        at,
        NodeView { children: nodes[at].children.push(part[r].node_id), ..nodes[at] },
    );
    let linked = part.update(r, NodeView { parent: Some(nodes[at].node_id), ..part[r] });
    let all = grown + linked;
    assert(all == with_subtree(nodes, at, part));
    assert forall|i: int| 0 <= i < n implies (#[trigger] all[i]).node_id == nodes[i].node_id
        && all[i].parent == nodes[i].parent && position(all, nodes[i].node_id) == i by {
        lemma_node(nodes, i);
        lemma_position_same_ids(grown, nodes, nodes[i].node_id);
        lemma_position_append(grown, linked, nodes[i].node_id);
    }
    assert forall|j: int| 0 <= j < part.len() implies (#[trigger] all[n + j]).node_id
        == part[j].node_id && all[n + j].children == part[j].children && position(
        all,
        part[j].node_id,
    ) == n + j by {
        lemma_node(part, j);
        let id = part[j].node_id;
        lemma_position_same_ids(linked, part, id);
        lemma_position_same_ids(grown, nodes, id);
        lemma_position_append(grown, linked, id);
        if has_id(nodes, id) {
            lemma_position(nodes, id);
            assert(nodes[position(nodes, id)].node_id != part[j].node_id);
        }
    }
    if nodes[at].children.contains(part[0].node_id) {
        let w = choose|w: int|
            0 <= w < nodes[at].children.len() && nodes[at].children[w] == part[0].node_id;
        lemma_child(nodes, at, w);
        assert(nodes[position(nodes, part[0].node_id)].node_id != part[0].node_id);
    }
}

/// Adding a subtree that is a tree of its own, with a root, and shares no
/// id with the tree keeps the invariant of the tree.
pub proof fn lemma_with_subtree_well_formed<Q, T>(
    nodes: Seq<NodeView<Q, T>>,
    at: int,
    part: Seq<NodeView<Q, T>>,
)
    requires
        well_formed(nodes),
        well_formed(part),
        0 <= at < nodes.len(),
        has_root(part),
        disjoint_ids(nodes, part),
    ensures
        well_formed(with_subtree(nodes, at, part)),
{
    let all = with_subtree(nodes, at, part);
    let n = nodes.len() as int;
    assert(part.len() > 0);
    lemma_with_subtree_positions(nodes, at, part);
    lemma_root_is_first(part);
    assert(distinct_ids(all)) by {
        assert forall|i: int, j: int| 0 <= i < j < all.len() implies (#[trigger] all[i]).node_id
            != (#[trigger] all[j]).node_id by {
            if j < n {
                lemma_node(nodes, i);
                lemma_node(nodes, j);
            } else if i < n {
                assert(all[i].node_id == nodes[i].node_id);
                assert(all[n + (j - n)].node_id == part[j - n].node_id);
            } else {
                lemma_node(part, i - n);
                lemma_node(part, j - n);
                assert(all[n + (i - n)].node_id == part[i - n].node_id);
                assert(all[n + (j - n)].node_id == part[j - n].node_id);
            }
        }
    }
    assert(children_linked(all)) by {
        assert forall|i: int, k: int|
            0 <= i < all.len() && 0 <= k < all[i].children.len() implies ({
            let j = position(all, #[trigger] all[i].children[k]);
            i < j < all.len() && all[j].parent == Some(all[i].node_id)
        }) by {
            if i < n {
                if k < nodes[i].children.len() {
                    lemma_child(nodes, i, k);
                    let j = position(nodes, nodes[i].children[k]);
                    assert(all[i].children[k] == nodes[i].children[k]);
                    assert(all[j].node_id == nodes[j].node_id);
                } else {
                    assert(all[i].children[k] == part[0].node_id);
                    assert(all[n + 0].node_id == part[0].node_id);
                }
            } else {
                let i2 = i - n;
                assert(all[n + i2].children == part[i2].children);
                lemma_child(part, i2, k);
                let j2 = position(part, part[i2].children[k]);
                assert(all[n + j2].node_id == part[j2].node_id);
                assert(all[n + j2].parent == part[j2].parent);
            }
        }
        assert forall|i: int| 0 <= i < all.len() implies (
        #[trigger] all[i]).children.no_duplicates() by {
            if i < n {
                lemma_node(nodes, i);
            } else {
                lemma_node(part, i - n);
                assert(all[n + (i - n)].children == part[i - n].children);
            }
        }
    }
    assert(parents_linked(all)) by {
        assert forall|j: int| 0 <= j < all.len() && (#[trigger] all[j]).parent is Some implies ({
            let i = position(all, all[j].parent->0);
            i < j && all[i].children.contains(all[j].node_id)
        }) by {
            if j < n {
                lemma_parent(nodes, j);
                let i = position(nodes, nodes[j].parent->0);
                assert(all[i].node_id == nodes[i].node_id);
                let w = choose|w: int|
                    0 <= w < nodes[i].children.len() && nodes[i].children[w] == nodes[j].node_id;
                assert(all[i].children[w] == nodes[j].node_id);
            } else if j == n {
                assert(all[n + 0].node_id == part[0].node_id);
                assert(all[at].node_id == nodes[at].node_id);
                assert(all[at].children[nodes[at].children.len() as int] == part[0].node_id);
            } else {
                let j2 = j - n;
                assert(all[n + j2].parent == part[j2].parent);
                lemma_parent(part, j2);
                let i2 = position(part, part[j2].parent->0);
                assert(all[n + i2].node_id == part[i2].node_id);
                assert(all[n + j2].node_id == part[j2].node_id);
            }
        }
    }
    assert(single_root(all)) by {
        reveal(well_formed);
        assert forall|i: int, j: int|
            0 <= i < all.len() && 0 <= j < all.len() && (#[trigger] all[i]).parent is None && (
            #[trigger] all[j]).parent is None implies i == j by {
            if i > n {
                assert(all[n + (i - n)].parent == part[i - n].parent);
                assert(part[0].parent is None);
            }
            if j > n {
                assert(all[n + (j - n)].parent == part[j - n].parent);
                assert(part[0].parent is None);
            }
            if i < n && j < n {
                assert(nodes[i].parent is None && nodes[j].parent is None);
            }
        }
    }
    reveal(well_formed);
}

/// Whether `new` differs from `old` in its value alone, or in the order of
/// its children as well: the two have the same id, parent and children,
/// the children in whatever order.
pub open spec fn same_links<Q, T>(old: NodeView<Q, T>, new: NodeView<Q, T>) -> bool {
    &&& new.node_id == old.node_id
    &&& new.parent == old.parent
    &&& new.children.to_multiset() == old.children.to_multiset()
}

/// Two sequences with the same elements, as often: what one holds, the
/// other holds, and one has no duplicates where the other has none.
proof fn lemma_same_elements<Q>(a: Seq<Q>, b: Seq<Q>)
    requires
        a.to_multiset() == b.to_multiset(),
    ensures
        forall|c: Q| #[trigger] a.contains(c) <==> b.contains(c),
        a.no_duplicates() ==> b.no_duplicates(),
{
    assert forall|c: Q| #[trigger] a.contains(c) <==> b.contains(c) by {
        vstd::seq_lib::to_multiset_contains(a, c);
        vstd::seq_lib::to_multiset_contains(b, c);
    }
    if a.no_duplicates() {
        a.lemma_multiset_has_no_duplicates();
        b.lemma_multiset_has_no_duplicates_conv();
    }
}

/// Putting, in the place of a node of a tree, a node with another value,
/// or with the same children in another order, keeps the invariant of the
/// tree.
pub proof fn lemma_update_well_formed<Q, T>(nodes: Seq<NodeView<Q, T>>, x: int, node: NodeView<Q, T>)
    requires
        well_formed(nodes),
        0 <= x < nodes.len(),
        same_links(nodes[x], node),
    ensures
        well_formed(nodes.update(x, node)),
{
    let after = nodes.update(x, node);
    lemma_same_elements(nodes[x].children, node.children);
    lemma_same_elements(node.children, nodes[x].children);
    assert forall|c: Q| #[trigger] position(after, c) == position(nodes, c) by {
        lemma_position_same_ids(after, nodes, c);
    }
    assert(distinct_ids(after)) by {
        reveal(well_formed);
        assert forall|i: int, j: int| 0 <= i < j < after.len() implies (#[trigger] after[i]).node_id
            != (#[trigger] after[j]).node_id by {
            assert(nodes[i].node_id != nodes[j].node_id);
        }
    }
    assert(children_linked(after)) by {
        assert forall|i: int, k: int|
            0 <= i < after.len() && 0 <= k < after[i].children.len() implies ({
            let j = position(after, #[trigger] after[i].children[k]);
            i < j < after.len() && after[j].parent == Some(after[i].node_id)
        }) by {
            let c = after[i].children[k];
            assert(after[i].children.contains(c));
            let w = choose|w: int| 0 <= w < nodes[i].children.len() && nodes[i].children[w] == c;
            lemma_child(nodes, i, w);
        }
        assert forall|i: int| 0 <= i < after.len() implies (
        #[trigger] after[i]).children.no_duplicates() by {
            lemma_node(nodes, i);
        }
    }
    assert(parents_linked(after)) by {
        assert forall|j: int| 0 <= j < after.len() && (#[trigger] after[j]).parent is Some implies ({
            let i = position(after, after[j].parent->0);
            i < j && after[i].children.contains(after[j].node_id)
        }) by {
            lemma_parent(nodes, j);
        }
    }
    assert(single_root(after)) by {
        reveal(well_formed);
        assert forall|i: int, j: int|
            0 <= i < after.len() && 0 <= j < after.len() && (#[trigger] after[i]).parent is None && (
            #[trigger] after[j]).parent is None implies i == j by {
            assert(nodes[i].parent is None && nodes[j].parent is None);
        }
    }
    reveal(well_formed);
}

} // verus!
