//! The mathematical model of a tree: a sequence of node views, in the
//! order in which the nodes were added, linked by identifiers.

use crate::node::{without, NodeView};
use crate::tree::TraversalStrategy;
use vstd::prelude::*;

verus! {

/// Whether some node of `nodes` has the identifier `id`.
pub open spec fn has_id<Q, T>(nodes: Seq<NodeView<Q, T>>, id: Q) -> bool {
    exists|i: int| 0 <= i < nodes.len() && (#[trigger] nodes[i]).node_id == id
}

/// Whether `i` is the position of the first node of `nodes` with the
/// identifier `id`.
pub open spec fn is_first_with_id<Q, T>(nodes: Seq<NodeView<Q, T>>, id: Q, i: int) -> bool {
    &&& 0 <= i < nodes.len()
    &&& nodes[i].node_id == id
    &&& forall|j: int| 0 <= j < i ==> (#[trigger] nodes[j]).node_id != id
}

/// The position of the first node with the identifier `id`, or the length
/// of `nodes` where no node has it.
pub open spec fn position<Q, T>(nodes: Seq<NodeView<Q, T>>, id: Q) -> int {
    if has_id(nodes, id) {
        choose|i: int| is_first_with_id(nodes, id, i)
    } else {
        nodes.len() as int
    }
}

/// Whether `i` is the position of the first node of `nodes` without a
/// parent.
pub open spec fn is_first_root<Q, T>(nodes: Seq<NodeView<Q, T>>, i: int) -> bool {
    &&& 0 <= i < nodes.len()
    &&& nodes[i].parent is None
    &&& forall|j: int| 0 <= j < i ==> (#[trigger] nodes[j]).parent is Some
}

/// Whether some node of `nodes` has no parent.
pub open spec fn has_root<Q, T>(nodes: Seq<NodeView<Q, T>>) -> bool {
    exists|i: int| 0 <= i < nodes.len() && (#[trigger] nodes[i]).parent is None
}

/// The position of the first node without a parent, or the length of
/// `nodes` where every node has one.
pub open spec fn root_position<Q, T>(nodes: Seq<NodeView<Q, T>>) -> int {
    if has_root(nodes) {
        choose|i: int| is_first_root(nodes, i)
    } else {
        nodes.len() as int
    }
}

/// Among the positions below `bound` that hold `id`, one is the first.
proof fn lemma_first_with_id_exists<Q, T>(nodes: Seq<NodeView<Q, T>>, id: Q, bound: int)
    requires
        0 <= bound < nodes.len(),
        nodes[bound].node_id == id,
    ensures
        exists|i: int| is_first_with_id(nodes, id, i),
    decreases bound,
{
    if forall|j: int| 0 <= j < bound ==> (#[trigger] nodes[j]).node_id != id {
        assert(is_first_with_id(nodes, id, bound));
    } else {
        let j = choose|j: int| 0 <= j < bound && (#[trigger] nodes[j]).node_id == id;
        lemma_first_with_id_exists(nodes, id, j);
    }
}

/// What `position` is: the first position that holds `id`, if any.
pub proof fn lemma_position<Q, T>(nodes: Seq<NodeView<Q, T>>, id: Q)
    ensures
        0 <= position(nodes, id) <= nodes.len(),
        has_id(nodes, id) <==> position(nodes, id) < nodes.len(),
        has_id(nodes, id) ==> is_first_with_id(nodes, id, position(nodes, id)),
{
    if has_id(nodes, id) {
        let k = choose|i: int| 0 <= i < nodes.len() && (#[trigger] nodes[i]).node_id == id;
        lemma_first_with_id_exists(nodes, id, k);
    }
}

/// A position that is the first to hold `id` is `position(nodes, id)`.
pub proof fn lemma_position_is<Q, T>(nodes: Seq<NodeView<Q, T>>, id: Q, i: int)
    requires
        is_first_with_id(nodes, id, i),
    ensures
        position(nodes, id) == i,
        has_id(nodes, id),
{
    lemma_position(nodes, id);
    let p = position(nodes, id);
    assert(is_first_with_id(nodes, id, p));
    if p < i {
        assert(nodes[p].node_id != id);
    } else if i < p {
        assert(nodes[i].node_id != id);
    }
}

/// Where no position holds `id`, `position` is the length.
pub proof fn lemma_position_absent<Q, T>(nodes: Seq<NodeView<Q, T>>, id: Q)
    requires
        forall|j: int| 0 <= j < nodes.len() ==> (#[trigger] nodes[j]).node_id != id,
    ensures
        position(nodes, id) == nodes.len(),
        !has_id(nodes, id),
{
}

proof fn lemma_first_root_exists<Q, T>(nodes: Seq<NodeView<Q, T>>, bound: int)
    requires
        0 <= bound < nodes.len(),
        nodes[bound].parent is None,
    ensures
        exists|i: int| is_first_root(nodes, i),
    decreases bound,
{
    if forall|j: int| 0 <= j < bound ==> (#[trigger] nodes[j]).parent is Some {
        assert(is_first_root(nodes, bound));
    } else {
        let j = choose|j: int| 0 <= j < bound && (#[trigger] nodes[j]).parent is None;
        lemma_first_root_exists(nodes, j);
    }
}

/// What `root_position` is: the first position without a parent, if any.
pub proof fn lemma_root_position<Q, T>(nodes: Seq<NodeView<Q, T>>)
    ensures
        0 <= root_position(nodes) <= nodes.len(),
        has_root(nodes) <==> root_position(nodes) < nodes.len(),
        has_root(nodes) ==> is_first_root(nodes, root_position(nodes)),
{
    if has_root(nodes) {
        let k = choose|i: int| 0 <= i < nodes.len() && (#[trigger] nodes[i]).parent is None;
        lemma_first_root_exists(nodes, k);
    }
}

/// A position that is the first without a parent is `root_position(nodes)`.
pub proof fn lemma_root_position_is<Q, T>(nodes: Seq<NodeView<Q, T>>, i: int)
    requires
        is_first_root(nodes, i),
    ensures
        root_position(nodes) == i,
        has_root(nodes),
{
    lemma_root_position(nodes);
    let p = root_position(nodes);
    assert(is_first_root(nodes, p));
    if p < i {
        assert(nodes[p].parent is Some);
    } else if i < p {
        assert(nodes[i].parent is Some);
    }
}

/// No two nodes have the same identifier.
pub open spec fn distinct_ids<Q, T>(nodes: Seq<NodeView<Q, T>>) -> bool {
    forall|i: int, j: int|
        0 <= i < j < nodes.len() ==> (#[trigger] nodes[i]).node_id != (#[trigger] nodes[j]).node_id
}

/// Every identifier that a node lists as a child belongs to a node further
/// on in the sequence, which names the listing node as its parent; and no
/// node lists a child twice.
pub open spec fn children_linked<Q, T>(nodes: Seq<NodeView<Q, T>>) -> bool {
    &&& forall|i: int, k: int|
        0 <= i < nodes.len() && 0 <= k < nodes[i].children.len() ==> {
            let j = position(nodes, #[trigger] nodes[i].children[k]);
            i < j < nodes.len() && nodes[j].parent == Some(nodes[i].node_id)
        }
    &&& forall|i: int| 0 <= i < nodes.len() ==> (#[trigger] nodes[i]).children.no_duplicates()
}

/// Every node that names a parent stands after that parent in the
/// sequence and is listed among its children.
pub open spec fn parents_linked<Q, T>(nodes: Seq<NodeView<Q, T>>) -> bool {
    forall|j: int|
        0 <= j < nodes.len() && (#[trigger] nodes[j]).parent is Some ==> {
            let i = position(nodes, nodes[j].parent->0);
            i < j && nodes[i].children.contains(nodes[j].node_id)
        }
}

/// At most one node has no parent.
pub open spec fn single_root<Q, T>(nodes: Seq<NodeView<Q, T>>) -> bool {
    forall|i: int, j: int|
        0 <= i < nodes.len() && 0 <= j < nodes.len() && (#[trigger] nodes[i]).parent is None && (
        #[trigger] nodes[j]).parent is None ==> i == j
}

/// The invariant of a tree: identifiers are unique, at most one node is
/// without a parent, parent and child links agree with each other, and a
/// parent stands before its children.
#[verifier::opaque]
pub open spec fn well_formed<Q, T>(nodes: Seq<NodeView<Q, T>>) -> bool {
    &&& distinct_ids(nodes)
    &&& children_linked(nodes)
    &&& parents_linked(nodes)
    &&& single_root(nodes)
}

/// In a tree, what a node lists as its `k`-th child is the id of a node
/// further on, whose parent is the listing node.
pub proof fn lemma_child<Q, T>(nodes: Seq<NodeView<Q, T>>, i: int, k: int)
    requires
        well_formed(nodes),
        0 <= i < nodes.len(),
        0 <= k < nodes[i].children.len(),
    ensures
        i < position(nodes, nodes[i].children[k]) < nodes.len(),
        has_id(nodes, nodes[i].children[k]),
        nodes[position(nodes, nodes[i].children[k])].node_id == nodes[i].children[k],
        nodes[position(nodes, nodes[i].children[k])].parent == Some(nodes[i].node_id),
{
    reveal(well_formed);
    lemma_position(nodes, nodes[i].children[k]);
}

/// In a tree, the parent that a node names is the id of a node before it,
/// which lists the node among its children.
pub proof fn lemma_parent<Q, T>(nodes: Seq<NodeView<Q, T>>, j: int)
    requires
        well_formed(nodes),
        0 <= j < nodes.len(),
        nodes[j].parent is Some,
    ensures
        0 <= position(nodes, nodes[j].parent->0) < j,
        has_id(nodes, nodes[j].parent->0),
        nodes[position(nodes, nodes[j].parent->0)].node_id == nodes[j].parent->0,
        nodes[position(nodes, nodes[j].parent->0)].children.contains(nodes[j].node_id),
{
    reveal(well_formed);
    lemma_position(nodes, nodes[j].parent->0);
}

/// In a tree, each node stands at the position of its id.
pub proof fn lemma_node<Q, T>(nodes: Seq<NodeView<Q, T>>, i: int)
    requires
        well_formed(nodes),
        0 <= i < nodes.len(),
    ensures
        position(nodes, nodes[i].node_id) == i,
        has_id(nodes, nodes[i].node_id),
        nodes[i].children.no_duplicates(),
{
    reveal(well_formed);
    lemma_position_of_node(nodes, i);
}

/// With unique identifiers, each node stands at the position of its id.
pub proof fn lemma_position_of_node<Q, T>(nodes: Seq<NodeView<Q, T>>, i: int)
    requires
        distinct_ids(nodes),
        0 <= i < nodes.len(),
    ensures
        position(nodes, nodes[i].node_id) == i,
        has_id(nodes, nodes[i].node_id),
{
    assert forall|j: int| 0 <= j < i implies (#[trigger] nodes[j]).node_id != nodes[i].node_id by {}
    lemma_position_is(nodes, nodes[i].node_id, i);
}

/// In a tree that holds a node, the first node is the root, and the only
/// node without a parent.
pub proof fn lemma_root_is_first<Q, T>(nodes: Seq<NodeView<Q, T>>)
    requires
        well_formed(nodes),
        nodes.len() > 0,
    ensures
        nodes[0].parent is None,
        has_root(nodes),
        root_position(nodes) == 0,
{
    if nodes[0].parent is Some {
        lemma_parent(nodes, 0);
    }
    lemma_root_position_is(nodes, 0);
}

/// The height of the node at position `i`: 0 for a node without children,
/// else one more than the greatest height among its children.
pub open spec fn node_height<Q, T>(nodes: Seq<NodeView<Q, T>>, i: int) -> nat
    decreases nodes.len() - i, 1int, 0int,
{
    if 0 <= i < nodes.len() {
        tallest_child(nodes, i, nodes[i].children.len() as int)
    } else {
        0
    }
}

/// One more than the greatest height among the first `k` children of the
/// node at position `i`, and 0 where `k` is 0.
pub open spec fn tallest_child<Q, T>(nodes: Seq<NodeView<Q, T>>, i: int, k: int) -> nat
    decreases nodes.len() - i, 0int, k,
{
    if 0 <= i < nodes.len() && 0 < k <= nodes[i].children.len() {
        let j = position(nodes, nodes[i].children[k - 1]);
        let before = tallest_child(nodes, i, k - 1);
        if i < j < nodes.len() {
            let here = node_height(nodes, j) + 1;
            if here > before {
                here
            } else {
                before
            }
        } else {
            before
        }
    } else {
        0
    }
}

/// A node's height is less than the number of nodes that stand after it.
pub proof fn lemma_height_bound<Q, T>(nodes: Seq<NodeView<Q, T>>, i: int)
    requires
        0 <= i < nodes.len(),
    ensures
        node_height(nodes, i) + i < nodes.len(),
    decreases nodes.len() - i, 1int, 0int,
{
    lemma_tallest_bound(nodes, i, nodes[i].children.len() as int);
}

proof fn lemma_tallest_bound<Q, T>(nodes: Seq<NodeView<Q, T>>, i: int, k: int)
    requires
        0 <= i < nodes.len(),
        0 <= k <= nodes[i].children.len(),
    ensures
        tallest_child(nodes, i, k) + i < nodes.len(),
    decreases nodes.len() - i, 0int, k,
{
    if k > 0 {
        lemma_tallest_bound(nodes, i, k - 1);
        let j = position(nodes, nodes[i].children[k - 1]);
        if i < j < nodes.len() {
            lemma_height_bound(nodes, j);
        }
    }
}

/// The ids of the ancestors of the node at position `j`, from its parent
/// up to the root.
pub open spec fn ancestors<Q, T>(nodes: Seq<NodeView<Q, T>>, j: int) -> Seq<Q>
    decreases j,
{
    if 0 <= j < nodes.len() && nodes[j].parent is Some {
        let p = nodes[j].parent->0;
        let i = position(nodes, p);
        if 0 <= i < j {
            seq![p] + ancestors(nodes, i)
        } else {
            seq![p]
        }
    } else {
        Seq::empty()
    }
}

/// A node has fewer ancestors than nodes stand before it.
pub proof fn lemma_ancestors_bound<Q, T>(nodes: Seq<NodeView<Q, T>>, j: int)
    requires
        well_formed(nodes),
        0 <= j < nodes.len(),
    ensures
        ancestors(nodes, j).len() <= j,
    decreases j,
{
    if nodes[j].parent is Some {
        let i = position(nodes, nodes[j].parent->0);
        lemma_parent(nodes, j);
        lemma_ancestors_bound(nodes, i);
    }
}

/// The siblings of the node at position `j`: the children of its parent,
/// with or without the node itself. A node without a parent has no
/// sibling but itself.
pub open spec fn siblings<Q, T>(nodes: Seq<NodeView<Q, T>>, j: int, inclusive: bool) -> Seq<Q> {
    let id = nodes[j].node_id;
    match nodes[j].parent {
        Some(p) => {
            let all = nodes[position(nodes, p)].children;
            if inclusive {
                all
            } else {
                all.filter(|c: Q| c != id)
            }
        },
        None => if inclusive {
            seq![id]
        } else {
            Seq::empty()
        },
    }
}

/// `s` without its repetitions: of several equal elements the first stays.
pub open spec fn dedup<Q>(s: Seq<Q>) -> Seq<Q> {
    s.remove_duplicates(Seq::empty())
}

/// The ids that a traversal from the node at position `i` yields.
///
/// Pre-order yields the node and then what each child yields. Post-order
/// yields what each child yields and then the node. In-order yields what
/// the first child yields, that child unless it was yielded, the node
/// unless it was yielded, and then each later child followed by what it
/// yields; a node without children yields nothing. Repetitions are taken
/// out at the end.
pub open spec fn traversal<Q, T>(
    nodes: Seq<NodeView<Q, T>>,
    i: int,
    order: TraversalStrategy,
) -> Seq<Q>
    decreases nodes.len() - i, 1int, 0int,
{
    if 0 <= i < nodes.len() {
        let walked = walk(nodes, i, order, nodes[i].children.len() as int);
        dedup(
            match order {
                TraversalStrategy::PreOrder => seq![nodes[i].node_id] + walked,
                TraversalStrategy::PostOrder => walked.push(nodes[i].node_id),
                TraversalStrategy::InOrder => walked,
            },
        )
    } else {
        Seq::empty()
    }
}

/// What the first `k` children of the node at position `i` contribute to
/// a traversal from that node.
pub open spec fn walk<Q, T>(
    nodes: Seq<NodeView<Q, T>>,
    i: int,
    order: TraversalStrategy,
    k: int,
) -> Seq<Q>
    decreases nodes.len() - i, 0int, k,
{
    if 0 <= i < nodes.len() && 0 < k <= nodes[i].children.len() {
        let child = nodes[i].children[k - 1];
        let j = position(nodes, child);
        let before = walk(nodes, i, order, k - 1);
        let below = if i < j < nodes.len() {
            traversal(nodes, j, order)
        } else {
            Seq::empty()
        };
        match order {
            TraversalStrategy::InOrder => if k == 1 {
                let with_child = push_new(below, child);
                push_new(with_child, nodes[i].node_id)
            } else {
                before.push(child) + below
            },
            _ => before + below,
        }
    } else {
        Seq::empty()
    }
}

/// `s` with `id` at its end, unless `s` holds `id` already.
pub open spec fn push_new<Q>(s: Seq<Q>, id: Q) -> Seq<Q> {
    if s.contains(id) {
        s
    } else {
        s.push(id)
    }
}

/// How many generations below a node a subtree with the limit `limit`
/// takes from the children of that node.
pub open spec fn one_less(limit: Option<int>) -> Option<int> {
    match limit {
        Some(n) => Some(n - 1),
        None => None,
    }
}

/// The nodes of the subtree under the node at position `i`: the node, then
/// the subtrees of its children in their order. With `Some(n)` for `limit`
/// the subtree stops `n` generations below the node; with `None` it holds
/// every descendant.
pub open spec fn subtree<Q, T>(nodes: Seq<NodeView<Q, T>>, i: int, limit: Option<int>) -> Seq<
    NodeView<Q, T>,
>
    decreases nodes.len() - i, 1int, 0int,
{
    if 0 <= i < nodes.len() {
        if limit is None || limit->0 > 0 {
            seq![nodes[i]] + subtree_below(
                nodes,
                i,
                one_less(limit),
                nodes[i].children.len() as int,
            )
        } else {
            seq![nodes[i]]
        }
    } else {
        Seq::empty()
    }
}

/// The subtrees of the first `k` children of the node at position `i`,
/// one after the other, each with the limit `limit`.
pub open spec fn subtree_below<Q, T>(
    nodes: Seq<NodeView<Q, T>>,
    i: int,
    limit: Option<int>,
    k: int,
) -> Seq<NodeView<Q, T>>
    decreases nodes.len() - i, 0int, k,
{
    if 0 <= i < nodes.len() && 0 < k <= nodes[i].children.len() {
        let j = position(nodes, nodes[i].children[k - 1]);
        let before = subtree_below(nodes, i, limit, k - 1);
        if i < j < nodes.len() {
            before + subtree(nodes, j, limit)
        } else {
            before
        }
    } else {
        Seq::empty()
    }
}

/// The ids of `nodes`, in the same order.
pub open spec fn ids_of<Q, T>(nodes: Seq<NodeView<Q, T>>) -> Seq<Q> {
    Seq::new(nodes.len(), |k: int| nodes[k].node_id)
}

/// The node at position `x` and its descendants: their ids.
pub open spec fn subtree_ids<Q, T>(nodes: Seq<NodeView<Q, T>>, x: int) -> Seq<Q> {
    ids_of(subtree(nodes, x, None))
}

/// The nodes of a tree after the children of the node at position `x`,
/// which has a parent, were handed to that parent: they follow the
/// children that the parent had, in their order, and the node is no
/// longer among those.
pub open spec fn handed_over<Q, T>(nodes: Seq<NodeView<Q, T>>, x: int) -> Seq<NodeView<Q, T>> {
    let id = nodes[x].node_id;
    let parent_id = nodes[x].parent->0;
    let p = position(nodes, parent_id);
    Seq::new(
        nodes.len(),
        |k: int|
            if k == p {
                NodeView {
                    children: without(nodes[p].children, id) + nodes[x].children,
                    ..nodes[p]
                }
            } else if nodes[k].parent == Some(id) {
                NodeView { parent: Some(parent_id), ..nodes[k] }
            } else {
                nodes[k]
            },
    )
}

/// The nodes of a tree after the node at position `x`, which has a
/// parent, was removed and its children were handed to that parent.
pub open spec fn without_node<Q, T>(nodes: Seq<NodeView<Q, T>>, x: int) -> Seq<NodeView<Q, T>> {
    handed_over(nodes, x).remove(x)
}

/// The nodes of a tree after the node at position `x` was taken out of the
/// children of its parent, if it has one.
pub open spec fn detached<Q, T>(nodes: Seq<NodeView<Q, T>>, x: int) -> Seq<NodeView<Q, T>> {
    match nodes[x].parent {
        Some(parent_id) => {
            let p = position(nodes, parent_id);
            nodes.update(
                p,
                NodeView { children: without(nodes[p].children, nodes[x].node_id), ..nodes[p] },
            )
        },
        None => nodes,
    }
}

/// The nodes of a tree after the node at position `x` was removed with all
/// its descendants.
pub open spec fn without_subtree<Q, T>(nodes: Seq<NodeView<Q, T>>, x: int) -> Seq<NodeView<Q, T>> {
    let doomed = subtree_ids(nodes, x);
    detached(nodes, x).filter(|n: NodeView<Q, T>| !doomed.contains(n.node_id))
}

/// The nodes of a tree after the nodes of `subtree` were added to `nodes`
/// with the root of `subtree` as the last child of the node at position
/// `at`.
pub open spec fn with_subtree<Q, T>(
    nodes: Seq<NodeView<Q, T>>,
    at: int,
    subtree: Seq<NodeView<Q, T>>,
) -> Seq<NodeView<Q, T>> {
    let r = root_position(subtree);
    nodes.update(
        at,
        NodeView { children: nodes[at].children.push(subtree[r].node_id), ..nodes[at] },
    ) + subtree.update(r, NodeView { parent: Some(nodes[at].node_id), ..subtree[r] })
}

/// Nodes with the same ids at the same positions have their ids at the
/// same positions.
pub proof fn lemma_position_same_ids<Q, T>(
    a: Seq<NodeView<Q, T>>,
    b: Seq<NodeView<Q, T>>,
    id: Q,
)
    requires
        a.len() == b.len(),
        forall|i: int| 0 <= i < a.len() ==> (#[trigger] a[i]).node_id == (#[trigger] b[i]).node_id,
    ensures
        position(a, id) == position(b, id),
        has_id(a, id) == has_id(b, id),
{
    lemma_position(a, id);
    lemma_position(b, id);
    if has_id(a, id) {
        let i = position(a, id);
        assert(b[i].node_id == id);
        assert forall|j: int| 0 <= j < i implies (#[trigger] b[j]).node_id != id by {
            assert(a[j].node_id != id);
        }
        lemma_position_is(b, id, i);
    } else if has_id(b, id) {
        let i = position(b, id);
        assert(a[i].node_id == id);
    }
}

/// In a tree, a node has no more children than the tree has nodes.
pub proof fn lemma_children_bound<Q, T>(nodes: Seq<NodeView<Q, T>>, i: int)
    requires
        well_formed(nodes),
        0 <= i < nodes.len(),
    ensures
        nodes[i].children.len() <= nodes.len(),
{
    let children = nodes[i].children;
    let ids = ids_of(nodes);
    lemma_node(nodes, i);
    children.unique_seq_to_set();
    ids.lemma_cardinality_of_set();
    assert(children.to_set().subset_of(ids.to_set())) by {
        assert forall|c: Q| children.to_set().contains(c) implies ids.to_set().contains(c) by {
            let k = choose|k: int| 0 <= k < children.len() && children[k] == c;
            lemma_child(nodes, i, k);
            assert(ids[position(nodes, c)] == c);
        }
    }
    vstd::seq_lib::seq_to_set_is_finite(ids);
    vstd::set_lib::lemma_len_subset(children.to_set(), ids.to_set());
}

/// The nodes of a tree after `node` was added to `nodes` under the parent
/// `parent`, or as the root where `parent` is `None`.
pub open spec fn with_node<Q, T>(
    nodes: Seq<NodeView<Q, T>>,
    node: NodeView<Q, T>,
    parent: Option<Q>,
) -> Seq<NodeView<Q, T>> {
    match parent {
        Some(p) => {
            let at = position(nodes, p);
            nodes.update(
                at,
                NodeView { children: nodes[at].children.push(node.node_id), ..nodes[at] },
            ).push(NodeView { parent: Some(p), ..node })
        },
        None => nodes.push(node),
    }
}


} // verus!
