//! Nodes and the ordered collection that holds them.

use crate::model::{has_id, lemma_position_absent, lemma_position_is, position};
use std::cmp::Ordering;
use vstd::laws_eq::obeys_concrete_eq;
use vstd::prelude::*;
use vstd::std_specs::cmp::PartialEqSpec;

verus! {

/// `clone` on `A` hands back a value equal to the one it was called on.
pub open spec fn clone_is_copy<A: Clone>() -> bool {
    forall|a: A, b: A| #[trigger] cloned(a, b) ==> a == b
}

/// `A` can serve as an identifier: `==` decides equality of values, and a
/// clone equals the value it was made from. The integer types are of this
/// kind.
pub open spec fn id_like<A: PartialEq + Clone>() -> bool {
    &&& obeys_concrete_eq::<A>()
    &&& clone_is_copy::<A>()
}

/// What a node is: its id, its value, the ids of its children in order,
/// and the id of its parent.
pub ghost struct NodeView<Q, T> {
    pub node_id: Q,
    pub value: Option<T>,
    pub children: Seq<Q>,
    pub parent: Option<Q>,
}

/// A node in a tree.
///
/// A node knows its own id and value, the ids of its children in the order
/// in which they were added, and the id of its parent. It holds no other
/// node: the tree resolves the ids.
#[derive(Debug, Hash)]
pub struct Node<Q, T> where Q: PartialEq + Eq + Clone, T: PartialEq + Eq + Clone {
    node_id: Q,
    value: Option<T>,
    children: Vec<Q>,
    parent: Option<Q>,
}

impl<Q, T> View for Node<Q, T> where Q: PartialEq + Eq + Clone, T: PartialEq + Eq + Clone {
    type V = NodeView<Q, T>;

    closed spec fn view(&self) -> NodeView<Q, T> {
        NodeView {
            node_id: self.node_id,
            value: self.value,
            children: self.children@,
            parent: self.parent,
        }
    }
}

/// `s` without the elements equal to `id`, the others in their order.
pub open spec fn without<Q>(s: Seq<Q>, id: Q) -> Seq<Q> {
    s.filter(|c: Q| c != id)
}

impl<Q, T> Node<Q, T> where Q: PartialEq + Eq + Clone, T: PartialEq + Eq + Clone {
    /// Create a new node with the given id and value, without children and
    /// without a parent.
    pub fn new(node_id: Q, value: Option<T>) -> (node: Self)
        ensures
            node@ == (NodeView { node_id, value, children: Seq::<Q>::empty(), parent: None::<Q> }),
    {
        Node { node_id, value, children: Vec::new(), parent: None }
    }

    /// Add a child to the node: the child's id is appended to the children
    /// of the node, and the node becomes the parent of the child.
    pub fn add_child(&mut self, child: &mut Node<Q, T>)
        requires
            clone_is_copy::<Q>(),
        ensures
            final(self)@ == (NodeView {
                children: old(self)@.children.push(old(child)@.node_id),
                ..old(self)@
            }),
            final(child)@ == (NodeView { parent: Some(old(self)@.node_id), ..old(child)@ }),
    {
        let child_id = child.node_id.clone();
        assert(cloned(child.node_id, child_id));
        self.children.push(child_id);
        let own_id = self.node_id.clone();
        assert(cloned(self.node_id, own_id));
        child.parent = Some(own_id);
    }

    /// Remove a child from the node: the child's id leaves the children of
    /// the node, and the child has no parent afterwards.
    pub fn remove_child(&mut self, child: &mut Node<Q, T>)
        requires
            id_like::<Q>(),
        ensures
            final(self)@ == (NodeView {
                children: without(old(self)@.children, old(child)@.node_id),
                ..old(self)@
            }),
            final(child)@ == (NodeView { parent: None, ..old(child)@ }),
    {
        self.drop_child(&child.node_id);
        child.parent = None;
    }

    /// Get the id of the node.
    pub fn get_node_id(&self) -> (id: Q)
        requires
            clone_is_copy::<Q>(),
        ensures
            id == self@.node_id,
    {
        let id = self.node_id.clone();
        assert(cloned(self.node_id, id));
        id
    }

    /// Get the ids of the children of the node, in their order.
    pub fn get_children_ids(&self) -> (ids: Vec<Q>)
        requires
            clone_is_copy::<Q>(),
        ensures
            ids@ == self@.children,
    {
        let ids = self.children.clone();
        assert(ids@ =~= self.children@);
        ids
    }

    /// Get the id of the parent of the node: `None` for a node that has
    /// none, as the root of a tree.
    pub fn get_parent_id(&self) -> (id: Option<Q>)
        requires
            clone_is_copy::<Q>(),
        ensures
            id == self@.parent,
    {
        match &self.parent {
            Some(p) => {
                let id = p.clone();
                assert(cloned(*p, id));
                Some(id)
            },
            None => None,
        }
    }

    /// Get the value of the node.
    pub fn get_value(&self) -> (value: Option<T>)
        requires
            clone_is_copy::<T>(),
        ensures
            value == self@.value,
    {
        match &self.value {
            Some(v) => {
                let value = v.clone();
                assert(cloned(*v, value));
                Some(value)
            },
            None => None,
        }
    }

    /// Set the value of the node.
    pub fn set_value(&mut self, value: Option<T>)
        ensures
            final(self)@ == (NodeView { value, ..old(self)@ }),
    {
        self.value = value;
    }

    /// Update the value of the node in place: the new value is the one
    /// that `modifier` leaves behind when it is handed the old one.
    pub fn update_value(&mut self, modifier: impl FnOnce(&mut Option<T>))
        requires
            forall|slot: &mut Option<T>| #[trigger] call_requires(modifier, (slot,)),
        ensures
            exists|slot: &mut Option<T>|
                *slot == old(self)@.value && *final(slot) == final(self)@.value
                    && #[trigger] call_ensures(modifier, (slot,), ()),
            final(self)@ == (NodeView { value: final(self)@.value, ..old(self)@ }),
    {
        modifier(&mut self.value);
    }

    /// Set the parent of the node. With `Some(parent)`, the node also
    /// becomes the last child of `parent`.
    pub fn set_parent(&mut self, parent: Option<&mut Node<Q, T>>)
        requires
            clone_is_copy::<Q>(),
        ensures
            match parent {
                Some(p) => {
                    &&& final(self)@ == (NodeView { parent: Some(p@.node_id), ..old(self)@ })
                    &&& final(p)@ == (NodeView {
                        children: p@.children.push(old(self)@.node_id),
                        ..p@
                    })
                },
                None => final(self)@ == (NodeView { parent: None, ..old(self)@ }),
            },
    {
        match parent {
            Some(p) => {
                p.add_child(self);
            },
            None => {
                self.parent = None;
            },
        }
    }

    /// Sort the children of the node with a comparison function: one
    /// after the other, in their order, each child is put before the
    /// first of the children put so far that compares greater than it.
    /// With a total order for `compare` that is the ascending order, and
    /// children that compare equal keep their order.
    ///
    /// Whatever `compare` answers, the children stay the same, in another
    /// order, and each one is in order with the next: see `in_order`.
    /// Where it answers the same each time, the new order is the one that
    /// `arranged` gives.
    pub fn sort_children(&mut self, compare: impl Fn(&Q, &Q) -> Ordering)
        requires
            clone_is_copy::<Q>(),
            forall|a: &Q, b: &Q| #[trigger] call_requires(compare, (a, b)),
        ensures
            final(self)@.children.to_multiset() == old(self)@.children.to_multiset(),
            final(self)@ == (NodeView { children: final(self)@.children, ..old(self)@ }),
            forall|i: int|
                0 <= i < final(self)@.children.len() - 1 ==> in_order(
                    compare,
                    #[trigger] final(self)@.children[i],
                    final(self)@.children[i + 1],
                ),
            forall|greater: spec_fn(Q, Q) -> bool| #[trigger]
                answers(compare, greater) ==> final(self)@.children == arranged(
                    old(self)@.children,
                    greater,
                ),
    {
        let sorted = sorted_by(&self.children, compare);
        self.update_children(sorted);
    }

    /// Replace the children of the node.
    pub(crate) fn update_children(&mut self, update: Vec<Q>)
        ensures
            final(self)@ == (NodeView { children: update@, ..old(self)@ }),
    {
        self.children = update;
    }

    /// Take every occurrence of `id` out of the children of the node.
    pub(crate) fn drop_child(&mut self, id: &Q)
        requires
            id_like::<Q>(),
        ensures
            final(self)@ == (NodeView { children: without(old(self)@.children, *id), ..old(self)@ }),
    {
        let ghost before = self.children@;
        let ghost keep = |c: Q| c != *id;
        let mut kept: Vec<Q> = Vec::new();
        let mut i: usize = 0;
        proof {
            reveal(obeys_concrete_eq);
            assert(before.take(0) =~= Seq::<Q>::empty());
            reveal_with_fuel(Seq::filter, 1);
        }
        while i < self.children.len()
            invariant
                id_like::<Q>(),
                i <= self.children.len(),
                self.children@ == before,
                keep == (|c: Q| c != *id),
                kept@ == before.take(i as int).filter(keep),
            decreases self.children.len() - i,
        {
            proof {
                reveal(obeys_concrete_eq);
                assert(before.take(i + 1) =~= before.take(i as int).push(before[i as int]));
                before.take(i as int).lemma_filter_push(before[i as int], keep);
            }
            if self.children[i] != *id {
                let c = self.children[i].clone();
                assert(cloned(self.children[i as int], c));
                kept.push(c);
            }
            i = i + 1;
        }
        assert(before.take(before.len() as int) =~= before);
        self.children = kept;
    }

    /// The id of the node, without copying it.
    pub(crate) fn id_ref(&self) -> (id: &Q)
        ensures
            *id == self@.node_id,
    {
        &self.node_id
    }

    /// The children of the node, without copying them.
    pub(crate) fn children_ref(&self) -> (ids: &Vec<Q>)
        ensures
            ids@ == self@.children,
    {
        &self.children
    }

    /// The parent of the node, without copying it.
    pub(crate) fn parent_ref(&self) -> (id: &Option<Q>)
        ensures
            *id == self@.parent,
    {
        &self.parent
    }

    /// The value of the node, without copying it.
    pub(crate) fn value_ref(&self) -> (value: &Option<T>)
        ensures
            *value == self@.value,
    {
        &self.value
    }

    /// A node made of the given parts.
    pub(crate) fn from_parts(
        node_id: Q,
        value: Option<T>,
        children: Vec<Q>,
        parent: Option<Q>,
    ) -> (node: Self)
        ensures
            node@ == (NodeView { node_id, value, children: children@, parent }),
    {
        Node { node_id, value, children, parent }
    }

    /// A node with the id, the children and the parent of this one, and
    /// without a value.
    pub(crate) fn clone_links(&self) -> (copy: Self)
        requires
            clone_is_copy::<Q>(),
        ensures
            copy@ == (NodeView { value: None, ..self@ }),
    {
        Node {
            node_id: self.get_node_id(),
            value: None,
            children: self.get_children_ids(),
            parent: self.get_parent_id(),
        }
    }

    /// Append `id` to the children of the node.
    pub(crate) fn push_child_id(&mut self, id: Q)
        ensures
            final(self)@ == (NodeView { children: old(self)@.children.push(id), ..old(self)@ }),
    {
        self.children.push(id);
    }

    /// Set the parent of the node, leaving every other node as it is.
    pub(crate) fn set_parent_id(&mut self, id: Option<Q>)
        ensures
            final(self)@ == (NodeView { parent: id, ..old(self)@ }),
    {
        self.parent = id;
    }
}

impl<Q, T> Clone for Node<Q, T> where Q: PartialEq + Eq + Clone, T: PartialEq + Eq + Clone {
    fn clone(&self) -> (copy: Self)
        ensures
            clone_is_copy::<Q>() && clone_is_copy::<T>() ==> copy@ == self@,
    {
        let node_id = self.node_id.clone();
        assert(cloned(self.node_id, node_id));
        let value = match &self.value {
            Some(v) => {
                let w = v.clone();
                assert(cloned(*v, w));
                Some(w)
            },
            None => None,
        };
        let children = self.children.clone();
        assert(clone_is_copy::<Q>() ==> children@ =~= self.children@);
        let parent = match &self.parent {
            Some(p) => {
                let q = p.clone();
                assert(cloned(*p, q));
                Some(q)
            },
            None => None,
        };
        Node { node_id, value, children, parent }
    }
}

impl<Q, T> PartialEq for Node<Q, T> where Q: PartialEq + Eq + Clone, T: PartialEq + Eq + Clone {
    /// Two nodes are equal when their ids and their values are: children
    /// and parent do not count.
    fn eq(&self, other: &Self) -> (equal: bool)
    {
        self.node_id == other.node_id && self.value == other.value
    }
}

impl<Q, T> vstd::std_specs::cmp::PartialEqSpecImpl for Node<Q, T> where Q: PartialEq + Eq + Clone, T: PartialEq + Eq + Clone {
    open spec fn obeys_eq_spec() -> bool {
        Q::obeys_eq_spec() && T::obeys_eq_spec()
    }

    open spec fn eq_spec(&self, other: &Self) -> bool {
        &&& PartialEqSpec::eq_spec(&self@.node_id, &other@.node_id)
        &&& PartialEqSpec::eq_spec(&self@.value, &other@.value)
    }
}

impl<Q, T> Eq for Node<Q, T> where Q: PartialEq + Eq + Clone, T: PartialEq + Eq + Clone {

}

/// Whether `compare` has put `a` before `b`: it has answered that `a` is
/// not greater than `b`, or that `b` is greater than `a`.
pub open spec fn in_order<Q, F: Fn(&Q, &Q) -> Ordering>(compare: F, a: Q, b: Q) -> bool {
    ||| exists|o: Ordering| #[trigger] call_ensures(compare, (&a, &b), o) && !(o is Greater)
    ||| call_ensures(compare, (&b, &a), Ordering::Greater)
}

/// The position `i` of an executable sequence, as a number.
spec fn place(i: usize) -> int {
    i as int
}

/// `greater` says what `compare` answers: whether the first of two values
/// is greater than the second.
pub open spec fn answers<Q, F: Fn(&Q, &Q) -> Ordering>(
    compare: F,
    greater: spec_fn(Q, Q) -> bool,
) -> bool {
    forall|a: Q, b: Q, o: Ordering| #[trigger]
        call_ensures(compare, (&a, &b), o) ==> (o is Greater) == greater(a, b)
}

/// Where `x` is put into `sorted`: the position, from `from` on, of the
/// first element that is greater than `x`, and the end where none is.
pub open spec fn slot<Q>(sorted: Seq<Q>, x: Q, greater: spec_fn(Q, Q) -> bool, from: int) -> int
    decreases sorted.len() - from,
{
    if 0 <= from < sorted.len() && !greater(sorted[from], x) {
        slot(sorted, x, greater, from + 1)
    } else {
        from
    }
}

/// The elements of `s`, each put, one after the other, before the first
/// of those put so far that is greater than it.
pub open spec fn arranged<Q>(s: Seq<Q>, greater: spec_fn(Q, Q) -> bool) -> Seq<Q>
    decreases s.len(),
{
    if s.len() == 0 {
        Seq::empty()
    } else {
        let sorted = arranged(s.drop_last(), greater);
        sorted.insert(slot(sorted, s.last(), greater, 0), s.last())
    }
}

/// The elements of `ids` in the order that `compare` gives them.
fn sorted_by<Q: PartialEq + Clone, F: Fn(&Q, &Q) -> Ordering>(ids: &Vec<Q>, compare: F) -> (sorted:
    Vec<Q>)
    requires
        clone_is_copy::<Q>(),
        forall|a: &Q, b: &Q| #[trigger] call_requires(compare, (a, b)),
    ensures
        sorted@.to_multiset() == ids@.to_multiset(),
        forall|i: int|
            0 <= i < sorted@.len() - 1 ==> in_order(compare, #[trigger] sorted@[i], sorted@[i + 1]),
        forall|greater: spec_fn(Q, Q) -> bool| #[trigger]
            answers(compare, greater) ==> sorted@ == arranged(ids@, greater),
{
    let mut sorted: Vec<Q> = Vec::new();
    let mut i: usize = 0;
    proof {
        assert(ids@.take(0) =~= Seq::<Q>::empty());
    }
    while i < ids.len()
        invariant
            clone_is_copy::<Q>(),
            forall|a: &Q, b: &Q| #[trigger] call_requires(compare, (a, b)),
            i <= ids.len(),
            sorted@.len() == place(i),
            sorted@.to_multiset() == ids@.take(place(i)).to_multiset(),
            forall|j: int|
                0 <= j < sorted@.len() - 1 ==> in_order(
                    compare,
                    #[trigger] sorted@[j],
                    sorted@[j + 1],
                ),
            forall|greater: spec_fn(Q, Q) -> bool| #[trigger]
                answers(compare, greater) ==> sorted@ == arranged(ids@.take(place(i)), greater),
        decreases ids.len() - i,
    {
        let x = ids[i].clone();
        assert(cloned(ids@[place(i)], x));
        let mut k: usize = 0;
        loop
            invariant
                forall|a: &Q, b: &Q| #[trigger] call_requires(compare, (a, b)),
                k <= sorted.len(),
                k > 0 ==> in_order(compare, sorted@[k - 1], x),
                forall|greater: spec_fn(Q, Q) -> bool| #[trigger]
                    answers(compare, greater) ==> slot(sorted@, x, greater, 0) == slot(
                        sorted@,
                        x,
                        greater,
                        place(k),
                    ),
            ensures
                k <= sorted.len(),
                k > 0 ==> in_order(compare, sorted@[k - 1], x),
                k < sorted.len() ==> in_order(compare, x, sorted@[place(k)]),
                forall|greater: spec_fn(Q, Q) -> bool| #[trigger]
                    answers(compare, greater) ==> slot(sorted@, x, greater, 0) == place(k),
            decreases sorted.len() - k,
        {
            if k >= sorted.len() {
                break ;
            }
            let o = compare(&sorted[k], &x);
            if is_greater(o) {
                break ;
            }
            k = k + 1;
        }
        let ghost before = sorted@;
        sorted.insert(k, x);
        proof {
            let at = place(k);
            let seen = ids@.take(place(i));
            vstd::seq_lib::to_multiset_insert(before, at, x);
            vstd::seq_lib::to_multiset_build(seen, x);
            assert(ids@.take(place(i) + 1) =~= seen.push(x));
            assert(seen.push(x).drop_last() =~= seen);
            assert forall|j: int| 0 <= j < sorted@.len() - 1 implies in_order(
                compare,
                #[trigger] sorted@[j],
                sorted@[j + 1],
            ) by {
                if j + 1 < at {
                    assert(sorted@[j] == before[j] && sorted@[j + 1] == before[j + 1]);
                } else if j + 1 == at {
                    assert(sorted@[j] == before[at - 1] && sorted@[j + 1] == x);
                } else if j == at {
                    assert(sorted@[j] == x && sorted@[j + 1] == before[at]);
                } else {
                    assert(sorted@[j] == before[j - 1] && sorted@[j + 1] == before[j]);
                }
            }
        }
        i = i + 1;
    }
    proof {
        assert(ids@.take(place(i)) =~= ids@);
    }
    sorted
}

/// Whether `o` is `Greater`.
fn is_greater(o: Ordering) -> (greater: bool)
    ensures
        greater == (o is Greater),
{
    match o {
        Ordering::Greater => true,
        _ => false,
    }
}

/// Whether `ids` holds `id`.
pub(crate) fn holds<Q: PartialEq + Clone>(ids: &Vec<Q>, id: &Q) -> (found: bool)
    requires
        id_like::<Q>(),
    ensures
        found == ids@.contains(*id),
{
    let mut k: usize = 0;
    while k < ids.len()
        invariant
            id_like::<Q>(),
            k <= ids.len(),
            forall|j: int| 0 <= j < k ==> ids@[j] != *id,
        decreases ids.len() - k,
    {
        proof {
            reveal(obeys_concrete_eq);
        }
        if ids[k] == *id {
            return true;
        }
        k = k + 1;
    }
    false
}

/// The views of a sequence of nodes, in the same order.
pub open spec fn views<Q, T>(nodes: Seq<Node<Q, T>>) -> Seq<NodeView<Q, T>> where
    Q: PartialEq + Eq + Clone,
    T: PartialEq + Eq + Clone,
 {
    Seq::new(nodes.len(), |i: int| nodes[i]@)
}

/// The elements of `items` whose flag in `flags` is set, in their order.
pub open spec fn flagged<A>(items: Seq<A>, flags: Seq<bool>) -> Seq<A>
    recommends
        items.len() == flags.len(),
    decreases items.len(),
{
    if items.len() == 0 || flags.len() == 0 {
        Seq::empty()
    } else if flags.last() {
        flagged(items.drop_last(), flags.drop_last()).push(items.last())
    } else {
        flagged(items.drop_last(), flags.drop_last())
    }
}

/// An ordered collection of nodes, which may hold an id more than once,
/// with a cursor for walking through it.
#[derive(Debug, Hash)]
pub struct Nodes<Q, T> where Q: PartialEq + Eq + Clone, T: PartialEq + Eq + Clone {
    nodes: Vec<Node<Q, T>>,
    index: usize,
}

impl<Q, T> View for Nodes<Q, T> where Q: PartialEq + Eq + Clone, T: PartialEq + Eq + Clone {
    type V = Seq<NodeView<Q, T>>;

    closed spec fn view(&self) -> Seq<NodeView<Q, T>> {
        views(self.nodes@)
    }
}

impl<Q, T> Nodes<Q, T> where Q: PartialEq + Eq + Clone, T: PartialEq + Eq + Clone {
    /// The nodes themselves, in their order.
    pub closed spec fn items(&self) -> Seq<Node<Q, T>> {
        self.nodes@
    }

    /// How many nodes `next` has walked past.
    pub closed spec fn cursor(&self) -> nat {
        self.index as nat
    }

    /// Create a collection that holds `nodes`, in their order.
    pub fn new(nodes: Vec<Node<Q, T>>) -> (collection: Self)
        ensures
            collection.items() == nodes@,
            collection@ == views(nodes@),
            collection.cursor() == 0,
    {
        Nodes { nodes, index: 0 }
    }

    /// Create a collection from the nodes of `iter`, in their order.
    pub fn from_iter(iter: Vec<Node<Q, T>>) -> (collection: Self)
        ensures
            collection.items() == iter@,
            collection@ == views(iter@),
            collection.cursor() == 0,
    {
        Nodes::new(iter)
    }

    /// The collection itself.
    pub fn as_ref(&self) -> (same: &Nodes<Q, T>)
        ensures
            same == self,
    {
        self
    }

    /// An iterator over the nodes, in their order.
    pub fn iter(&self) -> (iter: core::slice::Iter<'_, Node<Q, T>>)
        ensures
            vstd::std_specs::slice::into_iter_elts(iter) == self.items(),
    {
        self.nodes.iter()
    }

    /// The number of nodes.
    pub fn len(&self) -> (n: usize)
        ensures
            n == self@.len(),
    {
        self.nodes.len()
    }

    /// Whether the collection holds no node.
    pub fn is_empty(&self) -> (empty: bool)
        ensures
            empty == (self@.len() == 0),
    {
        self.nodes.len() == 0
    }

    /// The node at `index`, if there is one.
    pub fn get(&self, index: usize) -> (node: Option<&Node<Q, T>>)
        ensures
            match node {
                Some(n) => index < self@.len() && *n == self.items()[index as int] && n@
                    == self@[index as int],
                None => index >= self@.len(),
            },
    {
        if index < self.nodes.len() {
            Some(&self.nodes[index])
        } else {
            None
        }
    }

    /// The first node with the id `node_id`, if there is one.
    pub fn get_by_node_id(&self, node_id: &Q) -> (node: Option<&Node<Q, T>>)
        requires
            id_like::<Q>(),
        ensures
            match node {
                Some(n) => {
                    &&& has_id(self@, *node_id)
                    &&& n@ == self@[position(self@, *node_id)]
                    &&& n@.node_id == *node_id
                },
                None => !has_id(self@, *node_id),
            },
    {
        match self.find(node_id) {
            Some(i) => {
                proof {
                    crate::model::lemma_position(self@, *node_id);
                }
                Some(&self.nodes[i])
            },
            None => None,
        }
    }

    /// The position of the first node with the id `node_id`, if there is
    /// one.
    pub(crate) fn find(&self, node_id: &Q) -> (found: Option<usize>)
        requires
            id_like::<Q>(),
        ensures
            match found {
                Some(i) => has_id(self@, *node_id) && i == position(self@, *node_id) && i
                    < self@.len(),
                None => !has_id(self@, *node_id) && position(self@, *node_id) == self@.len(),
            },
    {
        let mut i: usize = 0;
        while i < self.nodes.len()
            invariant
                id_like::<Q>(),
                i <= self.nodes.len(),
                forall|j: int| 0 <= j < i ==> (#[trigger] self@[j]).node_id != *node_id,
            decreases self.nodes.len() - i,
        {
            proof {
                reveal(obeys_concrete_eq);
            }
            if *self.nodes[i].id_ref() == *node_id {
                proof {
                    assert(self@[i as int].node_id == *node_id);
                    lemma_position_is(self@, *node_id, i as int);
                }
                return Some(i);
            }
            i = i + 1;
        }
        proof {
            lemma_position_absent(self@, *node_id);
        }
        None
    }

    /// The position of the first node without a parent, if there is one.
    pub(crate) fn find_root(&self) -> (found: Option<usize>)
        ensures
            match found {
                Some(i) => crate::model::has_root(self@) && i == crate::model::root_position(self@)
                    && i < self@.len(),
                None => !crate::model::has_root(self@),
            },
    {
        let mut i: usize = 0;
        while i < self.nodes.len()
            invariant
                i <= self.nodes.len(),
                forall|j: int| 0 <= j < i ==> (#[trigger] self@[j]).parent is Some,
            decreases self.nodes.len() - i,
        {
            if self.nodes[i].parent_ref().is_none() {
                proof {
                    assert(self@[i as int].parent is None);
                    crate::model::lemma_root_position_is(self@, i as int);
                }
                return Some(i);
            }
            i = i + 1;
        }
        None
    }

    /// Append a node.
    pub fn push(&mut self, node: Node<Q, T>)
        ensures
            final(self).items() == old(self).items().push(node),
            final(self)@ == old(self)@.push(node@),
            final(self).cursor() == old(self).cursor(),
    {
        self.nodes.push(node);
        assert(self@ =~= old(self)@.push(node@));
    }

    /// Take the node at `index` out of the collection and return it.
    pub fn remove(&mut self, index: usize) -> (node: Node<Q, T>)
        requires
            index < old(self)@.len(),
        ensures
            node == old(self).items()[index as int],
            final(self).items() == old(self).items().remove(index as int),
            final(self)@ == old(self)@.remove(index as int),
            final(self).cursor() == old(self).cursor(),
    {
        let node = self.nodes.remove(index);
        assert(self@ =~= old(self)@.remove(index as int));
        node
    }

    /// Keep only the nodes for which `f` answers `true`, in their order.
    pub fn retain<F>(&mut self, f: F) where F: Fn(&Node<Q, T>) -> bool
        requires
            forall|node: &Node<Q, T>| #[trigger] call_requires(f, (node,)),
        ensures
            exists|flags: Seq<bool>|
                {
                    &&& flags.len() == old(self).items().len()
                    &&& forall|i: int|
                        0 <= i < flags.len() ==> call_ensures(
                            f,
                            (&old(self).items()[i],),
                            #[trigger] flags[i],
                        )
                    &&& final(self).items() == flagged(old(self).items(), flags)
                },
            final(self).cursor() == old(self).cursor(),
    {
        let ghost before = self.nodes@;
        let ghost mut flags: Seq<bool> = Seq::empty();
        let mut kept: Vec<Node<Q, T>> = Vec::new();
        let mut rest: Vec<Node<Q, T>> = Vec::new();
        core::mem::swap(&mut rest, &mut self.nodes);
        proof {
            assert(before.take(0) =~= Seq::<Node<Q, T>>::empty());
            assert(before.skip(0) =~= before);
        }
        while rest.len() > 0
            invariant
                forall|node: &Node<Q, T>| #[trigger] call_requires(f, (node,)),
                flags.len() <= before.len(),
                rest@ == before.skip(flags.len() as int),
                forall|i: int|
                    0 <= i < flags.len() ==> call_ensures(f, (&before[i],), #[trigger] flags[i]),
                kept@ == flagged(before.take(flags.len() as int), flags),
            decreases rest.len(),
        {
            let ghost k = flags.len() as int;
            let node = rest.remove(0);
            let keep = f(&node);
            proof {
                assert(node == before[k]);
                assert(rest@ =~= before.skip(k + 1));
                assert(before.take(k + 1).drop_last() =~= before.take(k));
                assert(flags.push(keep).drop_last() =~= flags);
                flags = flags.push(keep);
            }
            if keep {
                kept.push(node);
            }
        }
        proof {
            assert(before.take(before.len() as int) =~= before);
        }
        self.nodes = kept;
    }

    /// Take every node out of the collection.
    pub fn clear(&mut self)
        ensures
            final(self).items() == Seq::<Node<Q, T>>::empty(),
            final(self)@ == Seq::<NodeView<Q, T>>::empty(),
            final(self).cursor() == old(self).cursor(),
    {
        self.nodes.clear();
        assert(self@ =~= Seq::<NodeView<Q, T>>::empty());
    }

    /// Move the nodes of `other` to the end of this collection, in their
    /// order. `other` is empty afterwards.
    pub fn append(&mut self, other: &mut Self)
        ensures
            final(self).items() == old(self).items() + old(other).items(),
            final(self)@ == old(self)@ + old(other)@,
            final(self).cursor() == old(self).cursor(),
            final(other)@ == Seq::<NodeView<Q, T>>::empty(),
            final(other).cursor() == old(other).cursor(),
    {
        self.nodes.append(&mut other.nodes);
        assert(self@ =~= old(self)@ + old(other)@);
        assert(other@ =~= Seq::<NodeView<Q, T>>::empty());
    }

    /// Move the nodes of `other` to the end of this collection, in their
    /// order. `other` is empty afterwards.
    pub fn append_raw(&mut self, other: &mut Vec<Node<Q, T>>)
        ensures
            final(self).items() == old(self).items() + old(other)@,
            final(self)@ == old(self)@ + views(old(other)@),
            final(self).cursor() == old(self).cursor(),
            final(other)@ == Seq::<Node<Q, T>>::empty(),
    {
        self.nodes.append(other);
        assert(self@ =~= old(self)@ + views(old(other)@));
    }

    /// The first node, if there is one.
    pub fn first(&self) -> (node: Option<&Node<Q, T>>)
        ensures
            match node {
                Some(n) => self@.len() > 0 && *n == self.items()[0] && n@ == self@[0],
                None => self@.len() == 0,
            },
    {
        if self.nodes.len() > 0 {
            Some(&self.nodes[0])
        } else {
            None
        }
    }

    /// A copy of the node under the cursor, if there is one; the cursor
    /// moves on by one in either case.
    pub fn next(&mut self) -> (node: Option<Node<Q, T>>)
        requires
            old(self).cursor() < usize::MAX,
        ensures
            final(self).items() == old(self).items(),
            final(self)@ == old(self)@,
            final(self).cursor() == old(self).cursor() + 1,
            match node {
                Some(n) => old(self).cursor() < old(self)@.len() && (clone_is_copy::<Q>()
                    && clone_is_copy::<T>() ==> n@ == old(self)@[old(self).cursor() as int]),
                None => old(self).cursor() >= old(self)@.len(),
            },
    {
        let node = if self.index < self.nodes.len() {
            Some(self.nodes[self.index].clone())
        } else {
            None
        };
        self.index = self.index + 1;
        node
    }

    /// The bounds on the number of nodes: both are the number itself.
    pub fn size_hint(&self) -> (bounds: (usize, Option<usize>))
        ensures
            bounds.0 == self@.len(),
            bounds.1 == Some(self@.len() as usize),
    {
        (self.nodes.len(), Some(self.nodes.len()))
    }

    /// The node at position `i`.
    pub(crate) fn at(&self, i: usize) -> (node: &Node<Q, T>)
        requires
            i < self@.len(),
        ensures
            node@ == self@[i as int],
            *node == self.items()[i as int],
    {
        &self.nodes[i]
    }

    /// Take out every node whose id is among `doomed`; the others keep
    /// their order.
    pub(crate) fn discard(&mut self, doomed: &Vec<Q>)
        requires
            id_like::<Q>(),
        ensures
            final(self)@ == old(self)@.filter(|n: NodeView<Q, T>| !doomed@.contains(n.node_id)),
            final(self).cursor() == old(self).cursor(),
    {
        let ghost before = self.nodes@;
        let ghost keep = |n: NodeView<Q, T>| !doomed@.contains(n.node_id);
        let mut kept: Vec<Node<Q, T>> = Vec::new();
        let mut rest: Vec<Node<Q, T>> = Vec::new();
        core::mem::swap(&mut rest, &mut self.nodes);
        let ghost mut k: int = 0;
        proof {
            assert(views(before).take(0) =~= Seq::<NodeView<Q, T>>::empty());
            assert(before.skip(0) =~= before);
            reveal_with_fuel(Seq::filter, 1);
            assert(views(kept@) =~= views(before).take(0).filter(keep));
        }
        while rest.len() > 0
            invariant
                id_like::<Q>(),
                0 <= k <= before.len(),
                rest@ == before.skip(k),
                keep == (|n: NodeView<Q, T>| !doomed@.contains(n.node_id)),
                views(kept@) == views(before).take(k).filter(keep),
            decreases rest.len(),
        {
            let node = rest.remove(0);
            proof {
                assert(node == before[k]);
                assert(rest@ =~= before.skip(k + 1));
                assert(views(before).take(k + 1) =~= views(before).take(k).push(node@));
                views(before).take(k).lemma_filter_push(node@, keep);
            }
            let ghost prior = kept@;
            if !holds(doomed, node.id_ref()) {
                kept.push(node);
                assert(views(kept@) =~= views(prior).push(node@));
            }
            proof {
                k = k + 1;
            }
        }
        proof {
            assert(views(before).take(before.len() as int) =~= views(before));
        }
        self.nodes = kept;
    }

    /// The node at position `i`, to be changed in place.
    pub(crate) fn at_mut(&mut self, i: usize) -> (node: &mut Node<Q, T>)
        requires
            i < old(self)@.len(),
        ensures
            *node == old(self).items()[i as int],
            node@ == old(self)@[i as int],
            final(self).items() == old(self).items().update(i as int, *final(node)),
            final(self)@ == old(self)@.update(i as int, final(node)@),
            final(self).cursor() == old(self).cursor(),
    {
        let ghost before = self.nodes@;
        let node = &mut self.nodes[i];
        proof {
            assert(views(before.update(i as int, *final(node))) =~= views(before).update(
                i as int,
                final(node)@,
            ));
        }
        node
    }
}

impl<Q, T> Default for Nodes<Q, T> where Q: PartialEq + Eq + Clone, T: PartialEq + Eq + Clone {
    /// Create an empty collection.
    fn default() -> (collection: Self)
        ensures
            collection@ == Seq::<NodeView<Q, T>>::empty(),
            collection.items() == Seq::<Node<Q, T>>::empty(),
            collection.cursor() == 0,
    {
        let collection = Nodes { nodes: Vec::new(), index: 0 };
        assert(collection@ =~= Seq::<NodeView<Q, T>>::empty());
        collection
    }
}

impl<Q, T> Clone for Nodes<Q, T> where Q: PartialEq + Eq + Clone, T: PartialEq + Eq + Clone {
    fn clone(&self) -> (copy: Self)
        ensures
            copy@.len() == self@.len(),
            copy.cursor() == self.cursor(),
            clone_is_copy::<Q>() && clone_is_copy::<T>() ==> copy@ == self@,
    {
        let mut nodes: Vec<Node<Q, T>> = Vec::new();
        let mut i: usize = 0;
        while i < self.nodes.len()
            invariant
                i <= self.nodes.len(),
                nodes@.len() == i,
                clone_is_copy::<Q>() && clone_is_copy::<T>() ==> views(nodes@) == self@.take(
                    i as int,
                ),
            decreases self.nodes.len() - i,
        {
            let node = self.nodes[i].clone();
            nodes.push(node);
            assert(clone_is_copy::<Q>() && clone_is_copy::<T>() ==> views(nodes@) =~= self@.take(
                i + 1,
            ));
            i = i + 1;
        }
        assert(self@.take(self@.len() as int) =~= self@);
        Nodes { nodes, index: self.index }
    }
}

impl<Q, T> PartialEq for Nodes<Q, T> where Q: PartialEq + Eq + Clone, T: PartialEq + Eq + Clone {
    /// Two collections are equal when they hold equal nodes in the same
    /// order and their cursors stand at the same place.
    fn eq(&self, other: &Self) -> (equal: bool)
    {
        if self.index != other.index || self.nodes.len() != other.nodes.len() {
            return false;
        }
        let mut i: usize = 0;
        while i < self.nodes.len()
            invariant
                i <= self.nodes.len(),
                self.nodes.len() == other.nodes.len(),
                Q::obeys_eq_spec() && T::obeys_eq_spec() ==> forall|j: int|
                    #![trigger self.nodes@[j]]
                    0 <= j < i ==> PartialEqSpec::eq_spec(&self.nodes@[j], &other.nodes@[j]),
            decreases self.nodes.len() - i,
        {
            if !(self.nodes[i] == other.nodes[i]) {
                return false;
            }
            i = i + 1;
        }
        true
    }
}

impl<Q, T> vstd::std_specs::cmp::PartialEqSpecImpl for Nodes<Q, T> where Q: PartialEq + Eq + Clone, T: PartialEq + Eq + Clone {
    open spec fn obeys_eq_spec() -> bool {
        Q::obeys_eq_spec() && T::obeys_eq_spec()
    }

    open spec fn eq_spec(&self, other: &Self) -> bool {
        &&& self.cursor() == other.cursor()
        &&& self.items().len() == other.items().len()
        &&& forall|j: int|
            #![trigger self.items()[j]]
            0 <= j < self.items().len() ==> PartialEqSpec::eq_spec(
                &self.items()[j],
                &other.items()[j],
            )
    }
}

impl<Q, T> Eq for Nodes<Q, T> where Q: PartialEq + Eq + Clone, T: PartialEq + Eq + Clone {

}

} // verus!
