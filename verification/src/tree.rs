//! The tree and its algorithms.

use crate::error::Error;
use crate::keeping::{
    disjoint_ids, is_fresh, lemma_empty_well_formed, lemma_with_node_well_formed,
    lemma_update_well_formed, lemma_with_subtree_well_formed, lemma_without_node,
    lemma_without_subtree, same_links, under,
};
use crate::model::{
    ancestors, children_linked, dedup, detached, distinct_ids, handed_over, has_id, has_root,
    ids_of, lemma_ancestors_bound, lemma_child, lemma_children_bound, lemma_height_bound,
    lemma_node, lemma_parent, lemma_position, lemma_position_same_ids, lemma_root_position,
    node_height, one_less, parents_linked, position, push_new, root_position, siblings,
    single_root, subtree, subtree_below, subtree_ids, tallest_child, traversal, walk, well_formed,
    with_node, with_subtree, without_node, without_subtree,
};
use crate::node::{clone_is_copy, holds, id_like, views, without, Node, NodeView, Nodes};
use crate::reach::{
    lemma_subtree, lemma_subtree_lists_descendants, lemma_traversal,
    lemma_traversal_visits_descendants, lists_descendants,
};
use crate::record::{lemma_with_node_lists_children_in_order, lists_children_in_order};
use std::fmt::Display;
use std::string::ToString;
use vstd::laws_eq::obeys_concrete_eq;
use vstd::prelude::*;
use vstd::std_specs::cmp::PartialEqSpec;
use vstd::string::to_string_from_display_ensures;

verus! {

/// The strategy to use when removing a node from the tree.
#[derive(Clone, Copy, Debug)]
pub enum NodeRemovalStrategy {
    /// Retain the children of the node: they become children of the parent
    /// of the node.
    RetainChildren,
    /// Remove the node and all of its descendants.
    RemoveNodeAndChildren,
}

/// The strategy to use when traversing the tree.
#[derive(Clone, Copy, Debug)]
pub enum TraversalStrategy {
    /// A node comes before its children.
    PreOrder,
    /// A node comes after its children.
    PostOrder,
    /// A node comes after its first child and before the others.
    InOrder,
}

/// What a tree is: its name and its nodes, in the order in which they were
/// added.
pub ghost struct TreeView<Q, T> {
    pub name: Option<Seq<char>>,
    pub nodes: Seq<NodeView<Q, T>>,
}

/// A tree: an optional name and an ordered collection of nodes that are
/// linked to each other by their ids.
#[derive(Debug, Hash)]
pub struct Tree<Q, T> where Q: PartialEq + Eq + Clone, T: PartialEq + Eq + Clone {
    name: Option<String>,
    nodes: Nodes<Q, T>,
}

/// A subtree of a tree: a tree that is a part of a larger one, or is about
/// to become one.
pub type SubTree<Q, T> = Tree<Q, T>;

impl<Q, T> View for Tree<Q, T> where Q: PartialEq + Eq + Clone, T: PartialEq + Eq + Clone {
    type V = TreeView<Q, T>;

    closed spec fn view(&self) -> TreeView<Q, T> {
        TreeView {
            name: match self.name {
                Some(name) => Some(name@),
                None => None,
            },
            nodes: self.nodes@,
        }
    }
}

/// `text` is what `id` displays as.
pub open spec fn shown<Q: Display>(id: Q, text: String) -> bool {
    to_string_from_display_ensures::<Q>(&id, text)
}

impl<Q, T> Tree<Q, T> where Q: PartialEq + Eq + Clone + Display, T: PartialEq + Eq + Clone {
    /// Create a new tree with the given name and no nodes.
    pub fn new(tree_name: Option<&str>) -> (tree: Self)
        ensures
            tree.wf(),
            tree@.nodes == Seq::<NodeView<Q, T>>::empty(),
            tree@.name == match tree_name {
                Some(name) => Some(name@),
                None => None,
            },
    {
        let name = match tree_name {
            Some(name) => Some(String::from_str(name)),
            None => None,
        };
        proof {
            lemma_empty_well_formed::<Q, T>();
        }
        Tree { name, nodes: Nodes::default() }
    }

    /// Add a node to the tree, as the last child of the node with the id
    /// `parent_id`, or as the root where `parent_id` is `None`. Returns the
    /// id of the added node.
    ///
    /// Fails with `NodeNotFound` where no node has the id `parent_id`, and
    /// with `RootNodeAlreadyPresent` where `parent_id` is `None` and the
    /// tree has a root. The tree is then left as it was.
    pub fn add_node(&mut self, node: Node<Q, T>, parent_id: Option<&Q>) -> (result: Result<
        Q,
        Error,
    >)
        requires
            id_like::<Q>(),
        ensures
            final(self)@.name == old(self)@.name,
            old(self).wf() && is_fresh(node@) && !has_id(old(self)@.nodes, node@.node_id)
                ==> final(self).wf(),
            old(self).wf() && is_fresh(node@) && !has_id(old(self)@.nodes, node@.node_id)
                && lists_children_in_order(old(self)@.nodes) ==> lists_children_in_order(
                final(self)@.nodes,
            ),
            match result {
                Ok(id) => {
                    &&& id == node@.node_id
                    &&& match parent_id {
                        Some(p) => has_id(old(self)@.nodes, *p),
                        None => !has_root(old(self)@.nodes),
                    }
                    &&& final(self)@.nodes == with_node(
                        old(self)@.nodes,
                        node@,
                        match parent_id {
                            Some(p) => Some(*p),
                            None => None,
                        },
                    )
                },
                Err(Error::NodeNotFound(text)) => {
                    &&& parent_id matches Some(p) && !has_id(old(self)@.nodes, *p) && shown(
                        *p,
                        text,
                    )
                    &&& final(self)@ == old(self)@
                },
                Err(Error::RootNodeAlreadyPresent) => {
                    &&& parent_id is None
                    &&& has_root(old(self)@.nodes)
                    &&& final(self)@ == old(self)@
                },
                Err(_) => false,
            },
    {
        let mut node = node;
        proof {
            if old(self).wf() && is_fresh(node@) && !has_id(old(self)@.nodes, node@.node_id) {
                let to = match parent_id {
                    Some(p) => Some(*p),
                    None => None,
                };
                let can_add = match parent_id {
                    Some(p) => has_id(old(self)@.nodes, *p),
                    None => !has_root(old(self)@.nodes),
                };
                if can_add {
                    lemma_with_node_well_formed(old(self)@.nodes, node@, to);
                    if lists_children_in_order(old(self)@.nodes) {
                        lemma_with_node_lists_children_in_order(old(self)@.nodes, node@, to);
                    }
                }
            }
        }
        match parent_id {
            Some(parent_id) => {
                match self.nodes.find(parent_id) {
                    Some(at) => {
                        proof {
                            crate::model::lemma_position(self@.nodes, *parent_id);
                        }
                        self.nodes.at_mut(at).add_child(&mut node);
                    },
                    None => {
                        return Err(Error::NodeNotFound(parent_id.to_string()));
                    },
                }
            },
            None => {
                if self.nodes.find_root().is_some() {
                    return Err(Error::RootNodeAlreadyPresent);
                }
            },
        }
        let id = node.get_node_id();
        self.nodes.push(node);
        Ok(id)
    }

    /// Get the name of the tree.
    pub fn get_name(&self) -> (name: Option<&str>)
        ensures
            match name {
                Some(text) => self@.name == Some(text@),
                None => self@.name is None,
            },
    {
        match &self.name {
            Some(name) => Some(name.as_str()),
            None => None,
        }
    }

    /// Set the name of the tree.
    pub fn rename(&mut self, name: Option<&str>)
        ensures
            final(self)@.nodes == old(self)@.nodes,
            final(self)@.name == match name {
                Some(text) => Some(text@),
                None => None,
            },
    {
        self.name = match name {
            Some(text) => Some(String::from_str(text)),
            None => None,
        };
    }

    /// Get a copy of the node with the id `node_id`: the first one, should
    /// several nodes have that id.
    pub fn get_node_by_id(&self, node_id: &Q) -> (node: Option<Node<Q, T>>)
        requires
            id_like::<Q>(),
            clone_is_copy::<T>(),
        ensures
            match node {
                Some(n) => {
                    &&& has_id(self@.nodes, *node_id)
                    &&& n@ == self@.nodes[position(self@.nodes, *node_id)]
                    &&& n@.node_id == *node_id
                },
                None => !has_id(self@.nodes, *node_id),
            },
    {
        match self.nodes.find(node_id) {
            Some(at) => {
                proof {
                    lemma_position(self@.nodes, *node_id);
                }
                Some(self.nodes.at(at).clone())
            },
            None => None,
        }
    }

    /// Get a copy of the node with the id `node_id`, as `get_node_by_id`
    /// does.
    pub fn get_node(&self, node_id: Q) -> (node: Option<Node<Q, T>>)
        requires
            id_like::<Q>(),
            clone_is_copy::<T>(),
        ensures
            match node {
                Some(n) => {
                    &&& has_id(self@.nodes, node_id)
                    &&& n@ == self@.nodes[position(self@.nodes, node_id)]
                    &&& n@.node_id == node_id
                },
                None => !has_id(self@.nodes, node_id),
            },
    {
        self.get_node_by_id(&node_id)
    }

    /// Get a copy of the root of the tree: the first node without a
    /// parent.
    pub fn get_root_node(&self) -> (node: Option<Node<Q, T>>)
        requires
            clone_is_copy::<Q>(),
            clone_is_copy::<T>(),
        ensures
            match node {
                Some(n) => {
                    &&& has_root(self@.nodes)
                    &&& n@ == self@.nodes[root_position(self@.nodes)]
                    &&& n@.parent is None
                },
                None => !has_root(self@.nodes),
            },
    {
        match self.nodes.find_root() {
            Some(at) => {
                proof {
                    lemma_root_position(self@.nodes);
                }
                Some(self.nodes.at(at).clone())
            },
            None => None,
        }
    }

    /// Put `node` in the place of the node with the same id: the first
    /// one, should several nodes have that id. This is how a change made
    /// to a copy of a node reaches the tree.
    ///
    /// Fails with `NodeNotFound` where no node has the id of `node`. The
    /// tree is then left as it was.
    pub fn update_node(&mut self, node: Node<Q, T>) -> (result: Result<(), Error>)
        requires
            id_like::<Q>(),
        ensures
            final(self)@.name == old(self)@.name,
            old(self).wf() && (has_id(old(self)@.nodes, node@.node_id) ==> same_links(
                old(self)@.nodes[position(old(self)@.nodes, node@.node_id)],
                node@,
            )) ==> final(self).wf(),
            match result {
                Ok(_) => has_id(old(self)@.nodes, node@.node_id) && final(self)@.nodes == old(
                    self,
                )@.nodes.update(position(old(self)@.nodes, node@.node_id), node@),
                Err(Error::NodeNotFound(text)) => {
                    &&& !has_id(old(self)@.nodes, node@.node_id)
                    &&& shown(node@.node_id, text)
                    &&& final(self)@ == old(self)@
                },
                Err(_) => false,
            },
    {
        match self.nodes.find(node.id_ref()) {
            Some(at) => {
                proof {
                    if self.wf() && same_links(self@.nodes[at as int], node@) {
                        lemma_update_well_formed(self@.nodes, at as int, node@);
                    }
                }
                *self.nodes.at_mut(at) = node;
                Ok(())
            },
            None => Err(Error::NodeNotFound(node.id_ref().to_string())),
        }
    }

    /// Get the nodes of the tree, in the order in which they were added.
    pub fn get_nodes(&self) -> (nodes: &Nodes<Q, T>)
        ensures
            nodes@ == self@.nodes,
    {
        &self.nodes
    }
}

impl<Q, T> Tree<Q, T> where Q: PartialEq + Eq + Clone + Display, T: PartialEq + Eq + Clone {
    /// Whether the tree keeps its invariant: see `well_formed`.
    pub open spec fn wf(&self) -> bool {
        well_formed(self@.nodes)
    }

    /// The height of the node at position `at`.
    fn height_at(&self, at: usize) -> (height: i32)
        requires
            id_like::<Q>(),
            self.wf(),
            at < self@.nodes.len(),
            self@.nodes.len() <= i32::MAX,
        ensures
            height == node_height(self@.nodes, at as int),
        decreases self@.nodes.len() - at,
    {
        let children = self.nodes.at(at).children_ref();
        let mut height: i32 = 0;
        let mut k: usize = 0;
        while k < children.len()
            invariant
                id_like::<Q>(),
                self.wf(),
                at < self@.nodes.len(),
                self@.nodes.len() <= i32::MAX,
                children@ == self@.nodes[at as int].children,
                k <= children.len(),
                height == tallest_child(self@.nodes, at as int, k as int),
            decreases children.len() - k,
        {
            proof {
                lemma_child(self@.nodes, at as int, k as int);
            }
            match self.nodes.find(&children[k]) {
                Some(child) => {
                    proof {
                        lemma_height_bound(self@.nodes, child as int);
                    }
                    let here = self.height_at(child) + 1;
                    if here > height {
                        height = here;
                    }
                },
                None => {},
            }
            k = k + 1;
        }
        height
    }

    /// Get the height of the node with the id `node_id`: 0 for a node
    /// without children, else one more than the greatest height among its
    /// children.
    ///
    /// Fails with `NodeNotFound` where no node has the id `node_id`.
    pub fn get_node_height(&self, node_id: &Q) -> (result: Result<i32, Error>)
        requires
            id_like::<Q>(),
            self.wf(),
            self@.nodes.len() <= i32::MAX,
        ensures
            match result {
                Ok(height) => has_id(self@.nodes, *node_id) && height == node_height(
                    self@.nodes,
                    position(self@.nodes, *node_id),
                ),
                Err(Error::NodeNotFound(text)) => !has_id(self@.nodes, *node_id) && shown(
                    *node_id,
                    text,
                ),
                Err(_) => false,
            },
    {
        match self.nodes.find(node_id) {
            Some(at) => Ok(self.height_at(at)),
            None => Err(Error::NodeNotFound(node_id.to_string())),
        }
    }

    /// Get the depth of the node with the id `node_id`: the number of steps
    /// from the node up to the root.
    ///
    /// Fails with `NodeNotFound` where no node has the id `node_id`.
    pub fn get_node_depth(&self, node_id: &Q) -> (result: Result<i32, Error>)
        requires
            id_like::<Q>(),
            self.wf(),
            self@.nodes.len() <= i32::MAX,
        ensures
            match result {
                Ok(depth) => has_id(self@.nodes, *node_id) && depth == ancestors(
                    self@.nodes,
                    position(self@.nodes, *node_id),
                ).len(),
                Err(Error::NodeNotFound(text)) => !has_id(self@.nodes, *node_id) && shown(
                    *node_id,
                    text,
                ),
                Err(_) => false,
            },
    {
        match self.get_ancestor_ids(node_id) {
            Ok(ids) => {
                proof {
                    lemma_position(self@.nodes, *node_id);
                    lemma_ancestors_bound(self@.nodes, position(self@.nodes, *node_id));
                }
                Ok(ids.len() as i32)
            },
            Err(e) => Err(e),
        }
    }

    /// Get the ids of the ancestors of the node with the id `node_id`, from
    /// its parent up to the root.
    ///
    /// Fails with `NodeNotFound` where no node has the id `node_id`.
    pub fn get_ancestor_ids(&self, node_id: &Q) -> (result: Result<Vec<Q>, Error>)
        requires
            id_like::<Q>(),
            self.wf(),
        ensures
            match result {
                Ok(ids) => has_id(self@.nodes, *node_id) && ids@ == ancestors(
                    self@.nodes,
                    position(self@.nodes, *node_id),
                ),
                Err(Error::NodeNotFound(text)) => !has_id(self@.nodes, *node_id) && shown(
                    *node_id,
                    text,
                ),
                Err(_) => false,
            },
    {
        let start = match self.nodes.find(node_id) {
            Some(at) => at,
            None => {
                return Err(Error::NodeNotFound(node_id.to_string()));
            },
        };
        let mut ids: Vec<Q> = Vec::new();
        let mut at = start;
        loop
            invariant
                id_like::<Q>(),
                self.wf(),
                at < self@.nodes.len(),
                start < self@.nodes.len(),
                ancestors(self@.nodes, start as int) == ids@ + ancestors(self@.nodes, at as int),
            ensures
                ids@ == ancestors(self@.nodes, start as int),
            decreases at,
        {
            match self.nodes.at(at).parent_ref() {
                Some(parent_id) => {
                    proof {
                        lemma_parent(self@.nodes, at as int);
                    }
                    let ghost before = ids@;
                    let id = parent_id.clone();
                    assert(cloned(*parent_id, id));
                    ids.push(id);
                    match self.nodes.find(parent_id) {
                        Some(next) => {
                            proof {
                                assert(before + (seq![*parent_id] + ancestors(
                                    self@.nodes,
                                    next as int,
                                )) =~= ids@ + ancestors(self@.nodes, next as int));
                            }
                            at = next;
                        },
                        None => unreached(),
                    }
                },
                None => {
                    assert(ids@ + Seq::<Q>::empty() =~= ids@);
                    break ;
                },
            }
        }
        Ok(ids)
    }

    /// Get the height of the tree: the height of its root.
    ///
    /// Fails with `InvalidOperation` where the tree has no root.
    pub fn get_height(&self) -> (result: Result<i32, Error>)
        requires
            id_like::<Q>(),
            self.wf(),
            self@.nodes.len() <= i32::MAX,
        ensures
            match result {
                Ok(height) => has_root(self@.nodes) && height == node_height(
                    self@.nodes,
                    root_position(self@.nodes),
                ),
                Err(Error::InvalidOperation(reason)) => !has_root(self@.nodes) && reason@
                    == "Tree has no root node"@,
                Err(_) => false,
            },
    {
        match self.nodes.find_root() {
            Some(at) => Ok(self.height_at(at)),
            None => Err(Error::InvalidOperation(String::from_str("Tree has no root node"))),
        }
    }

    /// Get the ids of the siblings of the node with the id `node_id`: the
    /// children of its parent, in their order, with the node itself where
    /// `inclusive` is set. The root has no sibling but itself.
    ///
    /// Fails with `NodeNotFound` where no node has the id `node_id`.
    pub fn get_sibling_ids(&self, node_id: &Q, inclusive: bool) -> (result: Result<Vec<Q>, Error>)
        requires
            id_like::<Q>(),
            self.wf(),
        ensures
            match result {
                Ok(ids) => has_id(self@.nodes, *node_id) && ids@ == siblings(
                    self@.nodes,
                    position(self@.nodes, *node_id),
                    inclusive,
                ),
                Err(Error::NodeNotFound(text)) => !has_id(self@.nodes, *node_id) && shown(
                    *node_id,
                    text,
                ),
                Err(_) => false,
            },
    {
        let at = match self.nodes.find(node_id) {
            Some(at) => at,
            None => {
                return Err(Error::NodeNotFound(node_id.to_string()));
            },
        };
        proof {
            lemma_position(self@.nodes, *node_id);
        }
        match self.nodes.at(at).parent_ref() {
            Some(parent_id) => {
                proof {
                    lemma_parent(self@.nodes, at as int);
                }
                match self.nodes.find(parent_id) {
                    Some(parent) => {
                        if inclusive {
                            Ok(self.nodes.at(parent).get_children_ids())
                        } else {
                            let mut all = self.nodes.at(parent).clone_links();
                            all.drop_child(node_id);
                            Ok(all.get_children_ids())
                        }
                    },
                    None => unreached(),
                }
            },
            None => {
                let mut ids: Vec<Q> = Vec::new();
                if inclusive {
                    let id = node_id.clone();
                    assert(cloned(*node_id, id));
                    ids.push(id);
                    assert(ids@ =~= seq![*node_id]);
                }
                Ok(ids)
            },
        }
    }
}

/// Append `id` to `ids`, unless `ids` holds it already.
fn push_if_new<Q: PartialEq + Clone>(ids: &mut Vec<Q>, id: &Q)
    requires
        id_like::<Q>(),
    ensures
        final(ids)@ == push_new(old(ids)@, *id),
{
    if !holds(ids, id) {
        let copy = id.clone();
        assert(cloned(*id, copy));
        ids.push(copy);
    }
}

/// Take the repetitions out of `ids`: of several equal ids the first
/// stays.
fn without_repetitions<Q: PartialEq + Clone>(ids: Vec<Q>) -> (unique: Vec<Q>)
    requires
        id_like::<Q>(),
    ensures
        unique@ == dedup(ids@),
{
    let mut unique: Vec<Q> = Vec::new();
    let mut k: usize = 0;
    proof {
        assert(ids@.take(0) =~= Seq::<Q>::empty());
        reveal_with_fuel(Seq::remove_duplicates, 1);
    }
    while k < ids.len()
        invariant
            id_like::<Q>(),
            k <= ids.len(),
            unique@ == dedup(ids@.take(k as int)),
        decreases ids.len() - k,
    {
        proof {
            let seen = ids@.take(k as int);
            let id = ids@[k as int];
            seen.lemma_remove_duplicates_append(id, Seq::empty());
            seen.lemma_remove_duplicates_properties(Seq::empty());
            assert(seen + Seq::<Q>::empty() =~= seen);
            assert(ids@.take(k + 1) =~= seen + seq![id]);
        }
        push_if_new(&mut unique, &ids[k]);
        proof {
            let seen = ids@.take(k as int);
            let id = ids@[k as int];
            if !seen.contains(id) {
                assert(dedup(seen).push(id) =~= dedup(seen) + seq![id]);
            }
        }
        k = k + 1;
    }
    assert(ids@.take(ids@.len() as int) =~= ids@);
    unique
}

/// The generations that the parameter of `get_subtree` stands for.
pub open spec fn generations_limit(generations: Option<i32>) -> Option<int> {
    match generations {
        Some(n) => Some(n as int),
        None => None,
    }
}

/// `text` is what `id` displays as.
pub open spec fn shown_as<Q: Display>(id: Q, text: Seq<char>) -> bool {
    exists|s: String| s@ == text && #[trigger] shown(id, s)
}

impl<Q, T> Tree<Q, T> where Q: PartialEq + Eq + Clone + Display, T: PartialEq + Eq + Clone {
    /// The ids that a traversal from the node at position `at` yields.
    fn traverse_at(&self, at: usize, order: TraversalStrategy) -> (ids: Vec<Q>)
        requires
            id_like::<Q>(),
            self.wf(),
            at < self@.nodes.len(),
        ensures
            ids@ == traversal(self@.nodes, at as int, order),
        decreases self@.nodes.len() - at,
    {
        let node = self.nodes.at(at);
        let children = node.children_ref();
        let mut ids: Vec<Q> = Vec::new();
        let mut k: usize = 0;
        while k < children.len()
            invariant
                id_like::<Q>(),
                self.wf(),
                at < self@.nodes.len(),
                node@ == self@.nodes[at as int],
                children@ == self@.nodes[at as int].children,
                k <= children.len(),
                ids@ == walk(self@.nodes, at as int, order, k as int),
            decreases children.len() - k,
        {
            proof {
                lemma_child(self@.nodes, at as int, k as int);
            }
            let child = match self.nodes.find(&children[k]) {
                Some(child) => child,
                None => unreached(),
            };
            let mut below = self.traverse_at(child, order);
            match order {
                TraversalStrategy::InOrder => {
                    if k == 0 {
                        assert(ids@ + below@ =~= below@);
                        ids.append(&mut below);
                        push_if_new(&mut ids, &children[k]);
                        push_if_new(&mut ids, node.id_ref());
                    } else {
                        let copy = children[k].clone();
                        assert(cloned(children@[k as int], copy));
                        ids.push(copy);
                        ids.append(&mut below);
                    }
                },
                _ => {
                    ids.append(&mut below);
                },
            }
            k = k + 1;
        }
        match order {
            TraversalStrategy::PreOrder => {
                let mut all: Vec<Q> = Vec::new();
                let id = node.get_node_id();
                all.push(id);
                assert(all@ =~= seq![self@.nodes[at as int].node_id]);
                all.append(&mut ids);
                without_repetitions(all)
            },
            TraversalStrategy::PostOrder => {
                ids.push(node.get_node_id());
                without_repetitions(ids)
            },
            TraversalStrategy::InOrder => without_repetitions(ids),
        }
    }

    /// Traverse the subtree under the node with the id `node_id` and
    /// return the ids of its nodes in the given order: see `traversal`.
    ///
    /// Fails with `NodeNotFound` where no node has the id `node_id`.
    pub fn traverse(&self, node_id: &Q, order: TraversalStrategy) -> (result: Result<
        Vec<Q>,
        Error,
    >)
        requires
            id_like::<Q>(),
            self.wf(),
        ensures
            match result {
                Ok(ids) => {
                    let x = position(self@.nodes, *node_id);
                    &&& has_id(self@.nodes, *node_id)
                    &&& ids@ == traversal(self@.nodes, x, order)
                    &&& if order is InOrder && self@.nodes[x].children.len() == 0 {
                        ids@.len() == 0
                    } else {
                        lists_descendants(self@.nodes, x, None, ids@)
                    }
                },
                Err(Error::NodeNotFound(text)) => !has_id(self@.nodes, *node_id) && shown(
                    *node_id,
                    text,
                ),
                Err(_) => false,
            },
    {
        match self.nodes.find(node_id) {
            Some(at) => {
                proof {
                    lemma_traversal(self@.nodes, at as int, order);
                    if !(order is InOrder && self@.nodes[at as int].children.len() == 0) {
                        lemma_traversal_visits_descendants(self@.nodes, at as int, order);
                    }
                }
                Ok(self.traverse_at(at, order))
            },
            None => Err(Error::NodeNotFound(node_id.to_string())),
        }
    }

    /// Copies of the nodes of the subtree under the node at position `at`.
    fn subtree_at(&self, at: usize, generations: Option<i32>) -> (nodes: Vec<Node<Q, T>>)
        requires
            id_like::<Q>(),
            clone_is_copy::<T>(),
            self.wf(),
            at < self@.nodes.len(),
        ensures
            views(nodes@) == subtree(self@.nodes, at as int, generations_limit(generations)),
        decreases self@.nodes.len() - at,
    {
        let node = self.nodes.at(at);
        let mut nodes: Vec<Node<Q, T>> = Vec::new();
        nodes.push(node.clone());
        assert(views(nodes@) =~= seq![self@.nodes[at as int]]);
        let deeper = match generations {
            Some(n) => if n > 0 {
                Some(Some(n - 1))
            } else {
                None
            },
            None => Some(None),
        };
        let below = match deeper {
            Some(below) => below,
            None => {
                return nodes;
            },
        };
        assert(generations_limit(below) == one_less(generations_limit(generations)));
        let children = node.children_ref();
        let mut k: usize = 0;
        assert(views(nodes@) =~= seq![self@.nodes[at as int]] + subtree_below(
            self@.nodes,
            at as int,
            generations_limit(below),
            0,
        ));
        while k < children.len()
            invariant
                id_like::<Q>(),
                clone_is_copy::<T>(),
                self.wf(),
                at < self@.nodes.len(),
                children@ == self@.nodes[at as int].children,
                k <= children.len(),
                views(nodes@) == seq![self@.nodes[at as int]] + subtree_below(
                    self@.nodes,
                    at as int,
                    generations_limit(below),
                    k as int,
                ),
            decreases children.len() - k,
        {
            proof {
                lemma_child(self@.nodes, at as int, k as int);
            }
            let child = match self.nodes.find(&children[k]) {
                Some(child) => child,
                None => unreached(),
            };
            let ghost before = nodes@;
            let mut more = self.subtree_at(child, below);
            let ghost added = more@;
            nodes.append(&mut more);
            proof {
                assert(views(before + added) =~= views(before) + views(added));
                assert(views(nodes@) =~= seq![self@.nodes[at as int]] + subtree_below(
                    self@.nodes,
                    at as int,
                    generations_limit(below),
                    k + 1,
                ));
            }
            k = k + 1;
        }
        nodes
    }

    /// Get a copy of a part of the tree: the node with the id `node_id`
    /// and its descendants, down to `generations` generations below the
    /// node, or all of them where `generations` is `None`. The subtree is
    /// named after the id, and the tree is left as it is.
    ///
    /// Fails with `NodeNotFound` where no node has the id `node_id`.
    pub fn get_subtree(&self, node_id: &Q, generations: Option<i32>) -> (result: Result<
        SubTree<Q, T>,
        Error,
    >)
        requires
            id_like::<Q>(),
            clone_is_copy::<T>(),
            self.wf(),
        ensures
            match result {
                Ok(part) => {
                    let x = position(self@.nodes, *node_id);
                    let limit = generations_limit(generations);
                    &&& has_id(self@.nodes, *node_id)
                    &&& part@.nodes == subtree(self@.nodes, x, limit)
                    &&& part@.nodes.len() >= 1
                    &&& part@.nodes[0] == self@.nodes[x]
                    &&& lists_descendants(self@.nodes, x, limit, ids_of(part@.nodes))
                    &&& part@.name matches Some(name) && shown_as(*node_id, name)
                },
                Err(Error::NodeNotFound(text)) => !has_id(self@.nodes, *node_id) && shown(
                    *node_id,
                    text,
                ),
                Err(_) => false,
            },
    {
        match self.nodes.find(node_id) {
            Some(at) => {
                proof {
                    lemma_subtree_lists_descendants(
                        self@.nodes,
                        at as int,
                        generations_limit(generations),
                    );
                }
                let nodes = self.subtree_at(at, generations);
                let name = node_id.to_string();
                assert(shown(*node_id, name));
                Ok(Tree { name: Some(name), nodes: Nodes::new(nodes) })
            },
            None => Err(Error::NodeNotFound(node_id.to_string())),
        }
    }
}

impl<Q, T> Tree<Q, T> where Q: PartialEq + Eq + Clone + Display, T: PartialEq + Eq + Clone {
    /// Get the degree of the node with the id `node_id`: the number of its
    /// children.
    ///
    /// Fails with `NodeNotFound` where no node has the id `node_id`.
    pub fn get_node_degree(&self, node_id: &Q) -> (result: Result<i32, Error>)
        requires
            id_like::<Q>(),
            self.wf(),
            self@.nodes.len() <= i32::MAX,
        ensures
            match result {
                Ok(degree) => has_id(self@.nodes, *node_id) && degree == self@.nodes[position(
                    self@.nodes,
                    *node_id,
                )].children.len(),
                Err(Error::NodeNotFound(text)) => !has_id(self@.nodes, *node_id) && shown(
                    *node_id,
                    text,
                ),
                Err(_) => false,
            },
    {
        match self.nodes.find(node_id) {
            Some(at) => {
                proof {
                    lemma_children_bound(self@.nodes, at as int);
                }
                Ok(self.nodes.at(at).children_ref().len() as i32)
            },
            None => Err(Error::NodeNotFound(node_id.to_string())),
        }
    }

    /// The ids of the node at position `at` and of its descendants.
    fn subtree_ids_at(&self, at: usize) -> (ids: Vec<Q>)
        requires
            id_like::<Q>(),
            self.wf(),
            at < self@.nodes.len(),
        ensures
            ids@ == subtree_ids(self@.nodes, at as int),
        decreases self@.nodes.len() - at,
    {
        let node = self.nodes.at(at);
        let children = node.children_ref();
        let mut ids: Vec<Q> = Vec::new();
        ids.push(node.get_node_id());
        let mut k: usize = 0;
        assert(ids@ =~= ids_of(
            seq![self@.nodes[at as int]] + subtree_below(self@.nodes, at as int, None, 0),
        ));
        while k < children.len()
            invariant
                id_like::<Q>(),
                self.wf(),
                at < self@.nodes.len(),
                children@ == self@.nodes[at as int].children,
                k <= children.len(),
                ids@ == ids_of(
                    seq![self@.nodes[at as int]] + subtree_below(
                        self@.nodes,
                        at as int,
                        None,
                        k as int,
                    ),
                ),
            decreases children.len() - k,
        {
            proof {
                lemma_child(self@.nodes, at as int, k as int);
            }
            let child = match self.nodes.find(&children[k]) {
                Some(child) => child,
                None => unreached(),
            };
            let mut more = self.subtree_ids_at(child);
            ids.append(&mut more);
            proof {
                assert(ids@ =~= ids_of(
                    seq![self@.nodes[at as int]] + subtree_below(
                        self@.nodes,
                        at as int,
                        None,
                        k + 1,
                    ),
                ));
            }
            k = k + 1;
        }
        proof {
            assert(one_less(None) == None::<int>);
        }
        ids
    }

    /// Remove the node at position `x`, which has a parent, and hand its
    /// children to that parent.
    fn remove_keeping_children(&mut self, x: usize)
        requires
            id_like::<Q>(),
            old(self).wf(),
            x < old(self)@.nodes.len(),
            old(self)@.nodes[x as int].parent is Some,
        ensures
            final(self)@.name == old(self)@.name,
            final(self)@.nodes == without_node(old(self)@.nodes, x as int),
    {
        let ghost before = self@.nodes;
        let id = self.nodes.at(x).get_node_id();
        let parent_id = match self.nodes.at(x).get_parent_id() {
            Some(parent_id) => parent_id,
            None => unreached(),
        };
        proof {
            lemma_parent(before, x as int);
        }
        let p = match self.nodes.find(&parent_id) {
            Some(p) => p,
            None => unreached(),
        };
        let children = self.nodes.at(x).get_children_ids();
        self.nodes.at_mut(p).drop_child(&id);
        let mut m: usize = 0;
        assert(self@.nodes =~= relinked(before, x as int, 0));
        while m < children.len()
            invariant
                id_like::<Q>(),
                well_formed(before),
                x < before.len(),
                p < x,
                p == position(before, parent_id),
                before[x as int].parent == Some(parent_id),
                before[x as int].node_id == id,
                children@ == before[x as int].children,
                m <= children.len(),
                self@.name == old(self)@.name,
                self@.nodes == relinked(before, x as int, m as int),
            decreases children.len() - m,
        {
            let ghost current = self@.nodes;
            proof {
                lemma_child(before, x as int, m as int);
                lemma_position_same_ids(current, before, children@[m as int]);
            }
            let j = match self.nodes.find(&children[m]) {
                Some(j) => j,
                None => unreached(),
            };
            let child_id = children[m].clone();
            assert(cloned(children@[m as int], child_id));
            self.nodes.at_mut(p).push_child_id(child_id);
            let new_parent = parent_id.clone();
            assert(cloned(parent_id, new_parent));
            self.nodes.at_mut(j).set_parent_id(Some(new_parent));
            proof {
                let taken = before[x as int].children.take(m as int);
                let more = before[x as int].children.take(m + 1);
                assert(more =~= taken.push(children@[m as int]));
                assert(without(before[p as int].children, id) + more =~= (without(
                    before[p as int].children,
                    id,
                ) + taken).push(children@[m as int]));
                assert forall|k: int| 0 <= k < before.len() implies self@.nodes[k] == relinked(
                    before,
                    x as int,
                    m + 1,
                )[k] by {
                    lemma_node(before, k);
                    lemma_node(before, j as int);
                    if k != p as int && k != j as int {
                        if more.contains(before[k].node_id) {
                            let w = choose|w: int| 0 <= w < more.len() && more[w] == before[k].node_id;
                            if w < m {
                                assert(taken[w] == before[k].node_id);
                            }
                        }
                        if taken.contains(before[k].node_id) {
                            let w = choose|w: int|
                                0 <= w < taken.len() && taken[w] == before[k].node_id;
                            assert(more[w] == before[k].node_id);
                        }
                    } else if k == j as int {
                        assert(more[m as int] == before[k].node_id);
                    }
                }
                assert(self@.nodes =~= relinked(before, x as int, m + 1));
            }
            m = m + 1;
        }
        proof {
            assert(before[x as int].children.take(children@.len() as int) =~= before[x as int].children);
            lemma_relinked_all(before, x as int);
        }
        self.nodes.remove(x);
    }

    /// Remove the node at position `x` and all its descendants.
    fn remove_with_children(&mut self, x: usize)
        requires
            id_like::<Q>(),
            old(self).wf(),
            x < old(self)@.nodes.len(),
        ensures
            final(self)@.name == old(self)@.name,
            final(self)@.nodes == without_subtree(old(self)@.nodes, x as int),
    {
        let ghost before = self@.nodes;
        let doomed = self.subtree_ids_at(x);
        let id = self.nodes.at(x).get_node_id();
        match self.nodes.at(x).get_parent_id() {
            Some(parent_id) => {
                proof {
                    lemma_parent(before, x as int);
                }
                match self.nodes.find(&parent_id) {
                    Some(p) => {
                        self.nodes.at_mut(p).drop_child(&id);
                    },
                    None => unreached(),
                }
            },
            None => {},
        }
        assert(self@.nodes =~= detached(before, x as int));
        self.nodes.discard(&doomed);
    }

    /// Remove the node with the id `node_id` from the tree.
    ///
    /// With `RetainChildren` the children of the node become the last
    /// children of its parent, in their order. With
    /// `RemoveNodeAndChildren` all descendants of the node leave the tree
    /// with it.
    ///
    /// Fails with `NodeNotFound` where no node has the id `node_id`, and
    /// with `InvalidOperation` where the root is to be removed with
    /// `RetainChildren`. The tree is then left as it was.
    pub fn remove_node(&mut self, node_id: &Q, strategy: NodeRemovalStrategy) -> (result: Result<
        (),
        Error,
    >)
        requires
            id_like::<Q>(),
            old(self).wf(),
        ensures
            final(self)@.name == old(self)@.name,
            final(self).wf(),
            match result {
                Ok(_) => {
                    let x = position(old(self)@.nodes, *node_id);
                    &&& has_id(old(self)@.nodes, *node_id)
                    &&& !has_id(final(self)@.nodes, *node_id)
                    &&& match strategy {
                        NodeRemovalStrategy::RetainChildren => {
                            &&& old(self)@.nodes[x].parent is Some
                            &&& final(self)@.nodes == without_node(old(self)@.nodes, x)
                            &&& final(self)@.nodes.len() == old(self)@.nodes.len() - 1
                            &&& forall|k: int|
                                0 <= k < old(self)@.nodes.len() && (#[trigger] old(
                                    self,
                                )@.nodes[k]).parent == Some(*node_id) ==> {
                                    let child = old(self)@.nodes[k];
                                    let at = position(final(self)@.nodes, child.node_id);
                                    &&& has_id(final(self)@.nodes, child.node_id)
                                    &&& final(self)@.nodes[at] == (NodeView {
                                        parent: old(self)@.nodes[x].parent,
                                        ..child
                                    })
                                }
                        },
                        NodeRemovalStrategy::RemoveNodeAndChildren => {
                            &&& final(self)@.nodes == without_subtree(old(self)@.nodes, x)
                            &&& final(self)@.nodes.len() == old(self)@.nodes.len() - subtree(
                                old(self)@.nodes,
                                x,
                                None,
                            ).len()
                            &&& forall|j: int|
                                0 <= j < old(self)@.nodes.len() ==> (under(old(self)@.nodes, x, j)
                                    <==> !has_id(
                                    final(self)@.nodes,
                                    (#[trigger] old(self)@.nodes[j]).node_id,
                                ))
                        },
                    }
                },
                Err(Error::NodeNotFound(text)) => {
                    &&& !has_id(old(self)@.nodes, *node_id)
                    &&& shown(*node_id, text)
                    &&& final(self)@ == old(self)@
                },
                Err(Error::InvalidOperation(reason)) => {
                    &&& has_id(old(self)@.nodes, *node_id)
                    &&& strategy is RetainChildren
                    &&& old(self)@.nodes[position(old(self)@.nodes, *node_id)].parent is None
                    &&& reason@ == "Cannot remove root node with RetainChildren strategy"@
                    &&& final(self)@ == old(self)@
                },
                Err(_) => false,
            },
    {
        let x = match self.nodes.find(node_id) {
            Some(x) => x,
            None => {
                return Err(Error::NodeNotFound(node_id.to_string()));
            },
        };
        match strategy {
            NodeRemovalStrategy::RetainChildren => {
                if self.nodes.at(x).parent_ref().is_none() {
                    return Err(
                        Error::InvalidOperation(
                            String::from_str(
                                "Cannot remove root node with RetainChildren strategy",
                            ),
                        ),
                    );
                }
                proof {
                    lemma_position(self@.nodes, *node_id);
                    lemma_without_node(self@.nodes, x as int);
                }
                self.remove_keeping_children(x);
            },
            NodeRemovalStrategy::RemoveNodeAndChildren => {
                proof {
                    lemma_position(self@.nodes, *node_id);
                    lemma_without_subtree(self@.nodes, x as int);
                    lemma_subtree(self@.nodes, x as int, None);
                    lemma_node(self@.nodes, x as int);
                    assert(under(self@.nodes, x as int, x as int));
                }
                self.remove_with_children(x);
            },
        }
        Ok(())
    }

    /// Add the nodes of `subtree` to the tree, with the root of `subtree`
    /// as the last child of the node with the id `node_id`. The ids of
    /// `subtree` are taken as they are: it is for the caller to see that
    /// none of them is in the tree already.
    ///
    /// Fails with `NodeNotFound` where no node has the id `node_id`, and
    /// with `InvalidOperation` where `subtree` has no root. The tree is
    /// then left as it was.
    pub fn add_subtree(&mut self, node_id: &Q, subtree: SubTree<Q, T>) -> (result: Result<
        (),
        Error,
    >)
        requires
            id_like::<Q>(),
        ensures
            final(self)@.name == old(self)@.name,
            old(self).wf() && subtree.wf() && disjoint_ids(old(self)@.nodes, subtree@.nodes)
                ==> final(self).wf(),
            match result {
                Ok(_) => {
                    &&& has_id(old(self)@.nodes, *node_id)
                    &&& has_root(subtree@.nodes)
                    &&& final(self)@.nodes == with_subtree(
                        old(self)@.nodes,
                        position(old(self)@.nodes, *node_id),
                        subtree@.nodes,
                    )
                },
                Err(Error::NodeNotFound(text)) => {
                    &&& !has_id(old(self)@.nodes, *node_id)
                    &&& shown(*node_id, text)
                    &&& final(self)@ == old(self)@
                },
                Err(Error::InvalidOperation(reason)) => {
                    &&& has_id(old(self)@.nodes, *node_id)
                    &&& !has_root(subtree@.nodes)
                    &&& reason@ == "Subtree has no root node."@
                    &&& final(self)@ == old(self)@
                },
                Err(_) => false,
            },
    {
        let at = match self.nodes.find(node_id) {
            Some(at) => at,
            None => {
                return Err(Error::NodeNotFound(node_id.to_string()));
            },
        };
        let mut subtree = subtree;
        let r = match subtree.nodes.find_root() {
            Some(r) => r,
            None => {
                return Err(
                    Error::InvalidOperation(String::from_str("Subtree has no root node.")),
                );
            },
        };
        proof {
            lemma_position(self@.nodes, *node_id);
            if self.wf() && subtree.wf() && disjoint_ids(self@.nodes, subtree@.nodes) {
                lemma_with_subtree_well_formed(self@.nodes, at as int, subtree@.nodes);
            }
        }
        let root_id = subtree.nodes.at(r).get_node_id();
        let own_id = self.nodes.at(at).get_node_id();
        self.nodes.at_mut(at).push_child_id(root_id);
        subtree.nodes.at_mut(r).set_parent_id(Some(own_id));
        self.nodes.append(&mut subtree.nodes);
        Ok(())
    }
}

/// The nodes of a tree while the children of the node at position `x` are
/// handed to its parent: the first `m` of them have been.
pub open spec fn relinked<Q, T>(nodes: Seq<NodeView<Q, T>>, x: int, m: int) -> Seq<NodeView<Q, T>> {
    let id = nodes[x].node_id;
    let parent_id = nodes[x].parent->0;
    let p = position(nodes, parent_id);
    let moved = nodes[x].children.take(m);
    Seq::new(
        nodes.len(),
        |k: int|
            if k == p {
                NodeView { children: without(nodes[p].children, id) + moved, ..nodes[p] }
            } else if moved.contains(nodes[k].node_id) {
                NodeView { parent: Some(parent_id), ..nodes[k] }
            } else {
                nodes[k]
            },
    )
}

/// Once all children of the node at position `x` have been handed to its
/// parent, the nodes but that one are those of `without_node`.
proof fn lemma_relinked_all<Q, T>(nodes: Seq<NodeView<Q, T>>, x: int)
    requires
        well_formed(nodes),
        0 <= x < nodes.len(),
        nodes[x].parent is Some,
    ensures
        relinked(nodes, x, nodes[x].children.len() as int).remove(x) == without_node(nodes, x),
{
    let n = nodes[x].children.len() as int;
    let id = nodes[x].node_id;
    let children = nodes[x].children;
    assert(children.take(n) =~= children);
    let a = relinked(nodes, x, n);
    let b = handed_over(nodes, x);
    lemma_node(nodes, x);
    assert forall|k: int| 0 <= k < nodes.len() implies a[k] == b[k] by {
        lemma_node(nodes, k);
        if children.contains(nodes[k].node_id) {
            let w = choose|w: int| 0 <= w < children.len() && children[w] == nodes[k].node_id;
            lemma_child(nodes, x, w);
        }
        if nodes[k].parent == Some(id) {
            lemma_parent(nodes, k);
        }
    }
    assert(a =~= b);
}

impl<Q, T> Default for Tree<Q, T> where Q: PartialEq + Eq + Clone, T: PartialEq + Eq + Clone {
    /// Create a new tree without a name and without nodes.
    fn default() -> (tree: Self)
        ensures
            tree@.name is None,
            tree@.nodes == Seq::<NodeView<Q, T>>::empty(),
    {
        Tree { name: None, nodes: Nodes::default() }
    }
}

impl<Q, T> Clone for Tree<Q, T> where Q: PartialEq + Eq + Clone, T: PartialEq + Eq + Clone {
    fn clone(&self) -> (copy: Self)
        ensures
            copy@.name == self@.name,
            copy@.nodes.len() == self@.nodes.len(),
            clone_is_copy::<Q>() && clone_is_copy::<T>() ==> copy@ == self@,
    {
        let name = match &self.name {
            Some(name) => Some(name.clone()),
            None => None,
        };
        Tree { name, nodes: self.nodes.clone() }
    }
}

impl<Q, T> PartialEq for Tree<Q, T> where Q: PartialEq + Eq + Clone, T: PartialEq + Eq + Clone {
    /// Two trees are equal when their names are and they hold equal nodes
    /// in the same order.
    fn eq(&self, other: &Self) -> (equal: bool)
    {
        let same_name = match (&self.name, &other.name) {
            (Some(a), Some(b)) => *a == *b,
            (None, None) => true,
            _ => false,
        };
        same_name && self.nodes == other.nodes
    }
}

impl<Q, T> vstd::std_specs::cmp::PartialEqSpecImpl for Tree<Q, T> where Q: PartialEq + Eq + Clone, T: PartialEq + Eq + Clone {
    open spec fn obeys_eq_spec() -> bool {
        Q::obeys_eq_spec() && T::obeys_eq_spec()
    }

    open spec fn eq_spec(&self, other: &Self) -> bool {
        &&& self@.name == other@.name
        &&& PartialEqSpec::eq_spec(self.all_nodes(), other.all_nodes())
    }
}

impl<Q, T> Eq for Tree<Q, T> where Q: PartialEq + Eq + Clone, T: PartialEq + Eq + Clone {

}

impl<Q, T> Tree<Q, T> where Q: PartialEq + Eq + Clone, T: PartialEq + Eq + Clone {
    /// The parts of the tree: its name and its nodes.
    pub(crate) fn into_parts(self) -> (parts: (Option<String>, Nodes<Q, T>))
        ensures
            parts.1@ == self@.nodes,
            self@.name == match parts.0 {
                Some(text) => Some(text@),
                None => None,
            },
    {
        (self.name, self.nodes)
    }

    /// A tree made of the given parts.
    pub(crate) fn from_parts(name: Option<String>, nodes: Nodes<Q, T>) -> (tree: Self)
        ensures
            tree@.nodes == nodes@,
            tree@.name == match name {
                Some(text) => Some(text@),
                None => None,
            },
    {
        Tree { name, nodes }
    }

    /// The collection that holds the nodes of the tree.
    pub closed spec fn all_nodes(&self) -> &Nodes<Q, T> {
        &self.nodes
    }
}

impl<Q, T> Tree<Q, T> where Q: PartialEq + Eq + Clone + Display, T: PartialEq + Eq + Clone {
    /// Whether every node stands at the position of its id: whether no id
    /// occurs twice.
    fn has_distinct_ids(&self) -> (ok: bool)
        requires
            id_like::<Q>(),
        ensures
            ok == distinct_ids(self@.nodes),
    {
        let mut i: usize = 0;
        while i < self.nodes.len()
            invariant
                id_like::<Q>(),
                i <= self@.nodes.len(),
                forall|a: int, b: int|
                    0 <= a < b < i ==> (#[trigger] self@.nodes[a]).node_id != (
                    #[trigger] self@.nodes[b]).node_id,
            decreases self@.nodes.len() - i,
        {
            proof {
                lemma_position(self@.nodes, self@.nodes[i as int].node_id);
            }
            match self.nodes.find(self.nodes.at(i).id_ref()) {
                Some(first) => {
                    if first != i {
                        assert(self@.nodes[first as int].node_id == self@.nodes[i as int].node_id);
                        return false;
                    }
                },
                None => {
                    return false;
                },
            }
            i = i + 1;
        }
        true
    }

    /// Whether the children of the node at position `i` are linked as the
    /// invariant of a tree asks.
    fn has_children_linked_at(&self, i: usize) -> (ok: bool)
        requires
            id_like::<Q>(),
            i < self@.nodes.len(),
        ensures
            ok == ({
                &&& forall|k: int|
                    0 <= k < self@.nodes[i as int].children.len() ==> {
                        let j = position(self@.nodes, #[trigger] self@.nodes[i as int].children[k]);
                        i < j < self@.nodes.len() && self@.nodes[j].parent == Some(
                            self@.nodes[i as int].node_id,
                        )
                    }
                &&& self@.nodes[i as int].children.no_duplicates()
            }),
    {
        let node = self.nodes.at(i);
        let children = node.children_ref();
        let mut k: usize = 0;
        while k < children.len()
            invariant
                id_like::<Q>(),
                i < self@.nodes.len(),
                node@ == self@.nodes[i as int],
                children@ == self@.nodes[i as int].children,
                k <= children.len(),
                forall|w: int|
                    0 <= w < k ==> {
                        let j = position(self@.nodes, #[trigger] children@[w]);
                        i < j < self@.nodes.len() && self@.nodes[j].parent == Some(
                            self@.nodes[i as int].node_id,
                        )
                    },
                forall|a: int, b: int| 0 <= a < b < k ==> children@[a] != children@[b],
            decreases children.len() - k,
        {
            proof {
                lemma_position(self@.nodes, children@[k as int]);
                reveal(obeys_concrete_eq);
            }
            assert(self@.nodes[i as int].children[k as int] == children@[k as int]);
            match self.nodes.find(&children[k]) {
                Some(j) => {
                    if j <= i {
                        return false;
                    }
                    match self.nodes.at(j).parent_ref() {
                        Some(parent) => {
                            if !(*parent == *node.id_ref()) {
                                return false;
                            }
                        },
                        None => {
                            return false;
                        },
                    }
                },
                None => {
                    return false;
                },
            }
            let mut before: usize = 0;
            while before < k
                invariant
                    id_like::<Q>(),
                    i < self@.nodes.len(),
                    children@ == self@.nodes[i as int].children,
                    before <= k < children.len(),
                    forall|a: int| 0 <= a < before ==> children@[a] != children@[k as int],
                decreases k - before,
            {
                proof {
                    reveal(obeys_concrete_eq);
                }
                if children[before] == children[k] {
                    assert(children@[before as int] == children@[k as int]);
                    return false;
                }
                before = before + 1;
            }
            k = k + 1;
        }
        true
    }

    /// Whether the node at position `j` is linked to its parent as the
    /// invariant of a tree asks.
    fn has_parent_linked_at(&self, j: usize) -> (ok: bool)
        requires
            id_like::<Q>(),
            j < self@.nodes.len(),
        ensures
            ok == (self@.nodes[j as int].parent is Some ==> {
                let i = position(self@.nodes, self@.nodes[j as int].parent->0);
                i < j && self@.nodes[i].children.contains(self@.nodes[j as int].node_id)
            }),
    {
        let node = self.nodes.at(j);
        match node.parent_ref() {
            Some(parent) => {
                proof {
                    lemma_position(self@.nodes, *parent);
                }
                match self.nodes.find(parent) {
                    Some(i) => i < j && holds(self.nodes.at(i).children_ref(), node.id_ref()),
                    None => false,
                }
            },
            None => true,
        }
    }

    /// Whether at most one node has no parent.
    fn has_single_root(&self) -> (ok: bool)
        ensures
            ok == single_root(self@.nodes),
    {
        let root = match self.nodes.find_root() {
            Some(root) => root,
            None => {
                return true;
            },
        };
        proof {
            crate::model::lemma_root_position(self@.nodes);
        }
        let n = self.nodes.len();
        let mut j: usize = root + 1;
        while j < n
            invariant
                root < j <= self@.nodes.len(),
                n == self@.nodes.len(),
                self@.nodes[root as int].parent is None,
                forall|a: int| 0 <= a < root ==> (#[trigger] self@.nodes[a]).parent is Some,
                forall|a: int| root < a < j ==> (#[trigger] self@.nodes[a]).parent is Some,
            decreases self@.nodes.len() - j,
        {
            if self.nodes.at(j).parent_ref().is_none() {
                assert(self@.nodes[j as int].parent is None);
                return false;
            }
            j = j + 1;
        }
        true
    }

    /// Whether the tree keeps its invariant: whether its ids are unique,
    /// at most one node is without a parent, parent and child links agree
    /// with each other, and each parent stands before its children.
    pub fn is_well_formed(&self) -> (ok: bool)
        requires
            id_like::<Q>(),
        ensures
            ok == self.wf(),
    {
        proof {
            reveal(well_formed);
        }
        if !self.has_distinct_ids() || !self.has_single_root() {
            return false;
        }
        let mut i: usize = 0;
        while i < self.nodes.len()
            invariant
                id_like::<Q>(),
                i <= self@.nodes.len(),
                forall|a: int, k: int|
                    0 <= a < i && 0 <= k < self@.nodes[a].children.len() ==> {
                        let j = position(self@.nodes, #[trigger] self@.nodes[a].children[k]);
                        a < j < self@.nodes.len() && self@.nodes[j].parent == Some(
                            self@.nodes[a].node_id,
                        )
                    },
                forall|a: int| 0 <= a < i ==> (#[trigger] self@.nodes[a]).children.no_duplicates(),
                forall|a: int|
                    0 <= a < i && (#[trigger] self@.nodes[a]).parent is Some ==> {
                        let q = position(self@.nodes, self@.nodes[a].parent->0);
                        q < a && self@.nodes[q].children.contains(self@.nodes[a].node_id)
                    },
                distinct_ids(self@.nodes),
                single_root(self@.nodes),
            decreases self@.nodes.len() - i,
        {
            if !self.has_children_linked_at(i) {
                proof {
                    reveal(well_formed);
                    if children_linked(self@.nodes) {
                        assert(self@.nodes[i as int].children.no_duplicates());
                        assert forall|k: int|
                            0 <= k < self@.nodes[i as int].children.len() implies ({
                            let j = position(
                                self@.nodes,
                                #[trigger] self@.nodes[i as int].children[k],
                            );
                            i < j < self@.nodes.len() && self@.nodes[j].parent == Some(
                                self@.nodes[i as int].node_id,
                            )
                        }) by {}
                    }
                }
                return false;
            }
            if !self.has_parent_linked_at(i) {
                proof {
                    reveal(well_formed);
                    if parents_linked(self@.nodes) {
                        assert(self@.nodes[i as int].parent is Some);
                    }
                }
                return false;
            }
            i = i + 1;
        }
        true
    }
}

} // verus!
