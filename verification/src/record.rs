//! Trees as records, to be written and read back: in the full form each
//! node is written with its children, in the compact form without them,
//! and they are found again from the parents when the record is read.

use crate::keeping::{is_fresh, lemma_with_node_well_formed};
use crate::model::{
    has_id, has_root, lemma_node, lemma_parent, lemma_position, lemma_position_same_ids,
    lemma_root_is_first, position, well_formed, with_node,
};
use crate::node::{clone_is_copy, id_like, views, Node, NodeView, Nodes};
use crate::tree::{Tree, TreeView};
use vstd::prelude::*;

verus! {

/// The form of a record.
#[derive(Clone, Copy, Debug, PartialEq, Eq, Structural)]
pub enum RecordForm {
    /// Each node is written with the ids of its children.
    Full,
    /// The nodes are written without their children.
    Compact,
}

/// A node as it is written: its id, its value, the ids of its children
/// where the form has them, and the id of its parent.
#[derive(Debug)]
pub struct NodeRecord<Q, T> {
    pub node_id: Q,
    pub value: Option<T>,
    pub children: Option<Vec<Q>>,
    pub parent: Option<Q>,
}

/// A tree as it is written: its name and its nodes, in their order.
#[derive(Debug)]
pub struct TreeRecord<Q, T> {
    pub name: Option<String>,
    pub nodes: Vec<NodeRecord<Q, T>>,
}

/// What a node record holds.
pub ghost struct NodeRecordView<Q, T> {
    pub node_id: Q,
    pub value: Option<T>,
    pub children: Option<Seq<Q>>,
    pub parent: Option<Q>,
}

/// What a tree record holds.
pub ghost struct TreeRecordView<Q, T> {
    pub name: Option<Seq<char>>,
    pub nodes: Seq<NodeRecordView<Q, T>>,
}

impl<Q, T> View for NodeRecord<Q, T> {
    type V = NodeRecordView<Q, T>;

    open spec fn view(&self) -> NodeRecordView<Q, T> {
        NodeRecordView {
            node_id: self.node_id,
            value: self.value,
            children: match self.children {
                Some(ids) => Some(ids@),
                None => None,
            },
            parent: self.parent,
        }
    }
}

/// The views of a sequence of node records, in the same order.
pub open spec fn record_views<Q, T>(records: Seq<NodeRecord<Q, T>>) -> Seq<NodeRecordView<Q, T>> {
    Seq::new(records.len(), |i: int| records[i]@)
}

impl<Q, T> View for TreeRecord<Q, T> {
    type V = TreeRecordView<Q, T>;

    open spec fn view(&self) -> TreeRecordView<Q, T> {
        TreeRecordView {
            name: match self.name {
                Some(name) => Some(name@),
                None => None,
            },
            nodes: record_views(self.nodes@),
        }
    }
}

/// The record of a node in the given form.
pub open spec fn written_node<Q, T>(node: NodeView<Q, T>, form: RecordForm) -> NodeRecordView<Q, T> {
    NodeRecordView {
        node_id: node.node_id,
        value: node.value,
        children: match form {
            RecordForm::Full => Some(node.children),
            RecordForm::Compact => None,
        },
        parent: node.parent,
    }
}

/// The records of nodes in the given form, in the order of the nodes.
pub open spec fn written<Q, T>(nodes: Seq<NodeView<Q, T>>, form: RecordForm) -> Seq<
    NodeRecordView<Q, T>,
> {
    Seq::new(nodes.len(), |i: int| written_node(nodes[i], form))
}

/// The node that a record stands for, before the children are found from
/// the parents: in the full form it has the children of the record, and
/// none where the record has none; in the compact form it has none.
pub open spec fn read_node<Q, T>(record: NodeRecordView<Q, T>, form: RecordForm) -> NodeView<Q, T> {
    NodeView {
        node_id: record.node_id,
        value: record.value,
        children: match (form, record.children) {
            (RecordForm::Full, Some(ids)) => ids,
            _ => Seq::empty(),
        },
        parent: record.parent,
    }
}

/// The nodes that records stand for, before the children are found from
/// the parents.
pub open spec fn read_all<Q, T>(records: Seq<NodeRecordView<Q, T>>, form: RecordForm) -> Seq<
    NodeView<Q, T>,
> {
    Seq::new(records.len(), |i: int| read_node(records[i], form))
}

/// The ids of the nodes that name `id` as their parent, in the order of
/// the nodes.
pub open spec fn naming<Q, T>(nodes: Seq<NodeView<Q, T>>, id: Q) -> Seq<Q>
    decreases nodes.len(),
{
    if nodes.len() == 0 {
        Seq::empty()
    } else if nodes.last().parent == Some(id) {
        naming(nodes.drop_last(), id).push(nodes.last().node_id)
    } else {
        naming(nodes.drop_last(), id)
    }
}

/// The nodes with their children found from the parents of the first `m`
/// nodes: a node that names a parent is appended to the children of the
/// first node with the id of that parent.
pub open spec fn linked<Q, T>(nodes: Seq<NodeView<Q, T>>, m: int) -> Seq<NodeView<Q, T>> {
    Seq::new(
        nodes.len(),
        |j: int|
            if position(nodes, nodes[j].node_id) == j {
                NodeView {
                    children: nodes[j].children + naming(nodes.take(m), nodes[j].node_id),
                    ..nodes[j]
                }
            } else {
                nodes[j]
            },
    )
}

/// The nodes that records stand for.
pub open spec fn restored<Q, T>(records: Seq<NodeRecordView<Q, T>>, form: RecordForm) -> Seq<
    NodeView<Q, T>,
> {
    let plain = read_all(records, form);
    match form {
        RecordForm::Full => plain,
        RecordForm::Compact => linked(plain, plain.len() as int),
    }
}

/// The names of the fields of a node record, in the order in which they
/// are written.
pub open spec fn node_field_names(form: RecordForm) -> Seq<Seq<char>> {
    match form {
        RecordForm::Full => seq!["node_id"@, "value"@, "children"@, "parent"@],
        RecordForm::Compact => seq!["node_id"@, "value"@, "parent"@],
    }
}

/// The names of the fields of a tree record, in the order in which they
/// are written: the name is written for a named tree alone.
pub open spec fn tree_field_names(named: bool) -> Seq<Seq<char>> {
    if named {
        seq!["name"@, "nodes"@]
    } else {
        seq!["nodes"@]
    }
}

/// The views of `names`, in the same order.
pub open spec fn name_views(names: Seq<&'static str>) -> Seq<Seq<char>> {
    Seq::new(names.len(), |i: int| names[i]@)
}

impl<Q, T> NodeRecord<Q, T> {
    /// The names of the fields of a node record in the given form, in the
    /// order in which they are written.
    pub fn field_names(form: RecordForm) -> (names: Vec<&'static str>)
        ensures
            name_views(names@) == node_field_names(form),
    {
        let mut names: Vec<&'static str> = Vec::new();
        names.push("node_id");
        names.push("value");
        match form {
            RecordForm::Full => {
                names.push("children");
            },
            RecordForm::Compact => {},
        }
        names.push("parent");
        assert(name_views(names@) =~= node_field_names(form));
        names
    }
}

impl<Q, T> TreeRecord<Q, T> {
    /// The names of the fields of this record, in the order in which they
    /// are written.
    pub fn field_names(&self) -> (names: Vec<&'static str>)
        ensures
            name_views(names@) == tree_field_names(self@.name is Some),
    {
        let mut names: Vec<&'static str> = Vec::new();
        if self.name.is_some() {
            names.push("name");
        }
        names.push("nodes");
        assert(name_views(names@) =~= tree_field_names(self@.name is Some));
        names
    }
}

impl<Q, T> Node<Q, T> where Q: PartialEq + Eq + Clone, T: PartialEq + Eq + Clone {
    /// The record of the node in the given form.
    pub fn serialize(&self, form: RecordForm) -> (record: NodeRecord<Q, T>)
        requires
            clone_is_copy::<Q>(),
            clone_is_copy::<T>(),
        ensures
            record@ == written_node(self@, form),
    {
        NodeRecord {
            node_id: self.get_node_id(),
            value: self.get_value(),
            children: match form {
                RecordForm::Full => Some(self.get_children_ids()),
                RecordForm::Compact => None,
            },
            parent: self.get_parent_id(),
        }
    }

    /// The node that a record in the given form stands for, before the
    /// children are found from the parents: see `read_node`.
    pub fn deserialize(record: NodeRecord<Q, T>, form: RecordForm) -> (node: Self)
        ensures
            node@ == read_node(record@, form),
    {
        let children = match (form, record.children) {
            (RecordForm::Full, Some(ids)) => ids,
            _ => Vec::new(),
        };
        Node::from_parts(record.node_id, record.value, children, record.parent)
    }
}

/// What `naming` holds once one more node is looked at.
proof fn lemma_naming_step<Q, T>(nodes: Seq<NodeView<Q, T>>, m: int, id: Q)
    requires
        0 <= m < nodes.len(),
    ensures
        naming(nodes.take(m + 1), id) == if nodes[m].parent == Some(id) {
            naming(nodes.take(m), id).push(nodes[m].node_id)
        } else {
            naming(nodes.take(m), id)
        },
{
    assert(nodes.take(m + 1).drop_last() =~= nodes.take(m));
    assert(nodes.take(m + 1).last() == nodes[m]);
}

/// `naming` looks at the ids and the parents of the nodes alone.
proof fn lemma_naming_same_links<Q, T>(a: Seq<NodeView<Q, T>>, b: Seq<NodeView<Q, T>>, id: Q)
    requires
        a.len() == b.len(),
        forall|i: int|
            0 <= i < a.len() ==> (#[trigger] a[i]).node_id == b[i].node_id && a[i].parent
                == b[i].parent,
    ensures
        naming(a, id) == naming(b, id),
    decreases a.len(),
{
    if a.len() > 0 {
        assert(a.last().node_id == b.last().node_id && a.last().parent == b.last().parent) by {
            assert(a[a.len() - 1].node_id == b[a.len() - 1].node_id);
        }
        assert forall|i: int| 0 <= i < a.drop_last().len() implies (
        #[trigger] a.drop_last()[i]).node_id == b.drop_last()[i].node_id && a.drop_last()[i].parent
            == b.drop_last()[i].parent by {
            assert(a[i].node_id == b[i].node_id);
        }
        lemma_naming_same_links(a.drop_last(), b.drop_last(), id);
    }
}

impl<Q, T> Nodes<Q, T> where Q: PartialEq + Eq + Clone, T: PartialEq + Eq + Clone {
    /// The records of the nodes in the given form, in the order of the
    /// nodes.
    pub fn serialize(&self, form: RecordForm) -> (records: Vec<NodeRecord<Q, T>>)
        requires
            clone_is_copy::<Q>(),
            clone_is_copy::<T>(),
        ensures
            record_views(records@) == written(self@, form),
    {
        let mut records: Vec<NodeRecord<Q, T>> = Vec::new();
        let mut i: usize = 0;
        while i < self.len()
            invariant
                clone_is_copy::<Q>(),
                clone_is_copy::<T>(),
                i <= self@.len(),
                records@.len() == i,
                record_views(records@) == written(self@.take(i as int), form),
            decreases self@.len() - i,
        {
            let ghost before = records@;
            records.push(self.at(i).serialize(form));
            proof {
                let now = record_views(records@);
                let goal = written(self@.take(i + 1), form);
                assert forall|j: int| 0 <= j < now.len() implies now[j] == goal[j] by {
                    if j < i {
                        assert(records@[j] == before[j]);
                        assert(record_views(before)[j] == written(self@.take(i as int), form)[j]);
                    }
                }
                assert(now =~= goal);
            }
            i = i + 1;
        }
        assert(self@.take(self@.len() as int) =~= self@);
        records
    }

    /// The nodes that records in the given form stand for, in the order
    /// of the records. In the compact form the children are found from
    /// the parents: each node that names a parent is appended to the
    /// children of the first node with the id of that parent.
    pub fn deserialize(records: Vec<NodeRecord<Q, T>>, form: RecordForm) -> (nodes: Self)
        requires
            id_like::<Q>(),
        ensures
            nodes@ == restored(record_views(records@), form),
            nodes.cursor() == 0,
    {
        let ghost given = record_views(records@);
        let ghost plain = read_all(given, form);
        let mut rest = records;
        let mut nodes: Nodes<Q, T> = Nodes::default();
        let ghost mut k: int = 0;
        assert(plain.take(0) =~= nodes@);
        while rest.len() > 0
            invariant
                0 <= k <= given.len(),
                given == record_views(records@),
                plain == read_all(given, form),
                rest@ == records@.skip(k),
                nodes@ == plain.take(k),
                nodes.cursor() == 0,
            decreases rest.len(),
        {
            let record = rest.remove(0);
            proof {
                assert(record == records@[k]);
                assert(rest@ =~= records@.skip(k + 1));
            }
            nodes.push(Node::deserialize(record, form));
            proof {
                assert(nodes@ =~= plain.take(k + 1));
                k = k + 1;
            }
        }
        assert(plain.take(plain.len() as int) =~= plain);
        match form {
            RecordForm::Full => {},
            RecordForm::Compact => {
                nodes.link_by_parents();
            },
        }
        nodes
    }

    /// Find the children from the parents: each node that names a parent
    /// is appended to the children of the first node with the id of that
    /// parent.
    fn link_by_parents(&mut self)
        requires
            id_like::<Q>(),
        ensures
            final(self)@ == linked(old(self)@, old(self)@.len() as int),
            final(self).cursor() == old(self).cursor(),
    {
        let ghost plain = self@;
        let mut m: usize = 0;
        proof {
            assert(plain.take(0) =~= Seq::<NodeView<Q, T>>::empty());
            assert forall|j: int| 0 <= j < plain.len() implies plain[j] == #[trigger] linked(
                plain,
                0,
            )[j] by {
                assert(plain[j].children + Seq::<Q>::empty() =~= plain[j].children);
            }
            assert(self@ =~= linked(plain, 0));
        }
        while m < self.len()
            invariant
                id_like::<Q>(),
                m <= plain.len(),
                self@ == linked(plain, m as int),
                self.cursor() == old(self).cursor(),
            decreases plain.len() - m,
        {
            let ghost current = self@;
            let found = match self.at(m).parent_ref() {
                Some(parent_id) => {
                    proof {
                        lemma_position_same_ids(current, plain, *parent_id);
                        lemma_position(plain, *parent_id);
                    }
                    self.find(parent_id)
                },
                None => None,
            };
            match found {
                Some(j) => {
                    let id = self.at(m).get_node_id();
                    self.at_mut(j).push_child_id(id);
                },
                None => {},
            }
            proof {
                assert forall|j: int| 0 <= j < plain.len() implies self@[j] == #[trigger] linked(
                    plain,
                    m + 1,
                )[j] by {
                    lemma_naming_step(plain, m as int, plain[j].node_id);
                    if position(plain, plain[j].node_id) == j {
                        let before = naming(plain.take(m as int), plain[j].node_id);
                        if plain[m as int].parent == Some(plain[j].node_id) {
                            assert(plain[j].children + before.push(plain[m as int].node_id) =~= (
                            plain[j].children + before).push(plain[m as int].node_id));
                        }
                    } else {
                        if plain[m as int].parent is Some {
                            lemma_position(plain, plain[m as int].parent->0);
                        }
                    }
                }
                assert(self@ =~= linked(plain, m + 1));
            }
            m = m + 1;
        }
    }
}

impl<Q, T> Tree<Q, T> where Q: PartialEq + Eq + Clone, T: PartialEq + Eq + Clone {
    /// The record of the tree in the given form.
    pub fn serialize(&self, form: RecordForm) -> (record: TreeRecord<Q, T>)
        requires
            clone_is_copy::<Q>(),
            clone_is_copy::<T>(),
        ensures
            record@ == written_tree(self@, form),
    {
        let copy = self.clone();
        let (name, nodes) = copy.into_parts();
        TreeRecord { name, nodes: nodes.serialize(form) }
    }

    /// The tree that a record in the given form stands for.
    pub fn deserialize(record: TreeRecord<Q, T>, form: RecordForm) -> (tree: Self)
        requires
            id_like::<Q>(),
        ensures
            tree@ == restored_tree(record@, form),
    {
        Tree::from_parts(record.name, Nodes::deserialize(record.nodes, form))
    }
}

/// The record of a tree in the given form.
pub open spec fn written_tree<Q, T>(tree: TreeView<Q, T>, form: RecordForm) -> TreeRecordView<Q, T> {
    TreeRecordView { name: tree.name, nodes: written(tree.nodes, form) }
}

/// The tree that a record in the given form stands for.
pub open spec fn restored_tree<Q, T>(record: TreeRecordView<Q, T>, form: RecordForm) -> TreeView<
    Q,
    T,
> {
    TreeView { name: record.name, nodes: restored(record.nodes, form) }
}

/// Each node that is the first with its id lists as its children the nodes
/// that name it as their parent, in the order in which they stand in the
/// tree; a node that is not the first with its id lists none.
pub open spec fn lists_children_in_order<Q, T>(nodes: Seq<NodeView<Q, T>>) -> bool {
    forall|j: int|
        0 <= j < nodes.len() ==> (#[trigger] nodes[j]).children == if position(
            nodes,
            nodes[j].node_id,
        ) == j {
            naming(nodes, nodes[j].node_id)
        } else {
            Seq::empty()
        }
}

/// Two sequences of nodes hold the same ids and values in the same order:
/// this is what `==` asks of two trees.
pub open spec fn same_entries<Q, T>(a: Seq<NodeView<Q, T>>, b: Seq<NodeView<Q, T>>) -> bool {
    &&& a.len() == b.len()
    &&& forall|i: int|
        0 <= i < a.len() ==> (#[trigger] a[i]).node_id == b[i].node_id && a[i].value == b[i].value
}

/// A tree that was written in the full form and read back is the tree that
/// was written.
pub proof fn lemma_round_trip_full<Q, T>(tree: TreeView<Q, T>)
    ensures
        restored_tree(written_tree(tree, RecordForm::Full), RecordForm::Full) == tree,
{
    let back = restored(written(tree.nodes, RecordForm::Full), RecordForm::Full);
    assert(back =~= tree.nodes);
}

/// A tree that was written in the compact form and read back has the name,
/// and in the same order the ids, the values and the parents, of the tree
/// that was written: the two are equal as `==` has it. It is that tree
/// where the tree lists the children of each node in the order in which
/// they stand in the tree.
pub proof fn lemma_round_trip_compact<Q, T>(tree: TreeView<Q, T>)
    ensures
        ({
            let back = restored_tree(written_tree(tree, RecordForm::Compact), RecordForm::Compact);
            &&& back.name == tree.name
            &&& same_entries(back.nodes, tree.nodes)
            &&& forall|i: int|
                0 <= i < tree.nodes.len() ==> (#[trigger] back.nodes[i]).parent
                    == tree.nodes[i].parent
            &&& lists_children_in_order(back.nodes)
            &&& lists_children_in_order(tree.nodes) ==> back == tree
        }),
{
    let nodes = tree.nodes;
    let plain = read_all(written(nodes, RecordForm::Compact), RecordForm::Compact);
    let back = linked(plain, plain.len() as int);
    assert(back == restored(written(nodes, RecordForm::Compact), RecordForm::Compact));
    assert(plain.take(plain.len() as int) =~= plain);
    assert forall|j: int| 0 <= j < nodes.len() implies (#[trigger] back[j]).node_id
        == nodes[j].node_id && back[j].value == nodes[j].value && back[j].parent == nodes[j].parent
        && back[j].children == (if position(nodes, nodes[j].node_id) == j {
        naming(nodes, nodes[j].node_id)
    } else {
        Seq::empty()
    }) && position(back, back[j].node_id) == position(nodes, nodes[j].node_id) && naming(
        back,
        back[j].node_id,
    ) == naming(nodes, nodes[j].node_id) by {
        lemma_position_same_ids(plain, nodes, nodes[j].node_id);
        lemma_position_same_ids(back, nodes, nodes[j].node_id);
        lemma_naming_same_links(plain, nodes, nodes[j].node_id);
        lemma_naming_same_links(back, nodes, nodes[j].node_id);
        assert(plain[j].children =~= Seq::<Q>::empty());
        assert(Seq::<Q>::empty() + naming(nodes, nodes[j].node_id) =~= naming(
            nodes,
            nodes[j].node_id,
        ));
    }
    if lists_children_in_order(nodes) {
        assert(back =~= nodes);
    }
}

/// Where no node names `id` as its parent, `naming` is empty.
proof fn lemma_naming_none<Q, T>(nodes: Seq<NodeView<Q, T>>, id: Q)
    requires
        forall|i: int| 0 <= i < nodes.len() ==> (#[trigger] nodes[i]).parent != Some(id),
    ensures
        naming(nodes, id) == Seq::<Q>::empty(),
    decreases nodes.len(),
{
    if nodes.len() > 0 {
        assert(nodes[nodes.len() - 1].parent != Some(id));
        assert forall|i: int| 0 <= i < nodes.drop_last().len() implies (
        #[trigger] nodes.drop_last()[i]).parent != Some(id) by {
            assert(nodes[i].parent != Some(id));
        }
        lemma_naming_none(nodes.drop_last(), id);
    }
}

/// A tree that lists the children of each node in the order in which they
/// stand in the tree still does so after a fresh node with a new id was
/// added to it: a tree that was built by adding such nodes, one by one,
/// is the tree that its compact record stands for.
pub proof fn lemma_with_node_lists_children_in_order<Q, T>(
    nodes: Seq<NodeView<Q, T>>,
    node: NodeView<Q, T>,
    parent: Option<Q>,
)
    requires
        well_formed(nodes),
        lists_children_in_order(nodes),
        is_fresh(node),
        !has_id(nodes, node.node_id),
        match parent {
            Some(p) => has_id(nodes, p),
            None => !has_root(nodes),
        },
    ensures
        lists_children_in_order(with_node(nodes, node, parent)),
{
    let after = with_node(nodes, node, parent);
    let n = nodes.len() as int;
    lemma_with_node_well_formed(nodes, node, parent);
    assert forall|i: int| 0 <= i < nodes.len() implies (#[trigger] nodes[i]).parent != Some(
        node.node_id,
    ) by {
        if nodes[i].parent == Some(node.node_id) {
            lemma_parent(nodes, i);
        }
    }
    lemma_naming_none(nodes, node.node_id);
    match parent {
        None => {
            if n > 0 {
                lemma_root_is_first(nodes);
            }
            assert(after =~= seq![node]);
            assert(after.drop_last() =~= Seq::<NodeView<Q, T>>::empty());
            assert forall|j: int| 0 <= j < after.len() implies (#[trigger] after[j]).children
                == if position(after, after[j].node_id) == j {
                naming(after, after[j].node_id)
            } else {
                Seq::empty()
            } by {
                lemma_node(after, j);
                assert(after[j].children =~= Seq::<Q>::empty());
                assert(after.last().parent is None);
                assert(naming(after.drop_last(), node.node_id) =~= Seq::<Q>::empty());
                assert(naming(after, node.node_id) == naming(after.drop_last(), node.node_id));
            }
        },
        Some(p) => {
            let at = position(nodes, p);
            lemma_position(nodes, p);
            let grown = nodes.update(
                at,
                NodeView { children: nodes[at].children.push(node.node_id), ..nodes[at] },
            );
            let added = NodeView { parent: Some(p), ..node };
            assert(after == grown.push(added));
            assert(after.drop_last() =~= grown);
            assert(after.last() == added);
            assert forall|j: int| 0 <= j < after.len() implies (#[trigger] after[j]).children
                == if position(after, after[j].node_id) == j {
                naming(after, after[j].node_id)
            } else {
                Seq::empty()
            } by {
                lemma_node(after, j);
                let id = after[j].node_id;
                lemma_naming_same_links(grown, nodes, id);
                assert(naming(after, id) == if Some(p) == Some(id) {
                    naming(grown, id).push(node.node_id)
                } else {
                    naming(grown, id)
                });
                if j < n {
                    lemma_node(nodes, j);
                    lemma_node(nodes, at);
                    assert(after[j] == grown[j]);
                    assert(id == nodes[j].node_id);
                    assert(nodes[j].children == naming(nodes, id));
                    if j == at {
                        assert(id == p);
                    } else {
                        assert(id != p);
                        assert(after[j].children == nodes[j].children);
                    }
                } else {
                    assert(after[j] == added);
                    assert(id == node.node_id);
                    assert(id != p);
                    assert(after[j].children =~= Seq::<Q>::empty());
                }
            }
        },
    }
}

} // verus!
