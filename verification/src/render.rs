//! Nodes and trees as text: one line per node, children indented under
//! their parent and joined to it by branch lines.

use crate::error::{formatting_failure, Error};
use crate::model::{has_root, lemma_child, position, root_position};
use crate::node::{id_like, Node, NodeView, Nodes};
use crate::tree::{shown_as, Tree};
use std::fmt::Display;
use std::string::ToString;
use vstd::laws_eq::obeys_concrete_eq;
use vstd::prelude::*;

verus! {

/// What the line of a node shows.
#[derive(Clone, Copy, Debug)]
pub enum NodeLabel {
    /// The id of the node, a colon and a space, and its value.
    IdAndValue,
    /// The value of the node alone.
    Value,
}

/// `text` is what `value` displays as; where there is no value, what the
/// default value displays as.
pub open spec fn shows_value<T: Display + Default>(value: Option<T>, text: Seq<char>) -> bool {
    match value {
        Some(v) => shown_as(v, text),
        None => exists|d: T| call_ensures(T::default, (), d) && #[trigger] shown_as(d, text),
    }
}

/// `text` is a label of `node` in the given style.
pub open spec fn is_label<Q: Display, T: Display + Default>(
    node: NodeView<Q, T>,
    style: NodeLabel,
    text: Seq<char>,
) -> bool {
    match style {
        NodeLabel::Value => shows_value(node.value, text),
        NodeLabel::IdAndValue => exists|id: Seq<char>, value: Seq<char>|
            #![trigger shown_as(node.node_id, id), shows_value(node.value, value)]
            shown_as(node.node_id, id) && shows_value(node.value, value) && text == id + ": "@
                + value,
    }
}

/// The views of `labels`, in the same order.
pub open spec fn texts(labels: Seq<String>) -> Seq<Seq<char>> {
    Seq::new(labels.len(), |i: int| labels[i]@)
}

/// `n` asterisks.
pub open spec fn stars(n: nat) -> Seq<char> {
    Seq::new(n, |i: int| '*')
}

/// The two lines that stand above a named tree: the name, and as many
/// asterisks as the name has characters. Nothing for a tree without name.
pub open spec fn heading(name: Option<Seq<char>>) -> Seq<char> {
    match name {
        Some(name) => name + "\n"@ + stars(name.len()) + "\n"@,
        None => Seq::empty(),
    }
}

/// Whether the node at position `i` has the id of the root.
pub open spec fn is_top<Q, T>(nodes: Seq<NodeView<Q, T>>, i: int) -> bool {
    has_root(nodes) && nodes[root_position(nodes)].node_id == nodes[i].node_id
}

/// What joins the line of a node to the lines above it.
pub open spec fn branch(last: bool, top: bool) -> Seq<char> {
    if last {
        if top {
            Seq::empty()
        } else {
            "└── "@
        }
    } else {
        "├── "@
    }
}

/// What the lines under a node have in front, after what the line of the
/// node has in front.
pub open spec fn indent(last: bool, top: bool) -> Seq<char> {
    if last {
        if top {
            Seq::empty()
        } else {
            "    "@
        }
    } else {
        "│   "@
    }
}

/// The lines of the node at position `i` and of its descendants: the line
/// of the node, which is `prefix`, the branch and the label of the node,
/// and then the lines of its children, in their order.
pub open spec fn outline<Q, T>(
    nodes: Seq<NodeView<Q, T>>,
    labels: Seq<Seq<char>>,
    i: int,
    prefix: Seq<char>,
    last: bool,
) -> Seq<char>
    decreases nodes.len() - i, 1int, 0int,
{
    if 0 <= i < nodes.len() && i < labels.len() {
        let top = is_top(nodes, i);
        prefix + branch(last, top) + labels[i] + "\n"@ + outline_below(
            nodes,
            labels,
            i,
            prefix + indent(last, top),
            nodes[i].children.len() as int,
        )
    } else {
        Seq::empty()
    }
}

/// The lines of the first `k` children of the node at position `i` and of
/// their descendants.
pub open spec fn outline_below<Q, T>(
    nodes: Seq<NodeView<Q, T>>,
    labels: Seq<Seq<char>>,
    i: int,
    prefix: Seq<char>,
    k: int,
) -> Seq<char>
    decreases nodes.len() - i, 0int, k,
{
    if 0 <= i < nodes.len() && 0 < k <= nodes[i].children.len() {
        let j = position(nodes, nodes[i].children[k - 1]);
        let before = outline_below(nodes, labels, i, prefix, k - 1);
        if i < j < nodes.len() {
            before + outline(nodes, labels, j, prefix, k == nodes[i].children.len())
        } else {
            before
        }
    } else {
        Seq::empty()
    }
}

/// What `value` displays as, or the default value where there is none.
fn value_label<T: Display + Default>(value: &Option<T>) -> (text: String)
    ensures
        shows_value(*value, text@),
{
    match value {
        Some(v) => {
            let text = v.to_string();
            assert(crate::tree::shown(*v, text));
            text
        },
        None => {
            let d = T::default();
            let text = d.to_string();
            assert(crate::tree::shown(d, text));
            assert(shown_as(d, text@));
            text
        },
    }
}

impl<Q, T> Node<Q, T> where
    Q: PartialEq + Eq + Clone + Display,
    T: PartialEq + Eq + Clone + Display + Default,
 {
    /// The label of the node in the given style.
    pub fn label(&self, style: NodeLabel) -> (text: String)
        ensures
            is_label(self@, style, text@),
    {
        let value = value_label(self.value_ref());
        match style {
            NodeLabel::Value => value,
            NodeLabel::IdAndValue => {
                let id = self.id_ref().to_string();
                assert(crate::tree::shown(self@.node_id, id));
                assert(shown_as(self@.node_id, id@));
                let text = id.clone().concat(": ").concat(value.as_str());
                assert(text@ == id@ + ": "@ + value@);
                text
            },
        }
    }

    /// The node as text: its id, a colon and a space, and its value.
    pub fn to_string(&self) -> (text: String)
        ensures
            is_label(self@, NodeLabel::IdAndValue, text@),
    {
        self.label(NodeLabel::IdAndValue)
    }
}

impl<Q, T> Nodes<Q, T> where
    Q: PartialEq + Eq + Clone + Display,
    T: PartialEq + Eq + Clone + Display + Default,
 {
    /// The labels of the nodes in the given style, in the order of the
    /// nodes.
    pub fn labels(&self, style: NodeLabel) -> (labels: Vec<String>)
        ensures
            labels@.len() == self@.len(),
            forall|i: int|
                0 <= i < self@.len() ==> is_label(self@[i], style, (#[trigger] labels@[i])@),
    {
        let mut labels: Vec<String> = Vec::new();
        let mut i: usize = 0;
        while i < self.len()
            invariant
                i <= self@.len(),
                labels@.len() == i,
                forall|j: int| 0 <= j < i ==> is_label(self@[j], style, (#[trigger] labels@[j])@),
            decreases self@.len() - i,
        {
            labels.push(self.at(i).label(style));
            i = i + 1;
        }
        labels
    }

    /// The nodes as text: the label of each node with its id, one after
    /// the other.
    pub fn to_string(&self) -> (text: String)
        ensures
            exists|labels: Seq<String>|
                {
                    &&& labels.len() == self@.len()
                    &&& forall|i: int|
                        0 <= i < self@.len() ==> is_label(
                            self@[i],
                            NodeLabel::IdAndValue,
                            (#[trigger] labels[i])@,
                        )
                    &&& text@ == texts(labels).flatten()
                },
    {
        let labels = self.labels(NodeLabel::IdAndValue);
        join(&labels)
    }
}

/// The texts of `labels`, one after the other.
pub fn join(labels: &Vec<String>) -> (text: String)
    ensures
        text@ == texts(labels@).flatten(),
{
    let mut text = String::new();
    let mut i: usize = 0;
    assert(texts(labels@).take(0) =~= Seq::<Seq<char>>::empty());
    while i < labels.len()
        invariant
            i <= labels.len(),
            text@ == texts(labels@).take(i as int).flatten(),
        decreases labels.len() - i,
    {
        proof {
            let done = texts(labels@).take(i as int);
            done.lemma_flatten_push(labels@[i as int]@);
            assert(texts(labels@).take(i + 1) =~= done.push(labels@[i as int]@));
        }
        text.append(labels[i].as_str());
        i = i + 1;
    }
    assert(texts(labels@).take(labels@.len() as int) =~= texts(labels@));
    text
}

impl<Q, T> Tree<Q, T> where Q: PartialEq + Eq + Clone + Display, T: PartialEq + Eq + Clone {
    /// Append to `out` the lines of the node at position `at` and of its
    /// descendants.
    fn print_sub_tree(
        &self,
        out: &mut String,
        labels: &Vec<String>,
        at: usize,
        parent_prefix: String,
        is_last_child: bool,
    )
        requires
            id_like::<Q>(),
            self.wf(),
            at < self@.nodes.len(),
            labels@.len() == self@.nodes.len(),
        ensures
            final(out)@ == old(out)@ + outline(
                self@.nodes,
                texts(labels@),
                at as int,
                parent_prefix@,
                is_last_child,
            ),
        decreases self@.nodes.len() - at,
    {
        let nodes = self.get_nodes();
        let node = nodes.at(at);
        let top = match nodes.find_root() {
            Some(root) => {
                proof {
                    reveal(obeys_concrete_eq);
                }
                *nodes.at(root).id_ref() == *node.id_ref()
            },
            None => false,
        };
        let mut prefix = parent_prefix.clone();
        out.append(parent_prefix.as_str());
        if is_last_child {
            if !top {
                out.append("└── ");
                prefix.append("    ");
            }
        } else {
            out.append("├── ");
            prefix.append("│   ");
        }
        out.append(labels[at].as_str());
        out.append("\n");
        let ghost head = out@;
        let children = node.children_ref();
        let mut k: usize = 0;
        proof {
            assert(head =~= old(out)@ + (parent_prefix@ + branch(is_last_child, top)
                + labels@[at as int]@ + "\n"@));
            assert(prefix@ =~= parent_prefix@ + indent(is_last_child, top));
            assert(head + outline_below(self@.nodes, texts(labels@), at as int, prefix@, 0)
                =~= head);
        }
        while k < children.len()
            invariant
                id_like::<Q>(),
                self.wf(),
                at < self@.nodes.len(),
                labels@.len() == self@.nodes.len(),
                nodes@ == self@.nodes,
                children@ == self@.nodes[at as int].children,
                k <= children.len(),
                out@ == head + outline_below(
                    self@.nodes,
                    texts(labels@),
                    at as int,
                    prefix@,
                    k as int,
                ),
            decreases children.len() - k,
        {
            proof {
                lemma_child(self@.nodes, at as int, k as int);
            }
            let child = match nodes.find(&children[k]) {
                Some(child) => child,
                None => unreached(),
            };
            let ghost so_far = out@;
            self.print_sub_tree(out, labels, child, prefix.clone(), k == children.len() - 1);
            proof {
                let below = outline(
                    self@.nodes,
                    texts(labels@),
                    child as int,
                    prefix@,
                    k + 1 == children@.len(),
                );
                assert(out@ == so_far + below);
                assert(head + (outline_below(
                    self@.nodes,
                    texts(labels@),
                    at as int,
                    prefix@,
                    k as int,
                ) + below) =~= so_far + below);
            }
            k = k + 1;
        }
        proof {
            let below = outline_below(
                self@.nodes,
                texts(labels@),
                at as int,
                prefix@,
                children@.len() as int,
            );
            assert(old(out)@ + (parent_prefix@ + branch(is_last_child, top) + labels@[at as int]@
                + "\n"@ + below) =~= head + below);
        }
    }

    /// The lines of the tree, from the root down, with `labels[i]` as
    /// the label of the `i`-th node.
    ///
    /// Fails with `FmtError` where the tree has no root.
    pub fn print_tree(&self, labels: &Vec<String>) -> (result: Result<String, Error>)
        requires
            id_like::<Q>(),
            self.wf(),
            labels@.len() == self@.nodes.len(),
        ensures
            match result {
                Ok(text) => has_root(self@.nodes) && text@ == outline(
                    self@.nodes,
                    texts(labels@),
                    root_position(self@.nodes),
                    Seq::empty(),
                    true,
                ),
                Err(Error::FmtError(_)) => !has_root(self@.nodes),
                Err(_) => false,
            },
    {
        match self.get_nodes().find_root() {
            Some(root) => {
                let mut out = String::new();
                self.print_sub_tree(&mut out, labels, root, String::new(), true);
                assert(Seq::<char>::empty() + out@ =~= out@);
                Ok(out)
            },
            None => Err(Error::FmtError(formatting_failure())),
        }
    }

    /// The two lines above a named tree: see `heading`.
    fn print_heading(&self) -> (text: String)
        ensures
            text@ == heading(self@.name),
    {
        match self.get_name() {
            Some(name) => {
                let mut text = String::from_str(name);
                text.append("\n");
                let n = name.unicode_len();
                let mut i: usize = 0;
                let ghost start = text@;
                proof {
                    assert(start + stars(0) =~= start);
                    reveal_strlit("*");
                }
                while i < n
                    invariant
                        i <= n,
                        text@ == start + stars(i as nat),
                    decreases n - i,
                {
                    proof {
                        reveal_strlit("*");
                        assert("*"@ =~= seq!['*']);
                        assert(start + stars(i as nat) + "*"@ =~= start + stars((i + 1) as nat));
                    }
                    text.append("*");
                    i = i + 1;
                }
                text.append("\n");
                text
            },
            None => {
                let text = String::new();
                text
            },
        }
    }
}

impl<Q, T> Tree<Q, T> where
    Q: PartialEq + Eq + Clone + Display,
    T: PartialEq + Eq + Clone + Display + Default,
 {
    /// The tree as text, with the labels of its nodes in the given style:
    /// the heading of a named tree, then the lines of the tree.
    ///
    /// Fails with `FmtError` where the tree has no root.
    pub fn render(&self, style: NodeLabel) -> (result: Result<String, Error>)
        requires
            id_like::<Q>(),
            self.wf(),
        ensures
            match result {
                Ok(text) => has_root(self@.nodes) && self.is_rendering(style, text@),
                Err(Error::FmtError(_)) => !has_root(self@.nodes),
                Err(_) => false,
            },
    {
        let labels = self.get_nodes().labels(style);
        match self.print_tree(&labels) {
            Ok(lines) => {
                let mut text = self.print_heading();
                text.append(lines.as_str());
                assert(self.is_rendering_with(style, texts(labels@), text@));
                Ok(text)
            },
            Err(e) => Err(e),
        }
    }

    /// `text` is the tree as text with `labels` as the labels of its
    /// nodes, which are in the style `style`.
    pub open spec fn is_rendering_with(
        &self,
        style: NodeLabel,
        labels: Seq<Seq<char>>,
        text: Seq<char>,
    ) -> bool {
        &&& labels.len() == self@.nodes.len()
        &&& forall|i: int|
            0 <= i < labels.len() ==> is_label(self@.nodes[i], style, #[trigger] labels[i])
        &&& text == heading(self@.name) + outline(
            self@.nodes,
            labels,
            root_position(self@.nodes),
            Seq::empty(),
            true,
        )
    }

    /// `text` is the tree as text with labels in the style `style`.
    pub open spec fn is_rendering(&self, style: NodeLabel, text: Seq<char>) -> bool {
        exists|labels: Seq<Seq<char>>| self.is_rendering_with(style, labels, text)
    }

    /// The tree as text, each node with its id and its value.
    pub fn to_string(&self) -> (text: String)
        requires
            id_like::<Q>(),
            self.wf(),
            has_root(self@.nodes),
        ensures
            self.is_rendering(NodeLabel::IdAndValue, text@),
    {
        match self.render(NodeLabel::IdAndValue) {
            Ok(text) => text,
            Err(_) => unreached(),
        }
    }
}

} // verus!
