//! The diagram model: nodes, directed edges and nested groups.
//!
//! Every type has a view over `Seq<char>` texts. The groups of a diagram form
//! a forest that is stored as an arena: `Diagram::subgraphs` holds one record
//! per group, in declaration order, and the records name their parent and
//! their children by index.

use vstd::prelude::*;
use crate::text::texts;

verus! {

/// The direction in which the levels of a diagram run.
#[derive(Clone, Copy, Debug, PartialEq, Eq, Structural)]
pub enum Direction {
    TopDown,
    BottomTop,
    LeftRight,
    RightLeft,
}

/// The outline of a node.
#[derive(Clone, Copy, Debug, PartialEq, Eq, Structural)]
pub enum NodeShape {
    Rectangle,
    Stadium,
    Circle,
    Diamond,
}

/// The line style of an edge.
#[derive(Clone, Copy, Debug, PartialEq, Eq, Structural)]
pub enum EdgeKind {
    Solid,
    Dashed,
}

/// A node: its label and its shape. Its id is held by `Diagram::order`.
#[derive(Clone, Debug)]
pub struct Node {
    pub label: String,
    pub shape: NodeShape,
}

/// A directed edge between two nodes, named by their ids.
#[derive(Clone, Debug)]
pub struct Edge {
    pub from: String,
    pub to: String,
    pub label: Option<String>,
    pub kind: EdgeKind,
}

/// A group of nodes. `nodes` holds the ids declared directly inside it,
/// `children` and `parent` are indices into `Diagram::subgraphs`.
#[derive(Clone, Debug)]
pub struct Subgraph {
    pub id: String,
    pub label: String,
    pub nodes: Vec<String>,
    pub children: Vec<usize>,
    pub parent: Option<usize>,
    pub order: usize,
}

/// A diagram. Node `i` has the id `order[i]`, the definition `nodes[i]` and
/// lies inside the groups `node_membership[i]`, outermost first.
#[derive(Clone, Debug)]
pub struct Diagram {
    pub direction: Direction,
    pub nodes: Vec<Node>,
    pub order: Vec<String>,
    pub edges: Vec<Edge>,
    pub subgraphs: Vec<Subgraph>,
    pub node_membership: Vec<Vec<String>>,
}

/// The view of a node: its label as a text, and its shape.
pub struct NodeView {
    pub label: Seq<char>,
    pub shape: NodeShape,
}

/// The view of an edge: its ends and its label as texts, and its kind.
pub struct EdgeView {
    pub from: Seq<char>,
    pub to: Seq<char>,
    pub label: Option<Seq<char>>,
    pub kind: EdgeKind,
}

/// The view of a group: its id, its label and the ids of its nodes as texts,
/// and its links into the arena.
pub struct SubgraphView {
    pub id: Seq<char>,
    pub label: Seq<char>,
    pub nodes: Seq<Seq<char>>,
    pub children: Seq<usize>,
    pub parent: Option<usize>,
    pub order: usize,
}

/// The view of a diagram: the views of its parts, in their order.
pub struct DiagramView {
    pub direction: Direction,
    pub nodes: Seq<NodeView>,
    pub order: Seq<Seq<char>>,
    pub edges: Seq<EdgeView>,
    pub subgraphs: Seq<SubgraphView>,
    pub node_membership: Seq<Seq<Seq<char>>>,
}

impl View for Node {
    type V = NodeView;

    open spec fn view(&self) -> NodeView {
        NodeView { label: self.label@, shape: self.shape }
    }
}

/// The text that an optional string holds.
pub open spec fn opt_text(s: Option<String>) -> Option<Seq<char>> {
    match s {
        Some(t) => Some(t@),
        None => None,
    }
}

impl View for Edge {
    type V = EdgeView;

    open spec fn view(&self) -> EdgeView {
        EdgeView { from: self.from@, to: self.to@, label: opt_text(self.label), kind: self.kind }
    }
}

impl View for Subgraph {
    type V = SubgraphView;

    open spec fn view(&self) -> SubgraphView {
        SubgraphView {
            id: self.id@,
            label: self.label@,
            nodes: texts(self.nodes@),
            children: self.children@,
            parent: self.parent,
            order: self.order,
        }
    }
}

/// The views of the nodes `v`.
pub open spec fn node_views(v: Seq<Node>) -> Seq<NodeView> {
    Seq::new(v.len(), |i: int| v[i]@)
}

/// The views of the edges `v`.
pub open spec fn edge_views(v: Seq<Edge>) -> Seq<EdgeView> {
    Seq::new(v.len(), |i: int| v[i]@)
}

/// The views of the groups `v`.
pub open spec fn subgraph_views(v: Seq<Subgraph>) -> Seq<SubgraphView> {
    Seq::new(v.len(), |i: int| v[i]@)
}

/// The membership paths `v`, as texts.
pub open spec fn path_views(v: Seq<Vec<String>>) -> Seq<Seq<Seq<char>>> {
    Seq::new(v.len(), |i: int| texts(v[i]@))
}

impl View for Diagram {
    type V = DiagramView;

    open spec fn view(&self) -> DiagramView {
        DiagramView {
            direction: self.direction,
            nodes: node_views(self.nodes@),
            order: texts(self.order@),
            edges: edge_views(self.edges@),
            subgraphs: subgraph_views(self.subgraphs@),
            node_membership: path_views(self.node_membership@),
        }
    }
}

/// Whether no element of `s` occurs twice.
pub open spec fn distinct(s: Seq<Seq<char>>) -> bool {
    forall|i: int, j: int| 0 <= i < j < s.len() ==> s[i] != s[j]
}

/// The ids of the groups of `subgraphs`, in arena order.
pub open spec fn subgraph_ids(subgraphs: Seq<SubgraphView>) -> Seq<Seq<char>> {
    Seq::new(subgraphs.len(), |i: int| subgraphs[i].id)
}

impl DiagramView {
    /// The validity of the structure of a diagram: one definition and one
    /// membership path per id; no id twice; every edge joins declared nodes;
    /// group ids are unique; the arena's parent and child links agree,
    /// parents come before their children, and `order` grows along the
    /// arena; the nodes listed in a group are declared, and none is listed
    /// twice, in one group or in two.
    pub open spec fn wf(self) -> bool {
        &&& self.nodes.len() == self.order.len()
        &&& self.node_membership.len() == self.order.len()
        &&& distinct(self.order)
        &&& forall|e: int|
            0 <= e < self.edges.len() ==> self.order.contains(#[trigger] self.edges[e].from)
                && self.order.contains(self.edges[e].to)
        &&& distinct(subgraph_ids(self.subgraphs))
        &&& forall|s: int|
            0 <= s < self.subgraphs.len() ==> self.subgraph_wf(s)
        &&& forall|s: int, k: int|
            0 <= s < self.subgraphs.len() && 0 <= k < self.subgraphs[s].nodes.len()
                ==> self.order.contains(#[trigger] self.subgraphs[s].nodes[k])
        &&& forall|s: int, k: int, t: int, l: int|
            0 <= s < self.subgraphs.len() && 0 <= k < self.subgraphs[s].nodes.len() && 0 <= t
                < self.subgraphs.len() && 0 <= l < self.subgraphs[t].nodes.len()
                && #[trigger] self.subgraphs[s].nodes[k] == #[trigger] self.subgraphs[t].nodes[l]
                ==> s == t && k == l
    }

    /// The validity of the arena record `s`.
    pub open spec fn subgraph_wf(self, s: int) -> bool {
        let g = self.subgraphs[s];
        &&& match g.parent {
            Some(p) => p < s && self.subgraphs[p as int].children.contains(s as usize),
            None => true,
        }
        &&& forall|k: int|
            0 <= k < g.children.len() ==> s < #[trigger] g.children[k] < self.subgraphs.len()
                && self.subgraphs[g.children[k] as int].parent == Some(s as usize)
        &&& forall|k: int, l: int|
            0 <= k < l < g.children.len() ==> g.children[k] < g.children[l]
        &&& forall|t: int| 0 <= t < s ==> (#[trigger] self.subgraphs[t]).order < g.order
    }
}

impl Diagram {
    /// The validity of the structure of a diagram: that of its view.
    pub open spec fn wf(&self) -> bool {
        self@.wf()
    }

    /// The full validity of a diagram: that of its view.
    pub open spec fn valid(&self) -> bool {
        self@.valid()
    }

    /// The view of a diagram holds, place by place, the views of its parts.
    pub proof fn lemma_view_parts(&self)
        ensures
            self@.order.len() == self.order@.len(),
            self@.nodes.len() == self.nodes@.len(),
            self@.edges.len() == self.edges@.len(),
            self@.subgraphs.len() == self.subgraphs@.len(),
            self@.node_membership.len() == self.node_membership@.len(),
            forall|i: int| 0 <= i < self.order@.len() ==> #[trigger] self@.order[i] == self.order@[i]@,
            forall|i: int| 0 <= i < self.nodes@.len() ==> #[trigger] self@.nodes[i] == self.nodes@[i]@,
            forall|i: int| 0 <= i < self.edges@.len() ==> #[trigger] self@.edges[i] == self.edges@[i]@,
            forall|i: int|
                0 <= i < self.subgraphs@.len() ==> #[trigger] self@.subgraphs[i]
                    == self.subgraphs@[i]@,
            forall|i: int|
                0 <= i < self.subgraphs@.len() ==> (#[trigger] self.subgraphs@[i]@).nodes.len()
                    == self.subgraphs@[i].nodes@.len(),
    {
    }
}

} // verus!
