//! Nodes, the handles that address them, and the store that holds them.
//!
//! A graph is a flat store of nodes. A node refers to its children by
//! [`Pointer`], a handle that is either empty or names a slot of the store.
//! Two handles denote the same node exactly when they name the same slot, so
//! a node may be the child of several parents, of one of its own descendants,
//! or of itself.

use vstd::prelude::*;

verus! {

/// A handle to a node of a [`NodeGraph`]: empty, or the slot of the node.
#[derive(Clone, Copy, Debug, PartialEq, Eq, Structural)]
pub struct Pointer(pub Option<usize>);

/// A node: its identity and its two child links.
#[derive(Clone, Copy, Debug, PartialEq, Eq, Structural)]
pub struct Node {
    pub val: i128,
    pub left: Pointer,
    pub right: Pointer,
}

/// The store of nodes. Slots are handed out in order and never reused.
#[derive(Debug)]
pub struct NodeGraph {
    nodes: Vec<Node>,
}

impl View for NodeGraph {
    type V = Seq<Node>;

    closed spec fn view(&self) -> Seq<Node> {
        self.nodes@
    }
}

/// `p` is empty or names one of the first `len` slots.
pub open spec fn in_range(p: Pointer, len: nat) -> bool {
    p.0 matches Some(slot) ==> slot < len
}

/// Every child link of every node stays inside `nodes`.
pub open spec fn links_in_range(nodes: Seq<Node>) -> bool {
    forall|i: int|
        0 <= i < nodes.len() ==> in_range(#[trigger] nodes[i].left, nodes.len()) && in_range(
            nodes[i].right,
            nodes.len(),
        )
}

impl NodeGraph {
    /// `p` is empty or names a node of this graph.
    pub open spec fn holds(&self, p: Pointer) -> bool {
        in_range(p, self@.len())
    }

    /// Every child link names a node of this graph.
    pub open spec fn wf(&self) -> bool {
        links_in_range(self@)
    }

    /// A graph without nodes.
    pub fn new() -> (graph: NodeGraph)
        ensures
            graph@ == Seq::<Node>::empty(),
            graph.wf(),
    {
        NodeGraph { nodes: Vec::new() }
    }

    /// The number of nodes.
    pub fn len(&self) -> (n: usize)
        ensures
            n == self@.len(),
    {
        self.nodes.len()
    }
}

impl Pointer {
    /// Stores `d` in a fresh slot of `graph` and returns the handle to it.
    pub fn new(graph: &mut NodeGraph, d: Node) -> (p: Pointer)
        ensures
            final(graph)@ == old(graph)@.push(d),
            p == Pointer(Some(old(graph)@.len() as usize)),
    {
        let slot: usize = graph.nodes.len();
        graph.nodes.push(d);
        Pointer(Some(slot))
    }

    /// The node that this handle names.
    pub fn as_ref<'a>(&self, graph: &'a NodeGraph) -> (node: &'a Node)
        requires
            self.0 is Some,
            graph.holds(*self),
        ensures
            *node == graph@[self.0->0 as int],
    {
        let slot: usize = self.0.unwrap();
        &graph.nodes[slot]
    }

    /// The node that this handle names, for writing.
    pub fn as_mut_ref<'a>(&self, graph: &'a mut NodeGraph) -> (node: &'a mut Node)
        requires
            self.0 is Some,
            old(graph).holds(*self),
        ensures
            *node == old(graph)@[self.0->0 as int],
            final(graph)@ == old(graph)@.update(self.0->0 as int, *final(node)),
    {
        let slot: usize = self.0.unwrap();
        &mut graph.nodes[slot]
    }

    /// Whether both handles name the same node.
    pub fn is_clone_of(&self, other: &Pointer) -> (same: bool)
        requires
            self.0 is Some,
            other.0 is Some,
        ensures
            same == (self.0->0 == other.0->0),
    {
        self.0.unwrap() == other.0.unwrap()
    }

    /// Whether the handle is empty.
    pub fn is_none(&self) -> (none: bool)
        ensures
            none == (self.0 is None),
    {
        self.0.is_none()
    }
}

impl Node {
    /// A node with the given identity and no children.
    pub fn new(val: i128) -> (node: Node)
        ensures
            node == (Node { val, left: Pointer(None), right: Pointer(None) }),
    {
        Node { val, left: Pointer(None), right: Pointer(None) }
    }
}

} // verus!
