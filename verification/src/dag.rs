//! The graph with its root: how an edge list becomes a graph, and what is
//! measured on it.
//!
//! An edge list is resolved in three steps. Each identity that a declaration
//! gives a node gets one node, in the order in which the identities first
//! appear. The declarations are then taken from the last to the first, the
//! left child before the right: a child that is named must be declared
//! somewhere in the list, and is linked to the node; `-1` names no child and
//! leaves the link as it is. So of several declarations of one node, the
//! first that names a child on a side decides that side. Last, the node with
//! the identity of the root becomes the root. An edge list without
//! declarations gives the empty graph, which has no root.

use crate::loader::{
    line_views, parse_description, DagFileData, Description, EdgeDescription, LoadError, NO_CHILD,
};
use crate::node::{in_range, links_in_range, Node, NodeGraph, Pointer};
use crate::render::{lemma_rendering_depths, render_text, rendering, text_of, RenderLine};
use crate::stats::{Average, DAGStats, DAGStatsBuilder, DAGStatsData};
use crate::traverse::{
    summarize, too_deep, walk, TraversalDepthExceeded, DEFAULT_DEPTH_LIMIT, MAX_DEPTH_LIMIT,
};
use std::collections::HashMap;
use vstd::prelude::*;
use vstd::std_specs::hash::*;

verus! {

/// One of the two child links of a node.
#[derive(Clone, Copy, Debug, PartialEq, Eq, Structural)]
pub enum Side {
    Left,
    Right,
}

/// The nodes of a graph by slot, and the handle of its root.
pub ghost struct GraphView {
    pub nodes: Seq<Node>,
    pub root: Pointer,
}

/// A graph and its root.
#[derive(Debug)]
pub struct Dag {
    graph: NodeGraph,
    root: Pointer,
    depth_limit: usize,
}

impl View for Dag {
    type V = GraphView;

    closed spec fn view(&self) -> GraphView {
        GraphView { nodes: self.graph@, root: self.root }
    }
}

/// The child that the declaration `e` names on `side`.
pub open spec fn named_child(e: EdgeDescription, side: Side) -> i128 {
    match side {
        Side::Left => e.1,
        Side::Right => e.2,
    }
}

/// Whether one of `edges` declares the node `id`.
pub open spec fn declares(edges: Seq<EdgeDescription>, id: i128) -> bool {
    exists|i: int| 0 <= i < edges.len() && (#[trigger] edges[i]).0 == id
}

/// The identities that `edges` declare, each once, in the order in which
/// they first appear.
pub open spec fn declared_ids(edges: Seq<EdgeDescription>) -> Seq<i128>
    decreases edges.len(),
{
    if edges.len() == 0 {
        Seq::empty()
    } else if declared_ids(edges.drop_last()).contains(edges.last().0) {
        declared_ids(edges.drop_last())
    } else {
        declared_ids(edges.drop_last()).push(edges.last().0)
    }
}

/// The child of the node `id` on `side`: the one that the first declaration
/// of `id` with a child on that side names.
pub open spec fn link(edges: Seq<EdgeDescription>, id: i128, side: Side) -> Option<i128>
    decreases edges.len(),
{
    if edges.len() == 0 {
        None
    } else if edges[0].0 == id && named_child(edges[0], side) != NO_CHILD {
        Some(named_child(edges[0], side))
    } else {
        link(edges.drop_first(), id, side)
    }
}

/// The first child that `e` names and that none of `edges` declares, the left
/// before the right, with the node that names it.
pub open spec fn dangling_link(edges: Seq<EdgeDescription>, e: EdgeDescription) -> Option<
    (i128, i128),
> {
    if e.1 != NO_CHILD && !declares(edges, e.1) {
        Some((e.0, e.1))
    } else if e.2 != NO_CHILD && !declares(edges, e.2) {
        Some((e.0, e.2))
    } else {
        None
    }
}

/// The dangling link of the last among the first `upto` declarations that
/// has one.
pub open spec fn last_dangling(edges: Seq<EdgeDescription>, upto: int) -> Option<(i128, i128)>
    decreases upto,
{
    if upto <= 0 {
        None
    } else {
        match dangling_link(edges, edges[upto - 1]) {
            Some(found) => Some(found),
            None => last_dangling(edges, upto - 1),
        }
    }
}

/// A slot at which `ids` holds `id`.
pub open spec fn slot_of(ids: Seq<i128>, id: i128) -> int {
    choose|s: int| 0 <= s < ids.len() && ids[s] == id
}

/// The handle for the child `child` in a graph whose slots hold `ids`.
pub open spec fn link_pointer(ids: Seq<i128>, child: Option<i128>) -> Pointer {
    match child {
        Some(c) => Pointer(Some(slot_of(ids, c) as usize)),
        None => Pointer(None),
    }
}

/// The nodes that `edges` describe: one for each declared identity, in the
/// order of [`declared_ids`], with its links.
pub open spec fn resolved_nodes(edges: Seq<EdgeDescription>) -> Seq<Node> {
    let ids = declared_ids(edges);
    Seq::new(
        ids.len(),
        |s: int|
            Node {
                val: ids[s],
                left: link_pointer(ids, link(edges, ids[s], Side::Left)),
                right: link_pointer(ids, link(edges, ids[s], Side::Right)),
            },
    )
}

/// The graph that the edge list `d` describes, or the reason why it
/// describes none.
pub open spec fn resolve(d: Description) -> Result<GraphView, LoadError> {
    match last_dangling(d.nodes, d.nodes.len() as int) {
        Some((from_id, missing_id)) => Err(
            LoadError::UnresolvedReferenceError { from_id, missing_id },
        ),
        None => if d.nodes.len() == 0 {
            Ok(GraphView { nodes: Seq::empty(), root: Pointer(None) })
        } else if !declares(d.nodes, d.num_nodes) {
            Err(LoadError::MissingRootError)
        } else {
            Ok(
                GraphView {
                    nodes: resolved_nodes(d.nodes),
                    root: Pointer(Some(slot_of(declared_ids(d.nodes), d.num_nodes) as usize)),
                },
            )
        },
    }
}

/// The graph that the lines `texts` describe, or the reason why they
/// describe none.
pub open spec fn load(texts: Seq<Seq<char>>) -> Result<GraphView, LoadError> {
    match parse_description(texts) {
        Ok(d) => resolve(d),
        Err(e) => Err(e),
    }
}

/// The declared identities are those of the declarations, and none of them
/// comes twice.
pub proof fn lemma_declared_ids(edges: Seq<EdgeDescription>)
    ensures
        forall|id: i128| declared_ids(edges).contains(id) <==> declares(edges, id),
        declared_ids(edges).no_duplicates(),
        declared_ids(edges).len() <= edges.len(),
    decreases edges.len(),
{
    let ids = declared_ids(edges);
    if edges.len() > 0 {
        let init = edges.drop_last();
        let last = edges.last().0;
        lemma_declared_ids(init);
        assert forall|id: i128| ids.contains(id) <==> declares(edges, id) by {
            if ids.contains(id) {
                if declared_ids(init).contains(id) {
                    assert(declares(init, id));
                    let i = choose|i: int| 0 <= i < init.len() && (#[trigger] init[i]).0 == id;
                    assert(edges[i].0 == id);
                } else {
                    let k = choose|k: int| 0 <= k < ids.len() && ids[k] == id;
                    assert(id == last);
                    assert(edges[edges.len() - 1].0 == id);
                }
            }
            if declares(edges, id) {
                let i = choose|i: int| 0 <= i < edges.len() && (#[trigger] edges[i]).0 == id;
                if i < init.len() {
                    assert(init[i].0 == id);
                    assert(declares(init, id));
                    assert(declared_ids(init).contains(id));
                    let k = choose|k: int|
                        0 <= k < declared_ids(init).len() && declared_ids(init)[k] == id;
                    assert(ids[k] == id);
                } else {
                    assert(id == last);
                    if !declared_ids(init).contains(last) {
                        assert(ids[ids.len() - 1] == last);
                    }
                }
            }
        }
    } else {
        assert forall|id: i128| ids.contains(id) <==> declares(edges, id) by {}
    }
}

/// Giving one node links that stay inside the graph keeps all links inside.
proof fn lemma_relink(before: Seq<Node>, after: Seq<Node>, slot: int)
    requires
        links_in_range(before),
        0 <= slot < before.len(),
        after == before.update(slot, after[slot]),
        in_range(after[slot].left, before.len()),
        in_range(after[slot].right, before.len()),
    ensures
        links_in_range(after),
{
    assert forall|s: int| 0 <= s < after.len() implies in_range(
        #[trigger] after[s].left,
        after.len(),
    ) && in_range(after[s].right, after.len()) by {
        if s != slot {
            assert(after[s] == before[s]);
            assert(in_range(before[s].left, before.len()));
        }
    }
}

impl Dag {
    /// The depth limit of the walks over this graph.
    pub closed spec fn limit(&self) -> usize {
        self.depth_limit
    }

    /// The links stay inside the graph, only the empty graph is without a
    /// root, and the depth limit is one that a walk accepts.
    pub open spec fn wf(&self) -> bool {
        &&& links_in_range(self@.nodes)
        &&& in_range(self@.root, self@.nodes.len())
        &&& self@.root.0 is None ==> self@.nodes.len() == 0
        &&& self.limit() <= MAX_DEPTH_LIMIT
    }

    /// The empty graph.
    pub fn new() -> (dag: Dag)
        ensures
            dag.wf(),
            dag@ == (GraphView { nodes: Seq::empty(), root: Pointer(None) }),
            dag.limit() == DEFAULT_DEPTH_LIMIT,
    {
        Dag { graph: NodeGraph::new(), root: Pointer(None), depth_limit: DEFAULT_DEPTH_LIMIT }
    }

    /// The graph that `lines` describe.
    pub fn from_source(lines: &Vec<String>) -> (r: Result<Dag, LoadError>)
        ensures
            match r {
                Ok(dag) => {
                    &&& dag.wf()
                    &&& dag.limit() == DEFAULT_DEPTH_LIMIT
                    &&& load(line_views(lines@)) == Ok::<GraphView, LoadError>(dag@)
                },
                Err(e) => load(line_views(lines@)) == Err::<GraphView, LoadError>(e),
            },
    {
        match DagFileData::from_lines(lines) {
            Ok(data) => Dag::from_data(&data),
            Err(e) => Err(e),
        }
    }

    /// The graph that the edge list `data` describes.
    pub fn from_data(data: &DagFileData) -> (r: Result<Dag, LoadError>)
        ensures
            match r {
                Ok(dag) => {
                    &&& dag.wf()
                    &&& dag.limit() == DEFAULT_DEPTH_LIMIT
                    &&& resolve(data@) == Ok::<GraphView, LoadError>(dag@)
                },
                Err(e) => resolve(data@) == Err::<GraphView, LoadError>(e),
            },
    {
        broadcast use group_hash_axioms;

        let ghost edges = data.nodes@;
        let ghost ids = declared_ids(edges);
        let mut dag = Dag::new();
        let mut slots: HashMap<i128, usize> = HashMap::new();
        let n: usize = data.nodes.len();
        let mut i: usize = 0;
        while i < n
            invariant
                i <= n,
                n == edges.len(),
                edges == data.nodes@,
                dag.root == Pointer(None),
                dag.depth_limit == DEFAULT_DEPTH_LIMIT,
                dag.graph@.len() == declared_ids(edges.take(i as int)).len(),
                forall|s: int|
                    0 <= s < dag.graph@.len() ==> #[trigger] dag.graph@[s] == (Node {
                        val: declared_ids(edges.take(i as int))[s],
                        left: Pointer(None),
                        right: Pointer(None),
                    }),
                forall|id: i128|
                    slots@.contains_key(id) <==> declared_ids(edges.take(i as int)).contains(id),
                forall|s: int|
                    0 <= s < dag.graph@.len() ==> slots@.contains_key(
                        #[trigger] declared_ids(edges.take(i as int))[s],
                    ) && slots@[declared_ids(edges.take(i as int))[s]] == s,
            decreases n - i,
        {
            let id: i128 = data.nodes[i].0;
            let ghost before = declared_ids(edges.take(i as int));
            proof {
                assert(edges.take(i + 1).drop_last() =~= edges.take(i as int));
                assert(edges.take(i + 1).last() == edges[i as int]);
            }
            if !slots.contains_key(&id) {
                let slot: usize = dag.graph.len();
                let _ = Pointer::new(&mut dag.graph, Node::new(id));
                slots.insert(id, slot);
                proof {
                    let after = declared_ids(edges.take(i + 1));
                    assert(after == before.push(id));
                    assert forall|k: i128| slots@.contains_key(k) <==> after.contains(k) by {
                        if after.contains(k) {
                            let j = choose|j: int| 0 <= j < after.len() && after[j] == k;
                            if j < before.len() {
                                assert(before[j] == k);
                            }
                        }
                        if before.contains(k) {
                            let j = choose|j: int| 0 <= j < before.len() && before[j] == k;
                            assert(after[j] == k);
                        }
                        assert(after[before.len() as int] == id);
                    }
                    assert forall|s: int| 0 <= s < dag.graph@.len() implies slots@.contains_key(
                        #[trigger] after[s],
                    ) && slots@[after[s]] == s by {
                        if s < before.len() {
                            assert(before[s] == after[s]);
                            assert(before.contains(before[s]));
                        }
                    }
                }
            }
            i += 1;
        }
        proof {
            assert(edges.take(n as int) =~= edges);
            assert(edges.skip(n as int) =~= Seq::<EdgeDescription>::empty());
            lemma_declared_ids(edges);
        }
        let mut i: usize = n;
        while i > 0
            invariant
                i <= n,
                n == edges.len(),
                edges == data.nodes@,
                ids == declared_ids(edges),
                dag.root == Pointer(None),
                dag.depth_limit == DEFAULT_DEPTH_LIMIT,
                dag.graph@.len() == ids.len(),
                links_in_range(dag.graph@),
                forall|id: i128| slots@.contains_key(id) <==> declares(edges, id),
                forall|id: i128| ids.contains(id) <==> declares(edges, id),
                forall|s: int|
                    0 <= s < ids.len() ==> slots@.contains_key(#[trigger] ids[s]) && slots@[ids[s]]
                        == s,
                forall|s: int|
                    0 <= s < ids.len() ==> #[trigger] dag.graph@[s] == (Node {
                        val: ids[s],
                        left: link_pointer(ids, link(edges.skip(i as int), ids[s], Side::Left)),
                        right: link_pointer(ids, link(edges.skip(i as int), ids[s], Side::Right)),
                    }),
                last_dangling(edges, n as int) == last_dangling(edges, i as int),
            decreases i,
        {
            i -= 1;
            let (id, left, right) = data.nodes[i];
            let ghost old_nodes = dag.graph@;
            proof {
                assert(edges[i as int].0 == id);
                assert(declares(edges, id));
                assert(edges.skip(i as int).drop_first() =~= edges.skip(i + 1));
                assert(edges.skip(i as int)[0] == edges[i as int]);
            }
            let slot: usize = *slots.get(&id).unwrap();
            assert(ids[slot as int] == id) by {
                let k = choose|k: int| 0 <= k < ids.len() && ids[k] == id;
                assert(slots@[ids[k]] == k);
            }
            let here = Pointer(Some(slot));
            if left != NO_CHILD {
                match slots.get(&left) {
                    Some(child) => {
                        let child: usize = *child;
                        proof {
                            let k = choose|k: int| 0 <= k < ids.len() && ids[k] == left;
                            assert(slots@[ids[k]] == k);
                            let c = slot_of(ids, left);
                            assert(slots@[ids[c]] == c);
                        }
                        let node = here.as_mut_ref(&mut dag.graph);
                        node.left = Pointer(Some(child));
                        proof {
                            assert(in_range(old_nodes[slot as int].left, old_nodes.len()));
                            lemma_relink(old_nodes, dag.graph@, slot as int);
                        }
                    },
                    None => {
                        return Err(
                            LoadError::UnresolvedReferenceError { from_id: id, missing_id: left },
                        );
                    },
                }
            }
            let ghost mid_nodes = dag.graph@;
            if right != NO_CHILD {
                match slots.get(&right) {
                    Some(child) => {
                        let child: usize = *child;
                        proof {
                            let k = choose|k: int| 0 <= k < ids.len() && ids[k] == right;
                            assert(slots@[ids[k]] == k);
                            let c = slot_of(ids, right);
                            assert(slots@[ids[c]] == c);
                        }
                        let node = here.as_mut_ref(&mut dag.graph);
                        node.right = Pointer(Some(child));
                        proof {
                            assert(in_range(mid_nodes[slot as int].left, mid_nodes.len()));
                            lemma_relink(mid_nodes, dag.graph@, slot as int);
                        }
                    },
                    None => {
                        return Err(
                            LoadError::UnresolvedReferenceError { from_id: id, missing_id: right },
                        );
                    },
                }
            }
            proof {
                assert forall|s: int| 0 <= s < ids.len() implies #[trigger] dag.graph@[s] == (Node {
                    val: ids[s],
                    left: link_pointer(ids, link(edges.skip(i as int), ids[s], Side::Left)),
                    right: link_pointer(ids, link(edges.skip(i as int), ids[s], Side::Right)),
                }) by {
                    assert(slots@[ids[s]] == s);
                    assert(old_nodes[s].val == ids[s]);
                    if s != slot {
                        assert(ids[s] != id);
                        assert(dag.graph@[s] == old_nodes[s]);
                    }
                }
            }
        }
        proof {
            assert(edges.skip(0) =~= edges);
            assert(dag.graph@ =~= resolved_nodes(edges));
        }
        if n == 0 {
            assert(dag.graph@ =~= Seq::<Node>::empty());
            return Ok(dag);
        }
        match slots.get(&data.num_nodes) {
            Some(slot) => {
                proof {
                    let c = slot_of(ids, data.num_nodes);
                    let k = choose|k: int| 0 <= k < ids.len() && ids[k] == data.num_nodes;
                    assert(slots@[ids[k]] == k);
                    assert(slots@[ids[c]] == c);
                }
                dag.set_root(Pointer(Some(*slot)));
                Ok(dag)
            },
            None => Err(LoadError::MissingRootError),
        }
    }

    /// Makes the node that `root` names the root.
    fn set_root(&mut self, root: Pointer)
        requires
            in_range(root, old(self)@.nodes.len()),
        ensures
            final(self)@ == (GraphView { nodes: old(self)@.nodes, root }),
            final(self).limit() == old(self).limit(),
    {
        self.root = root;
    }

    /// The lines of the rendering of the graph.
    pub fn render_lines(&self) -> (r: Result<Vec<RenderLine>, TraversalDepthExceeded>)
        requires
            self.wf(),
        ensures
            match r {
                Ok(lines) => !self.limit_exceeded() && lines@ == rendering(
                    self@.nodes,
                    self@.root,
                    0,
                    self.limit() as nat,
                ),
                Err(e) => self.limit_exceeded() && e.limit == self.limit(),
            },
    {
        crate::render::render_lines(&self.graph, self.root, self.depth_limit)
    }

    /// The rendering of the graph as text; the empty text for the empty
    /// graph.
    pub fn render(&self) -> (r: Result<String, TraversalDepthExceeded>)
        requires
            self.wf(),
        ensures
            match r {
                Ok(text) => !self.limit_exceeded() && text@ == text_of(
                    rendering(self@.nodes, self@.root, 0, self.limit() as nat),
                ),
                Err(e) => self.limit_exceeded() && e.limit == self.limit(),
            },
    {
        match crate::render::render_lines(&self.graph, self.root, self.depth_limit) {
            Ok(lines) => {
                proof {
                    lemma_rendering_depths(self@.nodes, self@.root, 0, self.limit() as nat);
                }
                Ok(render_text(&lines))
            },
            Err(e) => Err(e),
        }
    }

    /// The nodes of the graph.
    pub fn graph(&self) -> (graph: &NodeGraph)
        ensures
            graph@ == self@.nodes,
    {
        &self.graph
    }

    /// The handle of the root: empty for the empty graph.
    pub fn root(&self) -> (root: Pointer)
        ensures
            root == self@.root,
    {
        self.root
    }

    /// The depth limit of the walks over this graph.
    pub fn depth_limit(&self) -> (limit: usize)
        ensures
            limit == self.limit(),
    {
        self.depth_limit
    }

    /// Sets the depth limit, if it is no greater than [`MAX_DEPTH_LIMIT`];
    /// says whether it did.
    pub fn set_depth_limit(&mut self, limit: usize) -> (accepted: bool)
        ensures
            accepted == (limit <= MAX_DEPTH_LIMIT),
            final(self)@ == old(self)@,
            final(self).limit() == if accepted {
                limit
            } else {
                old(self).limit()
            },
    {
        if limit <= MAX_DEPTH_LIMIT {
            self.depth_limit = limit;
            true
        } else {
            false
        }
    }
}

impl DAGStats for Dag {
    open spec fn walkable(&self) -> bool {
        self.wf()
    }

    open spec fn walk_limit(&self) -> usize {
        self.limit()
    }

    open spec fn visit_depths(&self) -> Seq<nat> {
        walk(self@.nodes, self@.root, 0, self.limit() as nat)
    }

    open spec fn limit_exceeded(&self) -> bool {
        too_deep(self@.nodes, self@.root, 0, self.limit() as nat)
    }

    fn calculate(&self) -> (r: Result<DAGStatsData, TraversalDepthExceeded>) {
        match summarize(&self.graph, self.root, self.depth_limit) {
            Ok(s) => {
                let mut builder = DAGStatsBuilder::new();
                builder.set_average_depth(Average { total: s.depth_sum, count: s.visits });
                builder.set_average_nodes_per_depth(
                    Average { total: s.visits, count: s.max_depth as u128 },
                );
                builder.set_average_in_references(Average { total: s.visits, count: s.visits });
                builder.set_max_depth(s.max_depth);
                Ok(builder.build())
            },
            Err(e) => Err(e),
        }
    }

    fn get_average_depth(&self) -> (r: Result<Average, TraversalDepthExceeded>) {
        match summarize(&self.graph, self.root, self.depth_limit) {
            Ok(s) => Ok(Average { total: s.depth_sum, count: s.visits }),
            Err(e) => Err(e),
        }
    }

    fn get_average_nodes_per_depth(&self) -> (r: Result<Average, TraversalDepthExceeded>) {
        match summarize(&self.graph, self.root, self.depth_limit) {
            Ok(s) => Ok(Average { total: s.visits, count: s.max_depth as u128 }),
            Err(e) => Err(e),
        }
    }

    fn get_average_in_references(&self) -> (r: Result<Average, TraversalDepthExceeded>) {
        match summarize(&self.graph, self.root, self.depth_limit) {
            Ok(s) => Ok(Average { total: s.visits, count: s.visits }),
            Err(e) => Err(e),
        }
    }

    fn get_max_depth(&self) -> (r: Result<usize, TraversalDepthExceeded>) {
        match summarize(&self.graph, self.root, self.depth_limit) {
            Ok(s) => Ok(s.max_depth),
            Err(e) => Err(e),
        }
    }

    fn get_nodes_count(&self) -> (n: usize) {
        0
    }

    fn get_edges_count(&self) -> (n: usize) {
        0
    }

    fn get_nodes_with_no_incoming_edges(&self) -> (n: usize) {
        0
    }

    fn get_isolated_nodes_count(&self) -> (n: usize) {
        0
    }
}

} // verus!
