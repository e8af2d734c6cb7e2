//! Facts about walks and the statistics that they give.

use crate::dag::{
    declared_ids, declares, lemma_declared_ids, link, load, resolve, slot_of, GraphView, Side,
};
use crate::load_lemmas::{
    lemma_all_well_formed, lemma_body_edges_unlinked, lemma_link_is_declared, lemma_no_link,
    lemma_resolves_when_declared, links_declared, without_links,
};
use crate::loader::{
    body_edges, implied_leaf, parse_description, well_formed_line, Description, LoadError,
    NO_CHILD,
};
use crate::node::{Node, Pointer};
use crate::stats::{is_calculation, is_report, Average, DAGStatsData};
use crate::text::integers;
use crate::traverse::{levels, seq_max, seq_sum, too_deep, walk, TraversalDepthExceeded};
use vstd::prelude::*;

verus! {

/// The report of a walk that visits the root and nothing else.
pub open spec fn lone_root_report() -> DAGStatsData {
    DAGStatsData {
        average_depth: Some(Average { total: 0, count: 1 }),
        average_nodes_per_depth: Some(Average { total: 1, count: 1 }),
        average_in_references: Some(Average { total: 1, count: 1 }),
        max_depth: Some(1),
        nodes_count: None,
        edges_count: None,
        nodes_with_no_incoming_edges: None,
        isolated_nodes_count: None,
    }
}

/// The report of a walk without a visit.
pub open spec fn zero_report() -> DAGStatsData {
    DAGStatsData {
        average_depth: Some(Average { total: 0, count: 0 }),
        average_nodes_per_depth: Some(Average { total: 0, count: 0 }),
        average_in_references: Some(Average { total: 0, count: 0 }),
        max_depth: Some(0),
        nodes_count: None,
        edges_count: None,
        nodes_with_no_incoming_edges: None,
        isolated_nodes_count: None,
    }
}

/// A walk that visits the root alone has the sum of depths 0 and one depth
/// level.
pub proof fn lemma_lone_visit()
    ensures
        seq_sum(seq![0nat]) == 0,
        levels(seq![0nat]) == 1,
{
    assert(seq![0nat].drop_last() =~= Seq::<nat>::empty());
    assert(seq_sum(seq![0nat].drop_last()) == 0);
    assert(seq_max(seq![0nat].drop_last()) == 0);
}

/// A description that declares its root and names no child describes a graph
/// whose walk visits the root alone, whatever the depth limit: the average
/// depth is 0, the maximum depth 1 and the average number of nodes per depth
/// level 1.
pub proof fn lemma_without_links_lone_root(d: Description, limit: nat, data: DAGStatsData)
    requires
        without_links(d.nodes),
        declares(d.nodes, d.num_nodes),
        d.nodes.len() <= usize::MAX,
    ensures
        resolve(d) is Ok,
        !too_deep(resolve(d)->Ok_0.nodes, resolve(d)->Ok_0.root, 0, limit),
        walk(resolve(d)->Ok_0.nodes, resolve(d)->Ok_0.root, 0, limit) == seq![0nat],
        is_report(walk(resolve(d)->Ok_0.nodes, resolve(d)->Ok_0.root, 0, limit), data) ==> data
            == lone_root_report(),
        lone_root_report().average_depth->0.is_zero(),
        lone_root_report().average_nodes_per_depth->0.is_one(),
{
    let edges = d.nodes;
    let ids = declared_ids(edges);
    assert(links_declared(edges));
    lemma_resolves_when_declared(d);
    lemma_declared_ids(edges);
    let g = resolve(d)->Ok_0;
    let s = slot_of(ids, d.num_nodes);
    assert(ids.contains(d.num_nodes));
    assert(g.root.0->0 as int == s);
    lemma_no_link(edges, ids[s], Side::Left);
    lemma_no_link(edges, ids[s], Side::Right);
    assert(g.nodes[s].left == Pointer(None));
    assert(g.nodes[s].right == Pointer(None));
    assert(walk(g.nodes, Pointer(None), 1, limit) =~= Seq::<nat>::empty());
    assert(walk(g.nodes, g.root, 0, limit) =~= seq![0nat]);
    assert(!too_deep(g.nodes, Pointer(None), 1, limit));
    assert(!too_deep(g.nodes, g.root, 0, limit));
    lemma_lone_visit();
}

/// Lines that declare their root and name no child describe a graph whose
/// walk visits the root alone.
pub proof fn lemma_lines_without_links_lone_root(
    texts: Seq<Seq<char>>,
    limit: nat,
    data: DAGStatsData,
)
    requires
        parse_description(texts) is Ok,
        without_links(parse_description(texts)->Ok_0.nodes),
        declares(parse_description(texts)->Ok_0.nodes, parse_description(texts)->Ok_0.num_nodes),
        parse_description(texts)->Ok_0.nodes.len() <= usize::MAX,
    ensures
        load(texts) is Ok,
        !too_deep(load(texts)->Ok_0.nodes, load(texts)->Ok_0.root, 0, limit),
        walk(load(texts)->Ok_0.nodes, load(texts)->Ok_0.root, 0, limit) == seq![0nat],
        is_report(walk(load(texts)->Ok_0.nodes, load(texts)->Ok_0.root, 0, limit), data) ==> data
            == lone_root_report(),
{
    lemma_without_links_lone_root(parse_description(texts)->Ok_0, limit, data);
}

/// A description of `n` nodes, one or more, in which no line names a child:
/// the count on the first line, then a line without children for each of the
/// nodes 2 to `n`. It loads, and the walk over its graph visits the root
/// alone, whatever the depth limit: the average depth is 0, the maximum depth
/// 1 and the average number of nodes per depth level 1.
pub proof fn lemma_unlinked_description_lone_root(
    texts: Seq<Seq<char>>,
    n: i128,
    limit: nat,
    data: DAGStatsData,
)
    requires
        1 <= n == texts.len() <= usize::MAX,
        integers(texts[0]) == Some(seq![n]),
        forall|i: int|
            1 <= i < texts.len() ==> integers(#[trigger] texts[i]) == Some(
                seq![NO_CHILD, NO_CHILD],
            ),
    ensures
        load(texts) is Ok,
        !too_deep(load(texts)->Ok_0.nodes, load(texts)->Ok_0.root, 0, limit),
        walk(load(texts)->Ok_0.nodes, load(texts)->Ok_0.root, 0, limit) == seq![0nat],
        is_report(walk(load(texts)->Ok_0.nodes, load(texts)->Ok_0.root, 0, limit), data) ==> data
            == lone_root_report(),
{
    let len = texts.len() as int;
    assert forall|i: int| 0 <= i < len implies well_formed_line(i, #[trigger] texts[i]) by {
        if i > 0 {
            assert(integers(texts[i]) == Some(seq![NO_CHILD, NO_CHILD]));
        }
    }
    lemma_all_well_formed(texts, len);
    lemma_body_edges_unlinked(texts, n, len);
    let d = parse_description(texts)->Ok_0;
    let leaf = implied_leaf(n);
    let body = body_edges(texts, n, len);
    assert(d.nodes.len() == len);
    assert forall|i: int| 0 <= i < d.nodes.len() implies (#[trigger] d.nodes[i]).1 == NO_CHILD
        && d.nodes[i].2 == NO_CHILD by {
        if i < 1 {
            assert(d.nodes[i] == leaf[i]);
        } else if i < 1 + body.len() {
            assert(d.nodes[i] == body[i - 1]);
        } else {
            assert(integers(texts[n - 1]) == Some(seq![NO_CHILD, NO_CHILD]));
        }
    }
    if n == 1 {
        assert(d.nodes[0].0 == n);
    } else {
        assert(d.nodes[len - 1].0 == n);
    }
    lemma_lines_without_links_lone_root(texts, limit, data);
}

/// The empty graph has no visit and exceeds no limit: all averages and the
/// maximum depth are 0. A description without declarations describes the
/// empty graph.
pub proof fn lemma_empty_graph_zero(nodes: Seq<Node>, limit: nat, data: DAGStatsData)
    ensures
        !too_deep(nodes, Pointer(None), 0, limit),
        walk(nodes, Pointer(None), 0, limit) == Seq::<nat>::empty(),
        is_report(walk(nodes, Pointer(None), 0, limit), data) ==> data == zero_report(),
        zero_report().average_depth->0.is_zero(),
        zero_report().average_nodes_per_depth->0.is_zero(),
        zero_report().average_in_references->0.is_zero(),
        forall|d: Description|
            d.nodes.len() == 0 ==> #[trigger] resolve(d) == Ok::<GraphView, LoadError>(
                GraphView { nodes: Seq::empty(), root: Pointer(None) },
            ),
{
}

/// Two outcomes of the report of one walk are equal: asking twice gives the
/// same answer.
pub proof fn lemma_calculation_is_unique(
    depths: Seq<nat>,
    exceeded: bool,
    limit: usize,
    first: Result<DAGStatsData, TraversalDepthExceeded>,
    second: Result<DAGStatsData, TraversalDepthExceeded>,
)
    requires
        is_calculation(depths, exceeded, limit, first),
        is_calculation(depths, exceeded, limit, second),
    ensures
        first == second,
{
}

/// A node that is its own child is too deep for every limit.
pub proof fn lemma_self_loop_too_deep(nodes: Seq<Node>, p: Pointer, depth: nat, limit: nat)
    requires
        p.0 is Some,
        nodes[p.0->0 as int].left == p || nodes[p.0->0 as int].right == p,
        depth <= limit,
    ensures
        too_deep(nodes, p, depth, limit),
    decreases limit - depth,
{
    if depth < limit {
        lemma_self_loop_too_deep(nodes, p, depth + 1, limit);
    }
}

/// A description whose root names itself as a child describes a graph, if
/// its named children are declared, and every walk over that graph exceeds
/// its depth limit.
pub proof fn lemma_self_loop_loads_and_exceeds(d: Description, side: Side, limit: nat)
    requires
        links_declared(d.nodes),
        link(d.nodes, d.num_nodes, side) == Some(d.num_nodes),
        d.nodes.len() <= usize::MAX,
    ensures
        resolve(d) is Ok,
        too_deep(resolve(d)->Ok_0.nodes, resolve(d)->Ok_0.root, 0, limit),
{
    let edges = d.nodes;
    let ids = declared_ids(edges);
    lemma_link_is_declared(edges, d.num_nodes, side);
    lemma_declared_ids(edges);
    assert(edges.len() > 0);
    lemma_resolves_when_declared(d);
    let g = resolve(d)->Ok_0;
    let s = slot_of(ids, d.num_nodes);
    assert(g.root.0->0 as int == s);
    assert(g.nodes[s].val == d.num_nodes);
    assert(g.nodes[s].left == g.root || g.nodes[s].right == g.root);
    lemma_self_loop_too_deep(g.nodes, g.root, 0, limit);
}

/// A node whose two links lead to the same child has that child walked
/// twice, once for each link.
pub proof fn lemma_shared_child_walked_twice(nodes: Seq<Node>, p: Pointer, depth: nat, limit: nat)
    requires
        p.0 is Some,
        nodes[p.0->0 as int].left == nodes[p.0->0 as int].right,
        depth < limit,
    ensures
        walk(nodes, p, depth, limit) == seq![depth] + walk(
            nodes,
            nodes[p.0->0 as int].left,
            depth + 1,
            limit,
        ) + walk(nodes, nodes[p.0->0 as int].left, depth + 1, limit),
        walk(nodes, p, depth, limit).len() == 1 + 2 * walk(
            nodes,
            nodes[p.0->0 as int].left,
            depth + 1,
            limit,
        ).len(),
{
}

/// The greatest of the numbers of two sequences, one after the other, is the
/// greater of their greatest numbers.
pub proof fn lemma_seq_max_concat(a: Seq<nat>, b: Seq<nat>)
    ensures
        seq_max(a + b) == if seq_max(a) > seq_max(b) {
            seq_max(a)
        } else {
            seq_max(b)
        },
    decreases b.len(),
{
    if b.len() == 0 {
        assert(a + b =~= a);
    } else {
        lemma_seq_max_concat(a, b.drop_last());
        assert((a + b).drop_last() =~= a + b.drop_last());
    }
}

/// The walk from a node at `depth` visits every depth from `depth` to the
/// greatest that it reaches, and no other.
pub proof fn lemma_walk_reaches_every_depth(nodes: Seq<Node>, p: Pointer, depth: nat, limit: nat)
    requires
        p.0 is Some,
        depth <= limit,
    ensures
        depth <= seq_max(walk(nodes, p, depth, limit)),
        forall|x: nat|
            walk(nodes, p, depth, limit).contains(x) <==> depth <= x <= seq_max(
                walk(nodes, p, depth, limit),
            ),
    decreases limit - depth,
{
    let slot = p.0->0 as int;
    let all = walk(nodes, p, depth, limit);
    let head = seq![depth];
    assert(head.drop_last() =~= Seq::<nat>::empty());
    assert(seq_max(head.drop_last()) == 0);
    assert(seq_max(head) == depth);
    assert(head[0] == depth);
    if depth < limit {
        let l = walk(nodes, nodes[slot].left, depth + 1, limit);
        let r = walk(nodes, nodes[slot].right, depth + 1, limit);
        lemma_seq_max_concat(head, l);
        lemma_seq_max_concat(head + l, r);
        if nodes[slot].left.0 is Some {
            lemma_walk_reaches_every_depth(nodes, nodes[slot].left, depth + 1, limit);
        }
        if nodes[slot].right.0 is Some {
            lemma_walk_reaches_every_depth(nodes, nodes[slot].right, depth + 1, limit);
        }
        assert forall|x: nat| all.contains(x) <==> depth <= x <= seq_max(all) by {
            if all.contains(x) {
                let k = choose|k: int| 0 <= k < all.len() && all[k] == x;
                if k == 0 {
                } else if k < 1 + l.len() {
                    assert(l[k - 1] == x);
                    assert(l.contains(x));
                } else {
                    assert(r[k - 1 - l.len()] == x);
                    assert(r.contains(x));
                }
            }
            if depth <= x <= seq_max(all) {
                if x == depth {
                    assert(all[0] == x);
                } else if l.len() > 0 && x <= seq_max(l) {
                    assert(l.contains(x));
                    let k = choose|k: int| 0 <= k < l.len() && l[k] == x;
                    assert(all[k + 1] == x);
                } else {
                    assert(r.len() > 0);
                    assert(r.contains(x));
                    let k = choose|k: int| 0 <= k < r.len() && r[k] == x;
                    assert(all[k + 1 + l.len()] == x);
                }
            }
        }
    } else {
        assert(all =~= head);
        assert forall|x: nat| all.contains(x) <==> depth <= x <= seq_max(all) by {
            if all.contains(x) {
                let k = choose|k: int| 0 <= k < all.len() && all[k] == x;
            }
        }
    }
}

/// The number of depth levels of a walk is the number of different depths
/// at which it visits a node: these are the depths below that number.
pub proof fn lemma_levels_are_the_depths_visited(nodes: Seq<Node>, root: Pointer, limit: nat)
    ensures
        forall|x: nat|
            walk(nodes, root, 0, limit).contains(x) <==> x < levels(walk(nodes, root, 0, limit)),
{
    let all = walk(nodes, root, 0, limit);
    if root.0 is Some {
        lemma_walk_reaches_every_depth(nodes, root, 0, limit);
        assert(all.len() > 0);
    } else {
        assert forall|x: nat| all.contains(x) <==> x < levels(all) by {
            if all.contains(x) {
                let k = choose|k: int| 0 <= k < all.len() && all[k] == x;
            }
        }
    }
}

} // verus!
