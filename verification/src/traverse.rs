//! The walk over a graph, and what it sums up.
//!
//! The walk starts at the root and follows every child link, left before
//! right. It keeps no record of the nodes it has seen: a node that several
//! links lead to is visited once for each path that reaches it. The root is
//! visited at depth 0, a child one deeper than its parent.
//!
//! On a graph with a cycle the walk would never end, so it has a depth limit:
//! it visits no node deeper than the limit, and reports it if a link leads
//! there.

use crate::node::{Node, NodeGraph, Pointer};
use vstd::arithmetic::power2::{lemma2_to64, lemma2_to64_rest, lemma_pow2_adds, lemma_pow2_pos, lemma_pow2_strictly_increases, lemma_pow2_unfold, pow2};
use vstd::prelude::*;

verus! {

/// The greatest depth limit that a walk accepts. With it the counts of a walk
/// fit in 128 bits.
pub const MAX_DEPTH_LIMIT: usize = 100;

/// The depth limit of a graph that was given no other.
pub const DEFAULT_DEPTH_LIMIT: usize = 64;

/// The walk met a link that leads deeper than the limit.
#[derive(Clone, Copy, Debug, PartialEq, Eq, Structural)]
pub struct TraversalDepthExceeded {
    /// The limit that was in force.
    pub limit: usize,
}

/// What one walk found.
#[derive(Clone, Copy, Debug, PartialEq, Eq, Structural)]
pub struct PathSummary {
    /// The number of visits.
    pub visits: u128,
    /// The sum of the depths of the visits.
    pub depth_sum: u128,
    /// The number of depth levels with a visit: one more than the greatest
    /// depth of a visit, or 0 if there was none.
    pub max_depth: usize,
}

/// The depths of the visits that the walk makes from `p`, in order, when `p`
/// is reached at `depth` and no node deeper than `limit` is visited.
pub open spec fn walk(nodes: Seq<Node>, p: Pointer, depth: nat, limit: nat) -> Seq<nat>
    decreases limit - depth,
{
    match p.0 {
        None => Seq::empty(),
        Some(slot) => if depth < limit {
            seq![depth] + walk(nodes, nodes[slot as int].left, depth + 1, limit) + walk(
                nodes,
                nodes[slot as int].right,
                depth + 1,
                limit,
            )
        } else {
            seq![depth]
        },
    }
}

/// Whether the walk from `p`, reached at `depth`, meets a link that leads
/// deeper than `limit`.
pub open spec fn too_deep(nodes: Seq<Node>, p: Pointer, depth: nat, limit: nat) -> bool
    decreases limit - depth,
{
    match p.0 {
        None => false,
        Some(slot) => if depth < limit {
            too_deep(nodes, nodes[slot as int].left, depth + 1, limit) || too_deep(
                nodes,
                nodes[slot as int].right,
                depth + 1,
                limit,
            )
        } else {
            nodes[slot as int].left.0 is Some || nodes[slot as int].right.0 is Some
        },
    }
}

/// The sum of the numbers in `s`.
pub open spec fn seq_sum(s: Seq<nat>) -> nat
    decreases s.len(),
{
    if s.len() == 0 {
        0
    } else {
        seq_sum(s.drop_last()) + s.last()
    }
}

/// The greatest number in `s`, or 0 if `s` is empty.
pub open spec fn seq_max(s: Seq<nat>) -> nat
    decreases s.len(),
{
    if s.len() == 0 {
        0
    } else if s.last() > seq_max(s.drop_last()) {
        s.last()
    } else {
        seq_max(s.drop_last())
    }
}

/// The number of depth levels that the visits `depths` reach: one more than
/// the greatest depth, or 0 without a visit.
pub open spec fn levels(depths: Seq<nat>) -> nat {
    if depths.len() == 0 {
        0
    } else {
        seq_max(depths) + 1
    }
}

/// The visits that are still to be made for the entries of `stack`, the last
/// entry first. An entry is a node and the depth at which it is reached.
spec fn pending(nodes: Seq<Node>, stack: Seq<(Pointer, usize)>, limit: nat) -> Seq<nat>
    decreases stack.len(),
{
    if stack.len() == 0 {
        Seq::empty()
    } else {
        walk(nodes, stack.last().0, stack.last().1 as nat, limit) + pending(
            nodes,
            stack.drop_last(),
            limit,
        )
    }
}

/// Whether the walk from one of the entries of `stack` is too deep.
spec fn pending_too_deep(
    nodes: Seq<Node>,
    stack: Seq<(Pointer, usize)>,
    limit: nat,
) -> bool
    decreases stack.len(),
{
    if stack.len() == 0 {
        false
    } else {
        too_deep(nodes, stack.last().0, stack.last().1 as nat, limit) || pending_too_deep(
            nodes,
            stack.drop_last(),
            limit,
        )
    }
}

/// A walk from depth `depth` makes fewer than `2^(limit - depth + 1)` visits,
/// each at a depth from `depth` to `limit`.
pub proof fn lemma_walk_bounds(nodes: Seq<Node>, p: Pointer, depth: nat, limit: nat)
    requires
        depth <= limit,
    ensures
        walk(nodes, p, depth, limit).len() < pow2((limit - depth + 1) as nat),
        forall|k: int|
            0 <= k < walk(nodes, p, depth, limit).len() ==> depth <= #[trigger] walk(
                nodes,
                p,
                depth,
                limit,
            )[k] <= limit,
    decreases limit - depth,
{
    let room = (limit - depth) as nat;
    lemma_pow2_unfold(room + 1);
    lemma_pow2_pos(room);
    if let Some(slot) = p.0 {
        if depth < limit {
            let l = walk(nodes, nodes[slot as int].left, depth + 1, limit);
            let r = walk(nodes, nodes[slot as int].right, depth + 1, limit);
            lemma_walk_bounds(nodes, nodes[slot as int].left, depth + 1, limit);
            lemma_walk_bounds(nodes, nodes[slot as int].right, depth + 1, limit);
            assert((limit - (depth + 1) + 1) as nat == room);
            assert(walk(nodes, p, depth, limit) =~= seq![depth] + l + r);
            assert(walk(nodes, p, depth, limit).len() == 1 + l.len() + r.len());
        }
    }
}

/// Pushing an entry puts its walk before the pending ones.
proof fn lemma_pending_push(
    nodes: Seq<Node>,
    stack: Seq<(Pointer, usize)>,
    entry: (Pointer, usize),
    limit: nat,
)
    ensures
        pending(nodes, stack.push(entry), limit) == walk(nodes, entry.0, entry.1 as nat, limit)
            + pending(nodes, stack, limit),
        pending_too_deep(nodes, stack.push(entry), limit) == (too_deep(
            nodes,
            entry.0,
            entry.1 as nat,
            limit,
        ) || pending_too_deep(nodes, stack, limit)),
{
    assert(stack.push(entry).drop_last() =~= stack);
}

/// A walk within [`MAX_DEPTH_LIMIT`] makes fewer than `2^101` visits.
pub proof fn lemma_walk_fits(nodes: Seq<Node>, p: Pointer, limit: nat)
    requires
        limit <= MAX_DEPTH_LIMIT,
    ensures
        walk(nodes, p, 0, limit).len() < 0x20_0000_0000_0000_0000_0000_0000,
{
    lemma_walk_bounds(nodes, p, 0, limit);
    lemma2_to64();
    lemma2_to64_rest();
    lemma_pow2_adds(64, 37);
    assert(pow2(101) == 0x20_0000_0000_0000_0000_0000_0000);
    if limit + 1 < 101 {
        lemma_pow2_strictly_increases((limit + 1) as nat, 101);
    }
}

/// Walks the graph from `root` within the depth `limit` and sums up the
/// visits.
pub fn summarize(graph: &NodeGraph, root: Pointer, limit: usize) -> (r: Result<
    PathSummary,
    TraversalDepthExceeded,
>)
    requires
        graph.wf(),
        graph.holds(root),
        limit <= MAX_DEPTH_LIMIT,
    ensures
        match r {
            Ok(s) => {
                &&& !too_deep(graph@, root, 0, limit as nat)
                &&& s.visits == walk(graph@, root, 0, limit as nat).len()
                &&& s.depth_sum == seq_sum(walk(graph@, root, 0, limit as nat))
                &&& s.max_depth == levels(walk(graph@, root, 0, limit as nat))
            },
            Err(e) => too_deep(graph@, root, 0, limit as nat) && e.limit == limit,
        },
{
    let ghost all = walk(graph@, root, 0, limit as nat);
    let ghost mut seen: Seq<nat> = Seq::empty();
    let mut stack: Vec<(Pointer, usize)> = Vec::new();
    if !root.is_none() {
        stack.push((root, 0));
        proof {
            lemma_pending_push(graph@, Seq::empty(), (root, 0usize), limit as nat);
            assert(stack@ =~= Seq::<(Pointer, usize)>::empty().push((root, 0usize)));
        }
    }
    let mut visits: u128 = 0;
    let mut depth_sum: u128 = 0;
    let mut max_depth: usize = 0;
    proof {
        lemma_walk_fits(graph@, root, limit as nat);
        assert(seen + pending(graph@, stack@, limit as nat) =~= all);
    }
    while stack.len() > 0
        invariant
            graph.wf(),
            limit <= MAX_DEPTH_LIMIT,
            all == walk(graph@, root, 0, limit as nat),
            all.len() < 0x20_0000_0000_0000_0000_0000_0000,
            forall|k: int|
                0 <= k < stack@.len() ==> (#[trigger] stack@[k]).0.0 is Some && graph.holds(
                    stack@[k].0,
                ) && stack@[k].1 <= limit,
            seen + pending(graph@, stack@, limit as nat) == all,
            too_deep(graph@, root, 0, limit as nat) == pending_too_deep(
                graph@,
                stack@,
                limit as nat,
            ),
            visits == seen.len(),
            depth_sum == seq_sum(seen),
            depth_sum <= MAX_DEPTH_LIMIT * visits,
            max_depth == levels(seen),
            max_depth <= limit + 1,
        decreases all.len() - seen.len(),
    {
        let ghost before = stack@;
        let (p, depth) = stack.pop().unwrap();
        let ghost rest = stack@;
        let node: Node = *p.as_ref(graph);
        proof {
            assert(before =~= rest.push((p, depth)));
            lemma_pending_push(graph@, rest, (p, depth), limit as nat);
            assert(walk(graph@, p, depth as nat, limit as nat).len() > 0);
            assert(seen.push(depth as nat).drop_last() =~= seen);
            seen = seen.push(depth as nat);
        }
        visits = visits + 1;
        depth_sum = depth_sum + depth as u128;
        if depth + 1 > max_depth {
            max_depth = depth + 1;
        }
        if depth < limit {
            if !node.right.is_none() {
                stack.push((node.right, depth + 1));
                proof {
                    lemma_pending_push(graph@, rest, (node.right, (depth + 1) as usize), limit as nat);
                }
            }
            let ghost middle = stack@;
            if !node.left.is_none() {
                stack.push((node.left, depth + 1));
                proof {
                    lemma_pending_push(graph@, middle, (node.left, (depth + 1) as usize), limit as nat);
                }
            }
            proof {
                let l = walk(graph@, node.left, (depth + 1) as nat, limit as nat);
                let r = walk(graph@, node.right, (depth + 1) as nat, limit as nat);
                assert(pending(graph@, middle, limit as nat) =~= r + pending(
                    graph@,
                    rest,
                    limit as nat,
                ));
                assert(pending(graph@, stack@, limit as nat) =~= l + pending(
                    graph@,
                    middle,
                    limit as nat,
                ));
                assert(seen + pending(graph@, stack@, limit as nat) =~= all);
                assert(too_deep(graph@, p, depth as nat, limit as nat) == (too_deep(
                    graph@,
                    node.left,
                    (depth + 1) as nat,
                    limit as nat,
                ) || too_deep(graph@, node.right, (depth + 1) as nat, limit as nat)));
                assert(!too_deep(graph@, Pointer(None), (depth + 1) as nat, limit as nat));
            }
        } else if !node.left.is_none() || !node.right.is_none() {
            return Err(TraversalDepthExceeded { limit });
        } else {
            assert(seen + pending(graph@, stack@, limit as nat) =~= all);
            assert(!too_deep(graph@, p, depth as nat, limit as nat));
        }
    }
    assert(seen =~= all);
    Ok(PathSummary { visits, depth_sum, max_depth })
}

} // verus!
