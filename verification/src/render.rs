//! The rendering of a graph as indented text.
//!
//! A node is rendered as an opening line that shows its identity, the
//! renderings of its left and of its right child, and a closing line. The
//! lines of a node at depth `d` are indented by `4 * d` spaces. The rendering
//! follows every link as the walk does, so a node is rendered once for each
//! path that reaches it, and within the same depth limit.

use crate::node::{Node, NodeGraph, Pointer};
use crate::traverse::{too_deep, TraversalDepthExceeded};
use vstd::prelude::*;
use vstd::string::*;

verus! {

/// What a line of a rendering shows.
#[derive(Clone, Copy, Debug, PartialEq, Eq, Structural)]
pub enum Marker {
    /// The node with this identity begins.
    Open(i128),
    /// The node that was last begun at this depth ends.
    Close,
}

/// A line of a rendering: its depth and what it shows.
#[derive(Clone, Copy, Debug, PartialEq, Eq, Structural)]
pub struct RenderLine {
    pub depth: usize,
    pub marker: Marker,
}

/// What is still to be rendered: a node reached at a depth, or the closing
/// line of a node at a depth.
#[derive(Clone, Copy, Debug, PartialEq, Eq, Structural)]
enum Task {
    Visit(Pointer, usize),
    Close(usize),
}

/// The lines of the node `p` reached at `depth`, when no node deeper than
/// `limit` is rendered.
pub open spec fn rendering(nodes: Seq<Node>, p: Pointer, depth: nat, limit: nat) -> Seq<
    RenderLine,
>
    decreases limit - depth,
{
    match p.0 {
        None => Seq::empty(),
        Some(slot) => {
            let open = RenderLine {
                depth: depth as usize,
                marker: Marker::Open(nodes[slot as int].val),
            };
            let close = RenderLine { depth: depth as usize, marker: Marker::Close };
            if depth < limit {
                seq![open] + rendering(nodes, nodes[slot as int].left, depth + 1, limit)
                    + rendering(nodes, nodes[slot as int].right, depth + 1, limit) + seq![close]
            } else {
                seq![open, close]
            }
        },
    }
}

/// The lines of one task.
spec fn task_lines(nodes: Seq<Node>, task: Task, limit: nat) -> Seq<RenderLine> {
    match task {
        Task::Visit(p, depth) => rendering(nodes, p, depth as nat, limit),
        Task::Close(depth) => seq![RenderLine { depth, marker: Marker::Close }],
    }
}

/// Whether the rendering of one task meets a link that leads too deep.
spec fn task_too_deep(nodes: Seq<Node>, task: Task, limit: nat) -> bool {
    match task {
        Task::Visit(p, depth) => too_deep(nodes, p, depth as nat, limit),
        Task::Close(_) => false,
    }
}

/// The lines of the tasks on `stack`, the last task first.
spec fn pending_lines(nodes: Seq<Node>, stack: Seq<Task>, limit: nat) -> Seq<RenderLine>
    decreases stack.len(),
{
    if stack.len() == 0 {
        Seq::empty()
    } else {
        task_lines(nodes, stack.last(), limit) + pending_lines(nodes, stack.drop_last(), limit)
    }
}

/// Whether the rendering of one of the tasks on `stack` is too deep.
spec fn pending_tasks_too_deep(nodes: Seq<Node>, stack: Seq<Task>, limit: nat) -> bool
    decreases stack.len(),
{
    if stack.len() == 0 {
        false
    } else {
        task_too_deep(nodes, stack.last(), limit) || pending_tasks_too_deep(
            nodes,
            stack.drop_last(),
            limit,
        )
    }
}

/// The character for the digit `d`.
pub open spec fn digit_char(d: nat) -> char {
    (0x30 + d) as char
}

/// The digits of `n` in base ten, without leading zeros.
pub open spec fn decimal_digits(n: nat) -> Seq<char>
    decreases n,
{
    if n < 10 {
        seq![digit_char(n)]
    } else {
        decimal_digits(n / 10).push(digit_char(n % 10))
    }
}

/// The text of the integer `v`: its digits, after a `-` if it is negative.
pub open spec fn integer_text(v: int) -> Seq<char> {
    if v < 0 {
        seq!['-'] + decimal_digits((-v) as nat)
    } else {
        decimal_digits(v as nat)
    }
}

/// `n` spaces.
pub open spec fn spaces(n: nat) -> Seq<char> {
    Seq::new(n, |i: int| ' ')
}

/// The text of one line, with its line end: the indentation, then `[`, the
/// identity and a space for an opening line, `]` for a closing line.
pub open spec fn line_text(line: RenderLine) -> Seq<char> {
    spaces((4 * line.depth) as nat) + match line.marker {
        Marker::Open(id) => seq!['['] + integer_text(id as int) + seq![' ', '\n'],
        Marker::Close => seq![']', '\n'],
    }
}

/// The text of the lines, one after the other.
pub open spec fn text_of(lines: Seq<RenderLine>) -> Seq<char>
    decreases lines.len(),
{
    if lines.len() == 0 {
        Seq::empty()
    } else {
        text_of(lines.drop_last()) + line_text(lines.last())
    }
}

/// Pushing a task puts its lines before the pending ones.
proof fn lemma_pending_lines_push(nodes: Seq<Node>, stack: Seq<Task>, task: Task, limit: nat)
    ensures
        pending_lines(nodes, stack.push(task), limit) == task_lines(nodes, task, limit)
            + pending_lines(nodes, stack, limit),
        pending_tasks_too_deep(nodes, stack.push(task), limit) == (task_too_deep(
            nodes,
            task,
            limit,
        ) || pending_tasks_too_deep(nodes, stack, limit)),
{
    assert(stack.push(task).drop_last() =~= stack);
}

/// Every line of a rendering from `depth` has a depth from `depth` to
/// `limit`, and a rendering has two lines or more unless there is no node.
pub proof fn lemma_rendering_depths(nodes: Seq<Node>, p: Pointer, depth: nat, limit: nat)
    requires
        depth <= limit <= usize::MAX,
    ensures
        p.0 is Some ==> rendering(nodes, p, depth, limit).len() >= 2,
        forall|k: int|
            0 <= k < rendering(nodes, p, depth, limit).len() ==> depth <= (#[trigger] rendering(
                nodes,
                p,
                depth,
                limit,
            )[k]).depth <= limit,
    decreases limit - depth,
{
    let all = rendering(nodes, p, depth, limit);
    if let Some(slot) = p.0 {
        if depth < limit {
            let l = rendering(nodes, nodes[slot as int].left, depth + 1, limit);
            let r = rendering(nodes, nodes[slot as int].right, depth + 1, limit);
            lemma_rendering_depths(nodes, nodes[slot as int].left, depth + 1, limit);
            lemma_rendering_depths(nodes, nodes[slot as int].right, depth + 1, limit);
            assert(all.len() == 2 + l.len() + r.len());
            assert forall|k: int| 0 <= k < all.len() implies depth <= (#[trigger] all[k]).depth
                <= limit by {
                if 1 <= k < 1 + l.len() {
                    assert(all[k] == l[k - 1]);
                } else if 1 + l.len() <= k < 1 + l.len() + r.len() {
                    assert(all[k] == r[k - 1 - l.len()]);
                }
            }
        }
    }
}

/// Rendering a node above the limit: its opening line is shown, and its
/// closing line and its children take its place among the tasks.
proof fn lemma_visit_step(
    nodes: Seq<Node>,
    shown: Seq<RenderLine>,
    rest: Seq<Task>,
    closing: Seq<Task>,
    middle: Seq<Task>,
    stack: Seq<Task>,
    p: Pointer,
    depth: usize,
    limit: nat,
)
    requires
        p.0 is Some,
        depth < limit <= usize::MAX,
        closing == rest.push(Task::Close(depth)),
        middle == if nodes[p.0->0 as int].right.0 is Some {
            closing.push(Task::Visit(nodes[p.0->0 as int].right, (depth + 1) as usize))
        } else {
            closing
        },
        stack == if nodes[p.0->0 as int].left.0 is Some {
            middle.push(Task::Visit(nodes[p.0->0 as int].left, (depth + 1) as usize))
        } else {
            middle
        },
    ensures
        shown.push(RenderLine { depth, marker: Marker::Open(nodes[p.0->0 as int].val) })
            + pending_lines(nodes, stack, limit) == shown + (rendering(
            nodes,
            p,
            depth as nat,
            limit,
        ) + pending_lines(nodes, rest, limit)),
        pending_tasks_too_deep(nodes, stack, limit) == (too_deep(nodes, p, depth as nat, limit)
            || pending_tasks_too_deep(nodes, rest, limit)),
{
    let node = nodes[p.0->0 as int];
    let l = rendering(nodes, node.left, (depth + 1) as nat, limit);
    let r = rendering(nodes, node.right, (depth + 1) as nat, limit);
    let close = seq![RenderLine { depth, marker: Marker::Close }];
    let open = RenderLine { depth, marker: Marker::Open(node.val) };
    lemma_pending_lines_push(nodes, rest, Task::Close(depth), limit);
    if node.right.0 is Some {
        lemma_pending_lines_push(
            nodes,
            closing,
            Task::Visit(node.right, (depth + 1) as usize),
            limit,
        );
    }
    if node.left.0 is Some {
        lemma_pending_lines_push(nodes, middle, Task::Visit(node.left, (depth + 1) as usize), limit);
    }
    assert(pending_lines(nodes, closing, limit) =~= close + pending_lines(nodes, rest, limit));
    assert(pending_lines(nodes, middle, limit) =~= r + pending_lines(nodes, closing, limit));
    assert(pending_lines(nodes, stack, limit) =~= l + pending_lines(nodes, middle, limit));
    assert(rendering(nodes, p, depth as nat, limit) =~= seq![open] + l + r + close);
    assert(shown.push(open) + pending_lines(nodes, stack, limit) =~= shown + (rendering(
        nodes,
        p,
        depth as nat,
        limit,
    ) + pending_lines(nodes, rest, limit)));
    assert(!too_deep(nodes, Pointer(None), (depth + 1) as nat, limit));
}

/// The lines of the graph from `root` within the depth `limit`.
pub fn render_lines(graph: &NodeGraph, root: Pointer, limit: usize) -> (r: Result<
    Vec<RenderLine>,
    TraversalDepthExceeded,
>)
    requires
        graph.wf(),
        graph.holds(root),
    ensures
        match r {
            Ok(lines) => !too_deep(graph@, root, 0, limit as nat) && lines@ == rendering(
                graph@,
                root,
                0,
                limit as nat,
            ),
            Err(e) => too_deep(graph@, root, 0, limit as nat) && e.limit == limit,
        },
{
    let ghost all = rendering(graph@, root, 0, limit as nat);
    let mut lines: Vec<RenderLine> = Vec::new();
    let mut stack: Vec<Task> = Vec::new();
    if !root.is_none() {
        stack.push(Task::Visit(root, 0));
        proof {
            lemma_pending_lines_push(graph@, Seq::empty(), Task::Visit(root, 0), limit as nat);
            assert(stack@ =~= Seq::<Task>::empty().push(Task::Visit(root, 0)));
        }
    }
    assert(lines@ + pending_lines(graph@, stack@, limit as nat) =~= all);
    while stack.len() > 0
        invariant
            graph.wf(),
            all == rendering(graph@, root, 0, limit as nat),
            forall|k: int|
                0 <= k < stack@.len() ==> match #[trigger] stack@[k] {
                    Task::Visit(p, depth) => p.0 is Some && graph.holds(p) && depth <= limit,
                    Task::Close(depth) => depth <= limit,
                },
            lines@ + pending_lines(graph@, stack@, limit as nat) == all,
            too_deep(graph@, root, 0, limit as nat) == pending_tasks_too_deep(
                graph@,
                stack@,
                limit as nat,
            ),
        decreases all.len() - lines@.len(),
    {
        let ghost before = stack@;
        let ghost shown = lines@;
        let task = stack.pop().unwrap();
        let ghost rest = stack@;
        proof {
            assert(before =~= rest.push(task));
            lemma_pending_lines_push(graph@, rest, task, limit as nat);
        }
        match task {
            Task::Close(depth) => {
                lines.push(RenderLine { depth, marker: Marker::Close });
                assert(lines@ + pending_lines(graph@, stack@, limit as nat) =~= all);
            },
            Task::Visit(p, depth) => {
                let node: Node = *p.as_ref(graph);
                lines.push(RenderLine { depth, marker: Marker::Open(node.val) });
                stack.push(Task::Close(depth));
                let ghost closing = stack@;
                if depth < limit {
                    if !node.right.is_none() {
                        stack.push(Task::Visit(node.right, depth + 1));
                    }
                    let ghost middle = stack@;
                    if !node.left.is_none() {
                        stack.push(Task::Visit(node.left, depth + 1));
                    }
                    proof {
                        lemma_visit_step(
                            graph@,
                            shown,
                            rest,
                            closing,
                            middle,
                            stack@,
                            p,
                            depth,
                            limit as nat,
                        );
                    }
                } else if !node.left.is_none() || !node.right.is_none() {
                    return Err(TraversalDepthExceeded { limit });
                } else {
                    proof {
                        lemma_pending_lines_push(graph@, rest, Task::Close(depth), limit as nat);
                        assert(lines@ + pending_lines(graph@, stack@, limit as nat) =~= all);
                        assert(!too_deep(graph@, p, depth as nat, limit as nat));
                    }
                }
            },
        }
    }
    assert(lines@ =~= all);
    Ok(lines)
}

/// The one-character text of the digit `d`.
fn digit_str(d: u8) -> (s: &'static str)
    requires
        d < 10,
    ensures
        s@ == seq![digit_char(d as nat)],
{
    proof {
        reveal_strlit("0");
        reveal_strlit("1");
        reveal_strlit("2");
        reveal_strlit("3");
        reveal_strlit("4");
        reveal_strlit("5");
        reveal_strlit("6");
        reveal_strlit("7");
        reveal_strlit("8");
        reveal_strlit("9");
    }
    let s = match d {
        0 => "0",
        1 => "1",
        2 => "2",
        3 => "3",
        4 => "4",
        5 => "5",
        6 => "6",
        7 => "7",
        8 => "8",
        _ => "9",
    };
    assert(s@ =~= seq![digit_char(d as nat)]);
    s
}

/// Appends the digits of `n` to `out`.
fn push_decimal(out: &mut String, n: u128)
    ensures
        final(out)@ == old(out)@ + decimal_digits(n as nat),
    decreases n,
{
    if n >= 10 {
        push_decimal(out, n / 10);
    }
    out.append(digit_str((n % 10) as u8));
    assert(out@ =~= old(out)@ + decimal_digits(n as nat));
}

/// Appends the text of `v` to `out`.
pub fn push_integer(out: &mut String, v: i128)
    ensures
        final(out)@ == old(out)@ + integer_text(v as int),
{
    if v < 0 {
        proof {
            reveal_strlit("-");
        }
        out.append("-");
        let magnitude: u128 = (-(v + 1)) as u128 + 1;
        push_decimal(out, magnitude);
        assert(out@ =~= old(out)@ + integer_text(v as int));
    } else {
        push_decimal(out, v as u128);
    }
}

/// Appends the text of `line` to `out`.
pub fn push_line(out: &mut String, line: &RenderLine)
    requires
        4 * line.depth <= usize::MAX,
    ensures
        final(out)@ == old(out)@ + line_text(*line),
{
    proof {
        reveal_strlit("[");
        reveal_strlit(" \n");
        reveal_strlit("]\n");
    }
    let width: usize = 4 * line.depth;
    let mut i: usize = 0;
    while i < width
        invariant
            i <= width,
            out@ == old(out)@ + spaces(i as nat),
        decreases width - i,
    {
        proof {
            reveal_strlit(" ");
        }
        out.append(" ");
        i += 1;
        assert(out@ =~= old(out)@ + spaces(i as nat));
    }
    match line.marker {
        Marker::Open(id) => {
            out.append("[");
            push_integer(out, id);
            out.append(" \n");
            assert(out@ =~= old(out)@ + line_text(*line));
        },
        Marker::Close => {
            out.append("]\n");
            assert(out@ =~= old(out)@ + line_text(*line));
        },
    }
}

/// The text of `lines`.
pub fn render_text(lines: &Vec<RenderLine>) -> (text: String)
    requires
        forall|k: int| 0 <= k < lines@.len() ==> 4 * (#[trigger] lines@[k]).depth <= usize::MAX,
    ensures
        text@ == text_of(lines@),
{
    let mut text = String::new();
    let mut i: usize = 0;
    while i < lines.len()
        invariant
            i <= lines.len(),
            forall|k: int|
                0 <= k < lines@.len() ==> 4 * (#[trigger] lines@[k]).depth <= usize::MAX,
            text@ == text_of(lines@.take(i as int)),
        decreases lines.len() - i,
    {
        assert(lines@.take(i + 1).drop_last() =~= lines@.take(i as int));
        push_line(&mut text, &lines[i]);
        i += 1;
    }
    assert(lines@.take(i as int) =~= lines@);
    text
}

} // verus!
