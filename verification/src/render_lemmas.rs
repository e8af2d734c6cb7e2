//! Facts about renderings: what can be read back from them.

use crate::node::{in_range, links_in_range, Node, Pointer};
use crate::render::{
    decimal_digits, integer_text, line_text, rendering, spaces, text_of, Marker, RenderLine,
};
use crate::text::{all_digits, decimal_value, digit_value, is_digit, parse_i128};
use vstd::prelude::*;

verus! {

/// The links that a reader finds in the lines of a rendering by their
/// indentation alone: an opening line at a depth above 0 is the child of the
/// node that was last opened one level higher. `open_at` holds, by depth, the
/// identities of the nodes that were last opened.
pub open spec fn links_read(lines: Seq<RenderLine>, open_at: Seq<i128>) -> Seq<(i128, i128)>
    decreases lines.len(),
{
    if lines.len() == 0 {
        Seq::empty()
    } else {
        let depth = lines[0].depth as int;
        match lines[0].marker {
            Marker::Close => links_read(lines.drop_first(), open_at),
            Marker::Open(id) => link_found(open_at, depth, id) + links_read(
                lines.drop_first(),
                open_at.take(depth).push(id),
            ),
        }
    }
}

/// The links that the walk follows from `p`, each as the identities of the
/// parent and of the child, in the order of the walk. `parent` is the
/// identity of the node from which `p` was reached, if it was reached from
/// one.
pub open spec fn links_walked(
    nodes: Seq<Node>,
    p: Pointer,
    depth: nat,
    limit: nat,
    parent: Option<i128>,
) -> Seq<(i128, i128)>
    decreases limit - depth,
{
    match p.0 {
        None => Seq::empty(),
        Some(slot) => {
            let val = nodes[slot as int].val;
            let own = match parent {
                Some(v) => seq![(v, val)],
                None => Seq::empty(),
            };
            if depth < limit {
                own + links_walked(nodes, nodes[slot as int].left, depth + 1, limit, Some(val))
                    + links_walked(nodes, nodes[slot as int].right, depth + 1, limit, Some(val))
            } else {
                own
            }
        },
    }
}

/// The link that a reader finds at an opening line of `id` at `depth`.
pub open spec fn link_found(open_at: Seq<i128>, depth: int, id: i128) -> Seq<(i128, i128)> {
    if 0 < depth <= open_at.len() {
        seq![(open_at[depth - 1], id)]
    } else {
        Seq::empty()
    }
}

/// The rendering of a node begins with its opening line; its children and
/// its closing line follow.
proof fn lemma_rendering_unfolds(
    nodes: Seq<Node>,
    p: Pointer,
    depth: nat,
    limit: nat,
    tail: Seq<RenderLine>,
)
    requires
        p.0 is Some,
        depth <= limit,
    ensures
        (rendering(nodes, p, depth, limit) + tail).len() > 0,
        (rendering(nodes, p, depth, limit) + tail)[0] == (RenderLine {
            depth: depth as usize,
            marker: Marker::Open(nodes[p.0->0 as int].val),
        }),
        (rendering(nodes, p, depth, limit) + tail).drop_first() == if depth < limit {
            rendering(nodes, nodes[p.0->0 as int].left, depth + 1, limit) + (rendering(
                nodes,
                nodes[p.0->0 as int].right,
                depth + 1,
                limit,
            ) + (seq![RenderLine { depth: depth as usize, marker: Marker::Close }] + tail))
        } else {
            seq![RenderLine { depth: depth as usize, marker: Marker::Close }] + tail
        },
        (seq![RenderLine { depth: depth as usize, marker: Marker::Close }] + tail).drop_first()
            == tail,
{
    let own = rendering(nodes, p, depth, limit);
    let close = seq![RenderLine { depth: depth as usize, marker: Marker::Close }];
    assert((close + tail).drop_first() =~= tail);
    if depth < limit {
        let l = rendering(nodes, nodes[p.0->0 as int].left, depth + 1, limit);
        let r = rendering(nodes, nodes[p.0->0 as int].right, depth + 1, limit);
        assert((own + tail).drop_first() =~= l + (r + (close + tail)));
    } else {
        assert((own + tail).drop_first() =~= close + tail);
    }
}

/// What the reader knows after a subtree: the open nodes above it are those
/// it knew before.
proof fn lemma_open_nodes_kept(
    open_at: Seq<i128>,
    opened: Seq<i128>,
    after_left: Seq<i128>,
    after_right: Seq<i128>,
    depth: int,
    val: i128,
)
    requires
        0 <= depth <= open_at.len(),
        opened == open_at.take(depth).push(val),
        after_left.len() >= depth + 1,
        after_right.len() >= depth + 1,
        after_left.take(depth + 1) == opened.take(depth + 1),
        after_right.take(depth + 1) == after_left.take(depth + 1),
    ensures
        after_left[depth] == val,
        opened[depth] == val,
        opened.take(depth) == open_at.take(depth),
        after_right.take(depth) == open_at.take(depth),
{
    assert(opened.take(depth + 1) =~= opened);
    assert(after_left[depth] == after_left.take(depth + 1)[depth]);
    assert(opened.take(depth) =~= open_at.take(depth));
    assert(after_right.take(depth) =~= after_right.take(depth + 1).take(depth));
    assert(after_left.take(depth) =~= after_left.take(depth + 1).take(depth));
}

/// Reading the rendering of `p`, followed by any other lines, finds the
/// links that the walk follows from `p`, and goes on with the other lines
/// knowing the same open nodes above `depth` as before.
pub proof fn lemma_links_read_back(
    nodes: Seq<Node>,
    p: Pointer,
    depth: nat,
    limit: nat,
    tail: Seq<RenderLine>,
    open_at: Seq<i128>,
) -> (after: Seq<i128>)
    requires
        depth <= limit <= usize::MAX,
        depth <= open_at.len(),
    ensures
        links_read(rendering(nodes, p, depth, limit) + tail, open_at) == links_walked(
            nodes,
            p,
            depth,
            limit,
            if depth > 0 {
                Some(open_at[depth - 1])
            } else {
                None
            },
        ) + links_read(tail, after),
        after.len() >= depth,
        after.take(depth as int) == open_at.take(depth as int),
    decreases limit - depth,
{
    let own = rendering(nodes, p, depth, limit);
    let parent = if depth > 0 {
        Some(open_at[depth - 1])
    } else {
        None
    };
    let walked = links_walked(nodes, p, depth, limit, parent);
    if p.0 is None {
        assert(own + tail =~= tail);
        assert(walked + links_read(tail, open_at) =~= links_read(tail, open_at));
        open_at
    } else {
        let node = nodes[p.0->0 as int];
        let close = seq![RenderLine { depth: depth as usize, marker: Marker::Close }];
        let opened = open_at.take(depth as int).push(node.val);
        let found = link_found(open_at, depth as int, node.val);
        lemma_rendering_unfolds(nodes, p, depth, limit, tail);
        assert(links_read(own + tail, open_at) == found + links_read(
            (own + tail).drop_first(),
            opened,
        ));
        assert(links_read(close + tail, opened) == links_read(tail, opened));
        if depth < limit {
            let l = rendering(nodes, node.left, depth + 1, limit);
            let r = rendering(nodes, node.right, depth + 1, limit);
            let wl = links_walked(nodes, node.left, depth + 1, limit, Some(node.val));
            let wr = links_walked(nodes, node.right, depth + 1, limit, Some(node.val));
            let after_left = lemma_links_read_back(
                nodes,
                node.left,
                depth + 1,
                limit,
                r + (close + tail),
                opened,
            );
            let after_right = lemma_links_read_back(
                nodes,
                node.right,
                depth + 1,
                limit,
                close + tail,
                after_left,
            );
            lemma_open_nodes_kept(open_at, opened, after_left, after_right, depth as int, node.val);
            assert(links_read(close + tail, after_right) == links_read(tail, after_right));
            assert(walked == found + wl + wr);
            assert(found + (wl + (wr + links_read(tail, after_right))) =~= (found + wl + wr)
                + links_read(tail, after_right));
            after_right
        } else {
            assert(walked == found);
            assert(opened.take(depth as int) =~= open_at.take(depth as int));
            opened
        }
    }
}

/// Reading the rendering of a graph back by its indentation gives the
/// parent and child identities of the links that the walk follows, in the
/// same order.
pub proof fn lemma_rendering_gives_back_links(nodes: Seq<Node>, root: Pointer, limit: nat)
    requires
        limit <= usize::MAX,
    ensures
        links_read(rendering(nodes, root, 0, limit), Seq::empty()) == links_walked(
            nodes,
            root,
            0,
            limit,
            None,
        ),
{
    let lines = rendering(nodes, root, 0, limit);
    let after = lemma_links_read_back(nodes, root, 0, limit, Seq::empty(), Seq::empty());
    assert(lines + Seq::<RenderLine>::empty() =~= lines);
}

/// Whether `pair` holds the identity of `node` and that of one of its
/// children.
pub open spec fn is_child_pair(nodes: Seq<Node>, node: Node, pair: (i128, i128)) -> bool {
    &&& pair.0 == node.val
    &&& (node.left.0 matches Some(c) && pair.1 == nodes[c as int].val) || (node.right.0 matches Some(
        c,
    ) && pair.1 == nodes[c as int].val)
}

/// Whether `pair` holds the identities of a node of the graph and of one of
/// its children.
pub open spec fn is_link(nodes: Seq<Node>, pair: (i128, i128)) -> bool {
    exists|s: int| 0 <= s < nodes.len() && is_child_pair(nodes, #[trigger] nodes[s], pair)
}

/// Every link that the walk follows is a link of the graph.
pub proof fn lemma_links_walked_are_links(
    nodes: Seq<Node>,
    p: Pointer,
    depth: nat,
    limit: nat,
    parent: Option<i128>,
)
    requires
        links_in_range(nodes),
        in_range(p, nodes.len()),
        depth <= limit,
        parent is Some && p.0 is Some ==> is_link(
            nodes,
            (parent->0, nodes[p.0->0 as int].val),
        ),
    ensures
        forall|k: int|
            0 <= k < links_walked(nodes, p, depth, limit, parent).len() ==> is_link(
                nodes,
                #[trigger] links_walked(nodes, p, depth, limit, parent)[k],
            ),
    decreases limit - depth,
{
    let all = links_walked(nodes, p, depth, limit, parent);
    if let Some(slot) = p.0 {
        let node = nodes[slot as int];
        let own = match parent {
            Some(v) => seq![(v, node.val)],
            None => Seq::empty(),
        };
        if depth < limit {
            let wl = links_walked(nodes, node.left, depth + 1, limit, Some(node.val));
            let wr = links_walked(nodes, node.right, depth + 1, limit, Some(node.val));
            assert(in_range(node.left, nodes.len()) && in_range(node.right, nodes.len()));
            if let Some(c) = node.left.0 {
                assert(is_child_pair(nodes, nodes[slot as int], (node.val, nodes[c as int].val)));
            }
            if let Some(c) = node.right.0 {
                assert(is_child_pair(nodes, nodes[slot as int], (node.val, nodes[c as int].val)));
            }
            lemma_links_walked_are_links(nodes, node.left, depth + 1, limit, Some(node.val));
            lemma_links_walked_are_links(nodes, node.right, depth + 1, limit, Some(node.val));
            assert(all =~= own + wl + wr);
            assert forall|k: int| 0 <= k < all.len() implies is_link(nodes, #[trigger] all[k]) by {
                if k < own.len() {
                    assert(all[k] == own[k]);
                } else if k < own.len() + wl.len() {
                    assert(all[k] == wl[k - own.len()]);
                } else {
                    assert(all[k] == wr[k - own.len() - wl.len()]);
                }
            }
        } else {
            assert(all =~= own);
        }
    }
}

/// Every link that is read back from the rendering of a graph is a link of
/// that graph.
pub proof fn lemma_links_read_are_links(nodes: Seq<Node>, root: Pointer, limit: nat)
    requires
        links_in_range(nodes),
        in_range(root, nodes.len()),
        limit <= usize::MAX,
    ensures
        forall|k: int|
            0 <= k < links_read(rendering(nodes, root, 0, limit), Seq::empty()).len() ==> is_link(
                nodes,
                #[trigger] links_read(rendering(nodes, root, 0, limit), Seq::empty())[k],
            ),
{
    lemma_rendering_gives_back_links(nodes, root, limit);
    lemma_links_walked_are_links(nodes, root, 0, limit, None);
}

/// The digits written for a number are digits, at least one, and denote
/// that number.
pub proof fn lemma_decimal_digits_denote(n: nat)
    ensures
        decimal_digits(n).len() > 0,
        all_digits(decimal_digits(n)),
        decimal_value(decimal_digits(n)) == n,
    decreases n,
{
    let digits = decimal_digits(n);
    if n < 10 {
        assert(digits.drop_last() =~= Seq::<char>::empty());
        assert(decimal_value(digits.drop_last()) == 0);
        assert(digit_value(digits.last()) == n);
    } else {
        lemma_decimal_digits_denote(n / 10);
        assert(digits.drop_last() =~= decimal_digits(n / 10));
        assert(digit_value(digits.last()) == n % 10);
        assert forall|i: int| 0 <= i < digits.len() implies is_digit(#[trigger] digits[i]) by {
            if i < digits.len() - 1 {
                assert(digits[i] == decimal_digits(n / 10)[i]);
            }
        }
    }
}

/// The text that is written for an identity reads back as that identity.
pub proof fn lemma_integer_text_reads_back(v: i128)
    ensures
        parse_i128(integer_text(v as int)) == Some(v),
{
    let text = integer_text(v as int);
    if v < 0 {
        let digits = decimal_digits((-v) as nat);
        lemma_decimal_digits_denote((-v) as nat);
        assert(text[0] == '-');
        assert(text.skip(1) =~= digits);
    } else {
        let digits = decimal_digits(v as nat);
        lemma_decimal_digits_denote(v as nat);
        assert(is_digit(digits[0]));
        assert(text.skip(0) =~= digits);
    }
}

/// Whether `t` is one line of text: it ends with a line end and holds no
/// other.
pub open spec fn is_text_line(t: Seq<char>) -> bool {
    &&& t.len() > 0
    &&& t.last() == '\n'
    &&& forall|i: int| 0 <= i < t.len() - 1 ==> t[i] != '\n'
}

/// The text of an integer holds a `-` and digits only.
pub proof fn lemma_integer_text_chars(v: int)
    ensures
        integer_text(v).len() > 0,
        forall|i: int|
            0 <= i < integer_text(v).len() ==> is_digit(#[trigger] integer_text(v)[i])
                || integer_text(v)[i] == '-',
{
    if v < 0 {
        lemma_decimal_digits_denote((-v) as nat);
        let digits = decimal_digits((-v) as nat);
        assert forall|i: int| 0 <= i < integer_text(v).len() implies is_digit(
            #[trigger] integer_text(v)[i],
        ) || integer_text(v)[i] == '-' by {
            if i > 0 {
                assert(integer_text(v)[i] == digits[i - 1]);
            }
        }
    } else {
        lemma_decimal_digits_denote(v as nat);
    }
}

/// The text of a line of a rendering is one line of text. Its indentation is
/// followed by `[` or `]`.
pub proof fn lemma_line_text_shape(line: RenderLine)
    ensures
        is_text_line(line_text(line)),
        line_text(line).len() > 4 * line.depth,
        forall|i: int| 0 <= i < 4 * line.depth ==> line_text(line)[i] == ' ',
        line_text(line)[4 * line.depth] == match line.marker {
            Marker::Open(_) => '[',
            Marker::Close => ']',
        },
{
    let t = line_text(line);
    let indent = spaces((4 * line.depth) as nat);
    match line.marker {
        Marker::Open(id) => {
            let number = integer_text(id as int);
            lemma_integer_text_chars(id as int);
            assert(t =~= indent + (seq!['['] + number + seq![' ', '\n']));
            assert forall|i: int| 0 <= i < t.len() - 1 implies t[i] != '\n' by {
                if i < indent.len() {
                    assert(t[i] == ' ');
                } else if i == indent.len() {
                    assert(t[i] == '[');
                } else if i < indent.len() + 1 + number.len() {
                    assert(t[i] == number[i - indent.len() - 1]);
                } else {
                    assert(t[i] == ' ');
                }
            }
            assert(t[4 * line.depth] == '[');
        },
        Marker::Close => {
            assert(t =~= indent + seq![']', '\n']);
            assert forall|i: int| 0 <= i < t.len() - 1 implies t[i] != '\n' by {
                if i < indent.len() {
                    assert(t[i] == ' ');
                } else {
                    assert(t[i] == ']');
                }
            }
            assert(t[4 * line.depth] == ']');
        },
    }
}

/// Two lines of a rendering with the same text are the same line.
pub proof fn lemma_line_text_determines_line(a: RenderLine, b: RenderLine)
    requires
        line_text(a) == line_text(b),
    ensures
        a == b,
{
    let t = line_text(a);
    lemma_line_text_shape(a);
    lemma_line_text_shape(b);
    if a.depth < b.depth {
        assert(t[4 * a.depth] == ' ');
    }
    if b.depth < a.depth {
        assert(t[4 * b.depth] == ' ');
    }
    assert(a.depth == b.depth);
    let indent = spaces((4 * a.depth) as nat);
    match (a.marker, b.marker) {
        (Marker::Open(x), Marker::Open(y)) => {
            let tx = integer_text(x as int);
            let ty = integer_text(y as int);
            assert(line_text(a) =~= indent + (seq!['['] + tx + seq![' ', '\n']));
            assert(line_text(b) =~= indent + (seq!['['] + ty + seq![' ', '\n']));
            assert(tx.len() == ty.len());
            assert forall|i: int| 0 <= i < tx.len() implies tx[i] == ty[i] by {
                assert(line_text(a)[indent.len() + 1 + i] == tx[i]);
                assert(line_text(b)[indent.len() + 1 + i] == ty[i]);
            }
            assert(tx =~= ty);
            lemma_integer_text_reads_back(x);
            lemma_integer_text_reads_back(y);
        },
        (Marker::Close, Marker::Close) => {},
        _ => {},
    }
}

/// The text of a rendering is empty if there is no line, and ends with a
/// line end otherwise.
pub proof fn lemma_text_of_ends(lines: Seq<RenderLine>)
    ensures
        lines.len() == 0 <==> text_of(lines).len() == 0,
        lines.len() > 0 ==> text_of(lines).last() == '\n',
{
    if lines.len() > 0 {
        lemma_line_text_shape(lines.last());
    }
}

/// A text that ends with a given line of text has that line as its last, and
/// what comes before it is determined too.
pub proof fn lemma_last_line_determined(x: Seq<char>, a: Seq<char>, y: Seq<char>, b: Seq<char>)
    requires
        is_text_line(a),
        is_text_line(b),
        x.len() == 0 || x.last() == '\n',
        y.len() == 0 || y.last() == '\n',
        x + a == y + b,
    ensures
        a == b,
        x == y,
{
    let t = x + a;
    assert(t.len() == x.len() + a.len());
    assert(t.len() == y.len() + b.len());
    if a.len() < b.len() {
        let k = x.len() - 1;
        assert(t[k] == x[k]);
        assert(t[k] == b[k - y.len()]);
    }
    if b.len() < a.len() {
        let k = y.len() - 1;
        assert((y + b)[k] == y[k]);
        assert(t[k] == a[k - x.len()]);
    }
    assert(a.len() == b.len());
    assert forall|i: int| 0 <= i < a.len() implies a[i] == b[i] by {
        assert(t[x.len() + i] == a[i]);
        assert((y + b)[y.len() + i] == b[i]);
    }
    assert(a =~= b);
    assert forall|i: int| 0 <= i < x.len() implies x[i] == y[i] by {
        assert(t[i] == x[i]);
        assert((y + b)[i] == y[i]);
    }
    assert(x =~= y);
}

/// The text of a rendering determines its lines: from the text, each line's
/// depth and the identity it shows can be read back.
pub proof fn lemma_text_determines_lines(first: Seq<RenderLine>, second: Seq<RenderLine>)
    requires
        text_of(first) == text_of(second),
    ensures
        first == second,
    decreases first.len(),
{
    lemma_text_of_ends(first);
    lemma_text_of_ends(second);
    if first.len() > 0 {
        lemma_text_of_ends(first.drop_last());
        lemma_text_of_ends(second.drop_last());
        lemma_line_text_shape(first.last());
        lemma_line_text_shape(second.last());
        lemma_last_line_determined(
            text_of(first.drop_last()),
            line_text(first.last()),
            text_of(second.drop_last()),
            line_text(second.last()),
        );
        lemma_line_text_determines_line(first.last(), second.last());
        lemma_text_determines_lines(first.drop_last(), second.drop_last());
        assert(first =~= first.drop_last().push(first.last()));
        assert(second =~= second.drop_last().push(second.last()));
    } else {
        assert(first =~= second);
    }
}

} // verus!
