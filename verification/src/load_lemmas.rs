//! Facts about descriptions and the graphs that they resolve to.

use crate::dag::{
    dangling_link, declared_ids, declares, last_dangling, lemma_declared_ids, link, load,
    named_child, resolve, resolved_nodes, slot_of, GraphView, Side,
};
use crate::loader::{
    body_edges, first_malformed, parse_description, well_formed_line, Description,
    EdgeDescription, LoadError, NO_CHILD,
};
use crate::node::{in_range, links_in_range, Pointer};
use crate::text::integers;
use vstd::prelude::*;

verus! {

/// Whether no declaration of `edges` names a child.
pub open spec fn without_links(edges: Seq<EdgeDescription>) -> bool {
    forall|i: int|
        0 <= i < edges.len() ==> (#[trigger] edges[i]).1 == NO_CHILD && edges[i].2 == NO_CHILD
}

/// Whether every child that a declaration of `edges` names is declared.
pub open spec fn links_declared(edges: Seq<EdgeDescription>) -> bool {
    forall|i: int| 0 <= i < edges.len() ==> dangling_link(edges, #[trigger] edges[i]) is None
}

/// Where every named child is declared, no link dangles.
pub proof fn lemma_no_dangling(edges: Seq<EdgeDescription>, upto: int)
    requires
        links_declared(edges),
        upto <= edges.len(),
    ensures
        last_dangling(edges, upto) is None,
    decreases upto,
{
    if upto > 0 {
        lemma_no_dangling(edges, upto - 1);
    }
}

/// Where no declaration names a child, no node has one.
pub proof fn lemma_no_link(edges: Seq<EdgeDescription>, id: i128, side: Side)
    requires
        without_links(edges),
    ensures
        link(edges, id, side) is None,
    decreases edges.len(),
{
    if edges.len() > 0 {
        assert(edges[0].1 == NO_CHILD && edges[0].2 == NO_CHILD);
        assert forall|i: int| 0 <= i < edges.drop_first().len() implies (
        #[trigger] edges.drop_first()[i]).1 == NO_CHILD && edges.drop_first()[i].2 == NO_CHILD by {
            assert(edges.drop_first()[i] == edges[i + 1]);
        }
        lemma_no_link(edges.drop_first(), id, side);
    }
}

/// The child of a node is one that a declaration names.
pub proof fn lemma_link_is_named(edges: Seq<EdgeDescription>, id: i128, side: Side)
    ensures
        link(edges, id, side) matches Some(c) ==> exists|i: int|
            0 <= i < edges.len() && (edges[i].1 == c || edges[i].2 == c) && c != NO_CHILD,
    decreases edges.len(),
{
    if edges.len() > 0 {
        if let Some(c) = link(edges, id, side) {
            if edges[0].0 == id && named_child(edges[0], side) != NO_CHILD {
                assert(edges[0].1 == c || edges[0].2 == c);
            } else {
                lemma_link_is_named(edges.drop_first(), id, side);
                let i = choose|i: int|
                    0 <= i < edges.drop_first().len() && (edges.drop_first()[i].1 == c
                        || edges.drop_first()[i].2 == c) && c != NO_CHILD;
                assert(edges.drop_first()[i] == edges[i + 1]);
                assert(edges[i + 1].1 == c || edges[i + 1].2 == c);
            }
        }
    }
}

/// The child of a node is one that a declaration names, so where no link
/// dangles it is declared.
pub proof fn lemma_link_is_declared(edges: Seq<EdgeDescription>, id: i128, side: Side)
    requires
        links_declared(edges),
    ensures
        link(edges, id, side) matches Some(c) ==> declared_ids(edges).contains(c) && 0 <= slot_of(
            declared_ids(edges),
            c,
        ) < declared_ids(edges).len(),
{
    lemma_declared_ids(edges);
    lemma_link_is_named(edges, id, side);
    if let Some(c) = link(edges, id, side) {
        let i = choose|i: int|
            0 <= i < edges.len() && (edges[i].1 == c || edges[i].2 == c) && c != NO_CHILD;
        assert(dangling_link(edges, edges[i]) is None);
        assert(declares(edges, c));
    }
}

/// A description whose named children are all declared, and whose root is
/// declared unless it declares nothing, describes a graph: a child may be
/// shared, may be an ancestor of its parent, or the parent itself. The links
/// of that graph stay inside it.
pub proof fn lemma_resolves_when_declared(d: Description)
    requires
        links_declared(d.nodes),
        d.nodes.len() > 0 ==> declares(d.nodes, d.num_nodes),
        d.nodes.len() <= usize::MAX,
    ensures
        resolve(d) is Ok,
        links_in_range(resolve(d)->Ok_0.nodes),
        in_range(resolve(d)->Ok_0.root, resolve(d)->Ok_0.nodes.len()),
{
    let edges = d.nodes;
    let ids = declared_ids(edges);
    lemma_no_dangling(edges, edges.len() as int);
    lemma_declared_ids(edges);
    if edges.len() > 0 {
        let nodes = resolved_nodes(edges);
        assert forall|s: int| 0 <= s < nodes.len() implies in_range(
            #[trigger] nodes[s].left,
            nodes.len(),
        ) && in_range(nodes[s].right, nodes.len()) by {
            lemma_link_is_declared(edges, ids[s], Side::Left);
            lemma_link_is_declared(edges, ids[s], Side::Right);
        }
        assert(ids.contains(d.num_nodes));
    }
}

/// Lines that are all well formed have no first malformed line.
pub proof fn lemma_all_well_formed(texts: Seq<Seq<char>>, upto: int)
    requires
        forall|i: int| 0 <= i < upto ==> well_formed_line(i, #[trigger] texts[i]),
    ensures
        first_malformed(texts, upto) is None,
    decreases upto,
{
    if upto > 0 {
        lemma_all_well_formed(texts, upto - 1);
    }
}

/// Lines that name no child declare nodes without links: one for each line
/// but the root's own.
pub proof fn lemma_body_edges_unlinked(texts: Seq<Seq<char>>, n: i128, upto: int)
    requires
        1 <= upto,
        forall|i: int|
            1 <= i < upto ==> integers(#[trigger] texts[i]) == Some(seq![NO_CHILD, NO_CHILD]),
    ensures
        without_links(body_edges(texts, n, upto)),
        body_edges(texts, n, upto).len() == if 2 <= n <= upto {
            upto - 2
        } else {
            upto - 1
        },
    decreases upto,
{
    if upto > 1 {
        lemma_body_edges_unlinked(texts, n, upto - 1);
        if upto != n {
            let before = body_edges(texts, n, upto - 1);
            let all = body_edges(texts, n, upto);
            assert(integers(texts[upto - 1]) == Some(seq![NO_CHILD, NO_CHILD]));
            assert forall|i: int| 0 <= i < all.len() implies (#[trigger] all[i]).1 == NO_CHILD
                && all[i].2 == NO_CHILD by {
                if i < before.len() {
                    assert(all[i] == before[i]);
                }
            }
        }
    }
}

/// Lines that declare nothing, none at all or a first line alone with the
/// count 0, describe the empty graph.
pub proof fn lemma_empty_input_empty_graph(texts: Seq<Seq<char>>)
    requires
        texts.len() == 0 || (texts.len() == 1 && integers(texts[0]) == Some(
            seq![0i128],
        )),
    ensures
        load(texts) == Ok::<GraphView, LoadError>(
            GraphView { nodes: Seq::empty(), root: Pointer(None) },
        ),
{
    if texts.len() == 1 {
        assert(first_malformed(texts, 0) is None);
        assert(first_malformed(texts, 1) is None);
        let d = parse_description(texts)->Ok_0;
        assert(body_edges(texts, 0, 1) =~= Seq::<EdgeDescription>::empty());
        assert(d.nodes =~= Seq::<EdgeDescription>::empty());
    }
}

} // verus!
