//! The textual description of a graph and the edge list that it declares.
//!
//! A description is read line by line. The first line holds one integer `N`,
//! the number of nodes; the node with identity `N` is the root. Every further
//! line holds two integers, the identities of the left and of the right child
//! of the node whose identity is the line's index plus one; `-1` stands for
//! "no child". Node `1` has no line of its own: unless `N` is zero, the first
//! line declares it, without children.

use crate::text::{integers, read_integers};
use vstd::prelude::*;

verus! {

/// The identity that stands for "no child" in an edge description.
pub const NO_CHILD: i128 = -1;

/// One declaration: a node's identity, then the identities of its left and
/// of its right child.
pub type EdgeDescription = (i128, i128, i128);

/// Why a description could not be loaded.
#[derive(Clone, Copy, Debug, PartialEq, Eq, Structural)]
pub enum LoadError {
    /// The line with this index (the first line has index 0) does not hold
    /// the integers that its place asks for.
    ParseError { line: usize },
    /// The node `from_id` names the child `missing_id`, which nothing
    /// declares.
    UnresolvedReferenceError { from_id: i128, missing_id: i128 },
    /// Nothing declares the node that is to be the root.
    MissingRootError,
}

/// An edge list: the identity of the root and the declarations, in order.
#[derive(Debug)]
pub struct DagFileData {
    pub num_nodes: i128,
    pub nodes: Vec<EdgeDescription>,
}

/// The mathematical content of a [`DagFileData`].
pub ghost struct Description {
    pub num_nodes: i128,
    pub nodes: Seq<EdgeDescription>,
}

impl View for DagFileData {
    type V = Description;

    open spec fn view(&self) -> Description {
        Description { num_nodes: self.num_nodes, nodes: self.nodes@ }
    }
}

/// The character sequences of `lines`.
pub open spec fn line_views(lines: Seq<String>) -> Seq<Seq<char>> {
    Seq::new(lines.len(), |i: int| lines[i]@)
}

/// Whether `line` may stand at index `i`: it holds one integer if `i` is 0,
/// two otherwise.
pub open spec fn well_formed_line(i: int, line: Seq<char>) -> bool {
    match integers(line) {
        Some(fields) => fields.len() == if i == 0 {
            1nat
        } else {
            2nat
        },
        None => false,
    }
}

/// The index of the first line among the first `upto` that is not well
/// formed.
pub open spec fn first_malformed(lines: Seq<Seq<char>>, upto: int) -> Option<int>
    decreases upto,
{
    if upto <= 0 {
        None
    } else {
        match first_malformed(lines, upto - 1) {
            Some(i) => Some(i),
            None => if well_formed_line(upto - 1, lines[upto - 1]) {
                None
            } else {
                Some(upto - 1)
            },
        }
    }
}

/// The declaration that line `i` (not the first) makes.
pub open spec fn line_edge(lines: Seq<Seq<char>>, i: int) -> EdgeDescription {
    let fields = integers(lines[i])->0;
    ((i + 1) as i128, fields[0], fields[1])
}

/// The declaration of node 1 that a first line with the count `n` makes.
pub open spec fn implied_leaf(n: i128) -> Seq<EdgeDescription> {
    if n != 0 {
        seq![(1i128, NO_CHILD, NO_CHILD)]
    } else {
        Seq::empty()
    }
}

/// The declarations of the lines `1..upto`, but for the root's own line.
pub open spec fn body_edges(lines: Seq<Seq<char>>, n: i128, upto: int) -> Seq<EdgeDescription>
    decreases upto,
{
    if upto <= 1 {
        Seq::empty()
    } else if upto == n {
        body_edges(lines, n, upto - 1)
    } else {
        body_edges(lines, n, upto - 1).push(line_edge(lines, upto - 1))
    }
}

/// The declaration of the root `n`, if one of the lines `1..upto` makes it.
pub open spec fn root_edge(lines: Seq<Seq<char>>, n: i128, upto: int) -> Option<EdgeDescription> {
    if 2 <= n <= upto {
        Some(line_edge(lines, n - 1))
    } else {
        None
    }
}

/// The edge list that `lines` describe: node 1, then the nodes of the
/// further lines in order, the root last; or the first line in error.
/// No lines at all describe no nodes.
pub open spec fn parse_description(lines: Seq<Seq<char>>) -> Result<Description, LoadError> {
    match first_malformed(lines, lines.len() as int) {
        Some(i) => Err(LoadError::ParseError { line: i as usize }),
        None => if lines.len() == 0 {
            Ok(Description { num_nodes: 0, nodes: Seq::empty() })
        } else {
            let n = integers(lines[0])->0[0];
            let len = lines.len() as int;
            Ok(
                Description {
                    num_nodes: n,
                    nodes: implied_leaf(n) + body_edges(lines, n, len) + match root_edge(
                        lines,
                        n,
                        len,
                    ) {
                        Some(e) => seq![e],
                        None => Seq::empty(),
                    },
                },
            )
        },
    }
}

impl DagFileData {
    /// Reads the edge list that `lines` describe.
    pub fn from_lines(lines: &Vec<String>) -> (r: Result<DagFileData, LoadError>)
        ensures
            match r {
                Ok(data) => parse_description(line_views(lines@)) == Ok::<Description, LoadError>(
                    data@,
                ),
                Err(e) => parse_description(line_views(lines@)) == Err::<Description, LoadError>(e),
            },
    {
        let ghost texts = line_views(lines@);
        let mut nodes: Vec<EdgeDescription> = Vec::new();
        let mut own: Option<EdgeDescription> = None;
        let mut n: i128 = 0;
        let mut i: usize = 0;
        while i < lines.len()
            invariant
                i <= lines.len(),
                texts == line_views(lines@),
                first_malformed(texts, i as int) is None,
                i > 0 ==> n == integers(texts[0])->0[0],
                i == 0 ==> n == 0 && nodes@ == Seq::<EdgeDescription>::empty(),
                i > 0 ==> nodes@ == implied_leaf(n) + body_edges(texts, n, i as int),
                own == root_edge(texts, n, i as int),
            decreases lines.len() - i,
        {
            assert(texts[i as int] == lines@[i as int]@);
            let fields: Vec<i128> = match read_integers(lines[i].as_str()) {
                Some(fields) => fields,
                None => {
                    proof {
                        lemma_first_malformed_stays(texts, i + 1, texts.len() as int);
                    }
                    return Err(LoadError::ParseError { line: i });
                },
            };
            if i == 0 {
                if fields.len() != 1 {
                    proof {
                        lemma_first_malformed_stays(texts, i + 1, texts.len() as int);
                    }
                    return Err(LoadError::ParseError { line: i });
                }
                n = fields[0];
                if n != 0 {
                    nodes.push((1, NO_CHILD, NO_CHILD));
                }
                assert(nodes@ =~= implied_leaf(n) + body_edges(texts, n, 1));
            } else {
                if fields.len() != 2 {
                    proof {
                        lemma_first_malformed_stays(texts, i + 1, texts.len() as int);
                    }
                    return Err(LoadError::ParseError { line: i });
                }
                let id: i128 = i as i128 + 1;
                if id == n {
                    own = Some((n, fields[0], fields[1]));
                } else {
                    nodes.push((id, fields[0], fields[1]));
                    assert(nodes@ =~= implied_leaf(n) + body_edges(texts, n, i + 1));
                }
            }
            i += 1;
        }
        if let Some(e) = own {
            nodes.push(e);
        }
        assert(nodes@ =~= parse_description(texts)->Ok_0.nodes);
        Ok(DagFileData { num_nodes: n, nodes })
    }
}

/// Once a line is found malformed, looking at more lines finds the same one.
pub proof fn lemma_first_malformed_stays(lines: Seq<Seq<char>>, upto: int, later: int)
    requires
        first_malformed(lines, upto) is Some,
        upto <= later,
    ensures
        first_malformed(lines, later) == first_malformed(lines, upto),
    decreases later - upto,
{
    if upto < later {
        lemma_first_malformed_stays(lines, upto, later - 1);
    }
}

} // verus!
