//! The statistics report and the interface of what can be measured.
//!
//! An average is kept as the two integers it is made of, the sum and the
//! count: nothing is rounded. Its value is their quotient, and 0 where the
//! count is 0.

use crate::traverse::{levels, seq_sum, TraversalDepthExceeded};
use vstd::prelude::*;

verus! {

/// An average: a sum and the number of items it was taken over.
#[derive(Clone, Copy, Debug, PartialEq, Eq, Structural)]
pub struct Average {
    pub total: u128,
    pub count: u128,
}

/// The statistics of a graph. A field that was not computed is `None`.
#[derive(Clone, Copy, Debug, PartialEq, Eq, Structural)]
pub struct DAGStatsData {
    pub average_depth: Option<Average>,
    pub average_nodes_per_depth: Option<Average>,
    pub average_in_references: Option<Average>,
    pub max_depth: Option<usize>,
    pub nodes_count: Option<usize>,
    pub edges_count: Option<usize>,
    pub nodes_with_no_incoming_edges: Option<usize>,
    pub isolated_nodes_count: Option<usize>,
}

/// The report in which nothing was computed.
pub open spec fn empty_report() -> DAGStatsData {
    DAGStatsData {
        average_depth: None,
        average_nodes_per_depth: None,
        average_in_references: None,
        max_depth: None,
        nodes_count: None,
        edges_count: None,
        nodes_with_no_incoming_edges: None,
        isolated_nodes_count: None,
    }
}

impl Average {
    /// Whether the value of the average is 0.
    pub open spec fn is_zero(&self) -> bool {
        self.total == 0 || self.count == 0
    }

    /// Whether the value of the average is 1.
    pub open spec fn is_one(&self) -> bool {
        self.total == self.count && self.count > 0
    }
}

impl DAGStatsData {
    /// The report in which nothing was computed.
    pub fn new() -> (data: DAGStatsData)
        ensures
            data == empty_report(),
    {
        DAGStatsData {
            average_depth: None,
            average_nodes_per_depth: None,
            average_in_references: None,
            max_depth: None,
            nodes_count: None,
            edges_count: None,
            nodes_with_no_incoming_edges: None,
            isolated_nodes_count: None,
        }
    }
}

impl Default for DAGStatsData {
    fn default() -> (data: DAGStatsData)
        ensures
            data == empty_report(),
    {
        DAGStatsData::new()
    }
}

/// Builds a report field by field.
pub struct DAGStatsBuilder {
    stats: DAGStatsData,
}

impl View for DAGStatsBuilder {
    type V = DAGStatsData;

    closed spec fn view(&self) -> DAGStatsData {
        self.stats
    }
}

impl DAGStatsBuilder {
    /// A builder with no field set.
    pub fn new() -> (builder: DAGStatsBuilder)
        ensures
            builder@ == empty_report(),
    {
        DAGStatsBuilder { stats: DAGStatsData::new() }
    }

    /// Sets the average depth and leaves the other fields as they are.
    pub fn set_average_depth(&mut self, depth: Average) -> (ret: &mut Self)
        ensures
            ret@ == (DAGStatsData { average_depth: Some(depth), ..old(self)@ }),
            *final(self) == *final(ret),
    {
        self.stats.average_depth = Some(depth);
        self
    }

    /// Sets the average number of nodes per depth level and leaves the other
    /// fields as they are.
    pub fn set_average_nodes_per_depth(&mut self, nodes_per_depth: Average) -> (ret: &mut Self)
        ensures
            ret@ == (DAGStatsData { average_nodes_per_depth: Some(nodes_per_depth), ..old(self)@ }),
            *final(self) == *final(ret),
    {
        self.stats.average_nodes_per_depth = Some(nodes_per_depth);
        self
    }

    /// Sets the average number of references and leaves the other fields as
    /// they are.
    pub fn set_average_in_references(&mut self, in_references: Average) -> (ret: &mut Self)
        ensures
            ret@ == (DAGStatsData { average_in_references: Some(in_references), ..old(self)@ }),
            *final(self) == *final(ret),
    {
        self.stats.average_in_references = Some(in_references);
        self
    }

    /// Sets the maximum depth and leaves the other fields as they are.
    pub fn set_max_depth(&mut self, max_depth: usize) -> (ret: &mut Self)
        ensures
            ret@ == (DAGStatsData { max_depth: Some(max_depth), ..old(self)@ }),
            *final(self) == *final(ret),
    {
        self.stats.max_depth = Some(max_depth);
        self
    }

    /// Sets the number of nodes and leaves the other fields as they are.
    pub fn set_nodes_count(&mut self, nodes_count: usize) -> (ret: &mut Self)
        ensures
            ret@ == (DAGStatsData { nodes_count: Some(nodes_count), ..old(self)@ }),
            *final(self) == *final(ret),
    {
        self.stats.nodes_count = Some(nodes_count);
        self
    }

    /// Sets the number of edges and leaves the other fields as they are.
    pub fn set_edges_count(&mut self, edges_count: usize) -> (ret: &mut Self)
        ensures
            ret@ == (DAGStatsData { edges_count: Some(edges_count), ..old(self)@ }),
            *final(self) == *final(ret),
    {
        self.stats.edges_count = Some(edges_count);
        self
    }

    /// Sets the number of nodes without an incoming edge and leaves the other
    /// fields as they are.
    pub fn set_nodes_with_no_incoming_edges(&mut self, no_incoming_edges: usize) -> (ret: &mut Self)
        ensures
            ret@ == (DAGStatsData {
                nodes_with_no_incoming_edges: Some(no_incoming_edges),
                ..old(self)@
            }),
            *final(self) == *final(ret),
    {
        self.stats.nodes_with_no_incoming_edges = Some(no_incoming_edges);
        self
    }

    /// Sets the number of isolated nodes and leaves the other fields as they
    /// are.
    pub fn set_isolated_nodes_count(&mut self, isolated_nodes_count: usize) -> (ret: &mut Self)
        ensures
            ret@ == (DAGStatsData { isolated_nodes_count: Some(isolated_nodes_count), ..old(self)@ }),
            *final(self) == *final(ret),
    {
        self.stats.isolated_nodes_count = Some(isolated_nodes_count);
        self
    }

    /// The report as it stands.
    pub fn build(&self) -> (data: DAGStatsData)
        ensures
            data == self@,
    {
        self.stats
    }
}

/// Whether `a` is the average depth of the visits `depths`: their sum over
/// their number.
pub open spec fn is_average_depth(depths: Seq<nat>, a: Average) -> bool {
    a.total == seq_sum(depths) && a.count == depths.len()
}

/// Whether `a` is the average number of visits per depth level: the number of
/// visits over the number of levels.
pub open spec fn is_average_nodes_per_depth(depths: Seq<nat>, a: Average) -> bool {
    a.total == depths.len() && a.count == levels(depths)
}

/// Whether `a` is the average number of references: for the root, one plus
/// the references counted for the children that the walk visits, which is the
/// number of visits; over the number of visits.
pub open spec fn is_average_in_references(depths: Seq<nat>, a: Average) -> bool {
    a.total == depths.len() && a.count == depths.len()
}

/// Whether `data` is the report of a walk with the visits `depths`: the three
/// averages and the maximum depth, the root counting as depth 1; the counts
/// of nodes and edges are not computed.
pub open spec fn is_report(depths: Seq<nat>, data: DAGStatsData) -> bool {
    &&& data.average_depth matches Some(a) && is_average_depth(depths, a)
    &&& data.average_nodes_per_depth matches Some(a) && is_average_nodes_per_depth(depths, a)
    &&& data.average_in_references matches Some(a) && is_average_in_references(depths, a)
    &&& data.max_depth matches Some(m) && m == levels(depths)
    &&& data.nodes_count is None
    &&& data.edges_count is None
    &&& data.nodes_with_no_incoming_edges is None
    &&& data.isolated_nodes_count is None
}

/// Whether `r` is the outcome of the report of a walk with the visits
/// `depths` under the depth `limit`: the report, unless the limit is
/// exceeded.
pub open spec fn is_calculation(
    depths: Seq<nat>,
    exceeded: bool,
    limit: usize,
    r: Result<DAGStatsData, TraversalDepthExceeded>,
) -> bool {
    match r {
        Ok(data) => !exceeded && is_report(depths, data),
        Err(e) => exceeded && e.limit == limit,
    }
}

/// What can be measured by a walk from a root.
pub trait DAGStats {
    /// Whether the value is fit for a walk.
    spec fn walkable(&self) -> bool;

    /// The depth limit of the walk.
    spec fn walk_limit(&self) -> usize;

    /// The depths of the visits of the walk, in order.
    spec fn visit_depths(&self) -> Seq<nat>;

    /// Whether the walk meets a link that leads deeper than the limit.
    spec fn limit_exceeded(&self) -> bool;

    /// The report of the walk: the averages and the maximum depth.
    fn calculate(&self) -> (r: Result<DAGStatsData, TraversalDepthExceeded>)
        requires
            self.walkable(),
        ensures
            is_calculation(self.visit_depths(), self.limit_exceeded(), self.walk_limit(), r),
    ;

    /// The average depth of a visit, the root being at depth 0.
    fn get_average_depth(&self) -> (r: Result<Average, TraversalDepthExceeded>)
        requires
            self.walkable(),
        ensures
            match r {
                Ok(a) => !self.limit_exceeded() && is_average_depth(self.visit_depths(), a),
                Err(e) => self.limit_exceeded() && e.limit == self.walk_limit(),
            },
    ;

    /// The average number of visits per depth level.
    fn get_average_nodes_per_depth(&self) -> (r: Result<Average, TraversalDepthExceeded>)
        requires
            self.walkable(),
        ensures
            match r {
                Ok(a) => !self.limit_exceeded() && is_average_nodes_per_depth(
                    self.visit_depths(),
                    a,
                ),
                Err(e) => self.limit_exceeded() && e.limit == self.walk_limit(),
            },
    ;

    /// The average number of references per visit.
    fn get_average_in_references(&self) -> (r: Result<Average, TraversalDepthExceeded>)
        requires
            self.walkable(),
        ensures
            match r {
                Ok(a) => !self.limit_exceeded() && is_average_in_references(
                    self.visit_depths(),
                    a,
                ),
                Err(e) => self.limit_exceeded() && e.limit == self.walk_limit(),
            },
    ;

    /// The greatest depth of a visit, the root being at depth 1; 0 without a
    /// visit.
    fn get_max_depth(&self) -> (r: Result<usize, TraversalDepthExceeded>)
        requires
            self.walkable(),
        ensures
            match r {
                Ok(m) => !self.limit_exceeded() && m == levels(self.visit_depths()),
                Err(e) => self.limit_exceeded() && e.limit == self.walk_limit(),
            },
    ;

    /// Not computed: always 0.
    fn get_nodes_count(&self) -> (n: usize)
        ensures
            n == 0,
    ;

    /// Not computed: always 0.
    fn get_edges_count(&self) -> (n: usize)
        ensures
            n == 0,
    ;

    /// Not computed: always 0.
    fn get_nodes_with_no_incoming_edges(&self) -> (n: usize)
        ensures
            n == 0,
    ;

    /// Not computed: always 0.
    fn get_isolated_nodes_count(&self) -> (n: usize)
        ensures
            n == 0,
    ;
}

} // verus!
