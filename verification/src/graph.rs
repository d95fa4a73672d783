//! Port types of the triple store: query results, edge directions and
//! graph statistics.

use vstd::prelude::*;

use std::collections::HashMap;

use crate::edge::RelationType;
use crate::node::NodeType;

verus! {

/// The bindings a SELECT query produced: one map from variable name to
/// value for each solution row.
#[derive(Debug)]
pub struct QueryResult {
    /// The solution rows, in match order.
    pub bindings: Vec<HashMap<String, String>>,
}

impl QueryResult {
    /// An empty result.
    pub fn new() -> (r: QueryResult)
        ensures
            r.bindings@.len() == 0,
    {
        QueryResult { bindings: Vec::new() }
    }

    /// Append one solution row.
    pub fn add_binding(&mut self, binding: HashMap<String, String>)
        ensures
            final(self).bindings@ == old(self).bindings@.push(binding),
    {
        self.bindings.push(binding);
    }

    /// Whether the result holds no rows.
    pub fn is_empty(&self) -> (r: bool)
        ensures
            r == (self.bindings@.len() == 0),
    {
        self.bindings.len() == 0
    }

    /// The number of rows.
    pub fn len(&self) -> (r: usize)
        ensures
            r == self.bindings@.len(),
    {
        self.bindings.len()
    }
}

impl Default for QueryResult {
    /// An empty result.
    fn default() -> (r: Self)
        ensures
            r.bindings@.len() == 0,
    {
        QueryResult { bindings: Vec::new() }
    }
}

/// Which edges of a node a lookup asks for.
#[derive(Debug, Clone, Copy, PartialEq, Eq, Structural)]
pub enum EdgeDirection {
    /// Edges leaving the node.
    Outgoing,
    /// Edges entering the node.
    Incoming,
    /// Both directions.
    Both,
}

impl Default for EdgeDirection {
    /// The default direction is `Outgoing`.
    fn default() -> (r: Self)
        ensures
            r == EdgeDirection::Outgoing,
    {
        EdgeDirection::Outgoing
    }
}

/// Counts over the live graph.
#[derive(Debug)]
pub struct GraphStats {
    /// How many nodes the graph holds.
    pub node_count: usize,
    /// How many edges the graph holds.
    pub edge_count: usize,
    /// How many nodes of each present type, in vocabulary order.
    pub node_type_counts: Vec<(NodeType, usize)>,
    /// How many edges of each present relation, in vocabulary order.
    pub relation_counts: Vec<(RelationType, usize)>,
}

impl GraphStats {
    /// Empty statistics.
    pub fn new() -> (r: GraphStats)
        ensures
            r.node_count == 0,
            r.edge_count == 0,
            r.node_type_counts@.len() == 0,
            r.relation_counts@.len() == 0,
    {
        GraphStats {
            node_count: 0,
            edge_count: 0,
            node_type_counts: Vec::new(),
            relation_counts: Vec::new(),
        }
    }
}

impl Clone for GraphStats {
    /// A clone carries the same counts.
    fn clone(&self) -> (r: Self)
        ensures
            r.node_count == self.node_count,
            r.edge_count == self.edge_count,
            r.node_type_counts@ == self.node_type_counts@,
            r.relation_counts@ == self.relation_counts@,
    {
        let mut ntc: Vec<(NodeType, usize)> = Vec::new();
        let mut i: usize = 0;
        while i < self.node_type_counts.len()
            invariant
                i <= self.node_type_counts@.len(),
                ntc@ == self.node_type_counts@.take(i as int),
            decreases self.node_type_counts.len() - i,
        {
            ntc.push(self.node_type_counts[i]);
            proof {
                assert(self.node_type_counts@.take(i + 1 as int) =~= self.node_type_counts@.take(
                    i as int,
                ).push(self.node_type_counts@[i as int]));
            }
            i = i + 1;
        }
        let mut rc: Vec<(RelationType, usize)> = Vec::new();
        let mut j: usize = 0;
        while j < self.relation_counts.len()
            invariant
                j <= self.relation_counts@.len(),
                rc@ == self.relation_counts@.take(j as int),
            decreases self.relation_counts.len() - j,
        {
            rc.push(self.relation_counts[j]);
            proof {
                assert(self.relation_counts@.take(j + 1 as int) =~= self.relation_counts@.take(
                    j as int,
                ).push(self.relation_counts@[j as int]));
            }
            j = j + 1;
        }
        proof {
            assert(self.node_type_counts@.take(self.node_type_counts@.len() as int) =~= self
                .node_type_counts@);
            assert(self.relation_counts@.take(self.relation_counts@.len() as int) =~= self
                .relation_counts@);
        }
        GraphStats {
            node_count: self.node_count,
            edge_count: self.edge_count,
            node_type_counts: ntc,
            relation_counts: rc,
        }
    }
}

impl Default for GraphStats {
    /// Empty statistics.
    fn default() -> (r: Self)
        ensures
            r.node_count == 0,
            r.edge_count == 0,
            r.node_type_counts@.len() == 0,
            r.relation_counts@.len() == 0,
    {
        GraphStats {
            node_count: 0,
            edge_count: 0,
            node_type_counts: Vec::new(),
            relation_counts: Vec::new(),
        }
    }
}

} // verus!
