//! The in-memory triple-store adapter: node and edge records under the
//! store's integrity invariant, with the port operations the rest of the
//! engine uses.
//!
//! The invariant: node and edge IRIs are unique, every edge's strength
//! and confidence lie in [0, 1], and every edge leaves an existing node.
//! A dangling edge target is allowed; a full reindex is the repair tool.

use vstd::prelude::*;

use crate::edge::{Edge, EdgeFilter, EdgeSource, EdgeView, RelationType};
use crate::errors::RepoError;
use crate::node::{Node, NodeType, NodeView};

verus! {

/// The index of the first node with the given IRI at or after `i`, or the
/// length.
pub open spec fn node_find(nodes: Seq<NodeView>, id: Seq<char>, i: int) -> int
    decreases nodes.len() - i,
{
    if i < 0 || i >= nodes.len() {
        nodes.len() as int
    } else if nodes[i].id == id {
        i
    } else {
        node_find(nodes, id, i + 1)
    }
}

/// Whether some node carries the IRI.
pub open spec fn has_node_id(nodes: Seq<NodeView>, id: Seq<char>) -> bool {
    exists|i: int| 0 <= i < nodes.len() && (#[trigger] nodes[i]).id == id
}

/// The index of the first edge with the given IRI at or after `i`, or the
/// length.
pub open spec fn edge_find(edges: Seq<EdgeView>, id: Seq<char>, i: int) -> int
    decreases edges.len() - i,
{
    if i < 0 || i >= edges.len() {
        edges.len() as int
    } else if edges[i].id == id {
        i
    } else {
        edge_find(edges, id, i + 1)
    }
}

/// Whether some edge carries the IRI.
pub open spec fn has_edge_id(edges: Seq<EdgeView>, id: Seq<char>) -> bool {
    exists|i: int| 0 <= i < edges.len() && (#[trigger] edges[i]).id == id
}

/// The nodes with every record of the given IRI removed.
pub open spec fn nodes_without(nodes: Seq<NodeView>, id: Seq<char>) -> Seq<NodeView> {
    nodes.filter(|n: NodeView| n.id != id)
}

/// The edges with every record leaving the given node removed.
pub open spec fn edges_without_from(edges: Seq<EdgeView>, id: Seq<char>) -> Seq<EdgeView> {
    edges.filter(|e: EdgeView| e.from != id)
}

/// The edges with every record of the given IRI removed.
pub open spec fn edges_without_id(edges: Seq<EdgeView>, id: Seq<char>) -> Seq<EdgeView> {
    edges.filter(|e: EdgeView| e.id != id)
}

/// The node list after an idempotent add: a record with the same IRI is
/// overwritten in place, a new IRI is appended.
pub open spec fn nodes_after_add(nodes: Seq<NodeView>, n: NodeView) -> Seq<NodeView> {
    let k = node_find(nodes, n.id, 0);
    if k < nodes.len() {
        nodes.update(k, n)
    } else {
        nodes.push(n)
    }
}

/// The edge list after an idempotent add of an already-clamped edge.
pub open spec fn edges_after_add(edges: Seq<EdgeView>, e: EdgeView) -> Seq<EdgeView> {
    let k = edge_find(edges, e.id, 0);
    if k < edges.len() {
        edges.update(k, e)
    } else {
        edges.push(e)
    }
}

/// An edge with its strength and confidence clamped into [0, 1].
pub open spec fn clamped_edge(e: EdgeView) -> EdgeView {
    EdgeView {
        strength: crate::strength::clamp_milli(e.strength),
        confidence: crate::strength::clamp_milli(e.confidence),
        ..e
    }
}

/// The concrete in-memory triple-store adapter: node and edge records of
/// the live graph.
#[derive(Debug)]
pub struct TripleStore {
    /// The node records, in insertion order.
    pub nodes: Vec<Node>,
    /// The edge records, in insertion order.
    pub edges: Vec<Edge>,
}

impl TripleStore {
    /// The node models.
    pub open spec fn nodes_view(self) -> Seq<NodeView> {
        self.nodes.deep_view()
    }

    /// The edge models.
    pub open spec fn edges_view(self) -> Seq<EdgeView> {
        self.edges.deep_view()
    }

    /// The store's integrity invariant: unique node IRIs, unique edge
    /// IRIs, clamped edge weights, and no edge leaving a missing node.
    pub open spec fn wf(self) -> bool {
        (forall|i: int, j: int|
            0 <= i < j < self.nodes_view().len() ==> (#[trigger] self.nodes_view()[i]).id != (
            #[trigger] self.nodes_view()[j]).id) && (forall|i: int, j: int|
            0 <= i < j < self.edges_view().len() ==> (#[trigger] self.edges_view()[i]).id != (
            #[trigger] self.edges_view()[j]).id) && (forall|i: int|
            0 <= i < self.edges_view().len() ==> (#[trigger] self.edges_view()[i]).in_range())
            && (forall|i: int|
            0 <= i < self.edges_view().len() ==> has_node_id(
                self.nodes_view(),
                (#[trigger] self.edges_view()[i]).from,
            ))
    }

    /// An empty store.
    pub fn new() -> (r: TripleStore)
        ensures
            r.wf(),
            r.nodes_view() =~= Seq::<NodeView>::empty(),
            r.edges_view() =~= Seq::<EdgeView>::empty(),
    {
        let r = TripleStore { nodes: Vec::new(), edges: Vec::new() };
        proof {
            assert(r.nodes_view() =~= Seq::<NodeView>::empty());
            assert(r.edges_view() =~= Seq::<EdgeView>::empty());
        }
        r
    }

    /// The index of the node with the given IRI, or the node count.
    fn node_index(&self, id: &str) -> (r: usize)
        ensures
            r as int == node_find(self.nodes_view(), id@, 0),
    {
        let ghost nv = self.nodes_view();
        let mut i: usize = 0;
        while i < self.nodes.len()
            invariant
                i <= self.nodes.len(),
                nv == self.nodes_view(),
                forall|k: int| 0 <= k < i ==> (#[trigger] nv[k]).id != id@,
            decreases self.nodes.len() - i,
        {
            let idv = crate::text::chars_of(id);
            let hit = crate::text::eq_str(&idv, self.nodes[i].id.as_str());
            proof {
                assert(self.nodes.deep_view()[i as int] == self.nodes@[i as int]@);
            }
            if hit {
                proof {
                    lemma_node_find_at(nv, id@, i as int);
                }
                return i;
            }
            i = i + 1;
        }
        proof {
            lemma_node_find_at(nv, id@, self.nodes@.len() as int);
        }
        self.nodes.len()
    }

    /// The index of the edge with the given IRI, or the edge count.
    fn edge_index(&self, id: &str) -> (r: usize)
        ensures
            r as int == edge_find(self.edges_view(), id@, 0),
    {
        let ghost ev = self.edges_view();
        let mut i: usize = 0;
        while i < self.edges.len()
            invariant
                i <= self.edges.len(),
                ev == self.edges_view(),
                forall|k: int| 0 <= k < i ==> (#[trigger] ev[k]).id != id@,
            decreases self.edges.len() - i,
        {
            let idv = crate::text::chars_of(id);
            let hit = crate::text::eq_str(&idv, self.edges[i].id.as_str());
            proof {
                assert(self.edges.deep_view()[i as int] == self.edges@[i as int]@);
            }
            if hit {
                proof {
                    lemma_edge_find_at(ev, id@, i as int);
                }
                return i;
            }
            i = i + 1;
        }
        proof {
            lemma_edge_find_at(ev, id@, self.edges@.len() as int);
        }
        self.edges.len()
    }

    /// Whether a node with the IRI exists.
    pub fn node_exists(&self, id: &str) -> (r: bool)
        ensures
            r == has_node_id(self.nodes_view(), id@),
    {
        let k = self.node_index(id);
        proof {
            lemma_node_find_props(self.nodes_view(), id@);
        }
        k < self.nodes.len()
    }

    /// Whether an edge with the IRI exists.
    pub fn edge_exists(&self, id: &str) -> (r: bool)
        ensures
            r == has_edge_id(self.edges_view(), id@),
    {
        let k = self.edge_index(id);
        proof {
            lemma_edge_find_props(self.edges_view(), id@);
        }
        k < self.edges.len()
    }

    /// Add a node: an idempotent replace — a record with the same IRI is
    /// overwritten, otherwise the node is appended.
    pub fn add_node(&mut self, node: &Node)
        requires
            old(self).wf(),
        ensures
            final(self).wf(),
            final(self).nodes_view() == nodes_after_add(old(self).nodes_view(), node@),
            final(self).edges_view() == old(self).edges_view(),
            has_node_id(final(self).nodes_view(), node@.id),
    {
        let ghost nv = self.nodes_view();
        let k = self.node_index(node.id.as_str());
        proof {
            lemma_node_find_props(nv, node@.id);
        }
        if k < self.nodes.len() {
            let ghost pre = self.nodes@;
            self.nodes.set(k, node.clone());
            proof {
                assert forall|q: int| 0 <= q < self.nodes@.len() implies #[trigger] self
                    .nodes_view()[q] == nv.update(k as int, node@)[q] by {
                    assert(self.nodes.deep_view()[q] == self.nodes@[q]@);
                    if q != k as int {
                        assert(self.nodes@[q] == pre[q]);
                        assert(nv[q] == pre[q]@);
                    }
                }
                assert(final(self).nodes_view() =~= nodes_after_add(nv, node@));
                lemma_same_ids_has(nv, final(self).nodes_view());
            }
        } else {
            let ghost pre = self.nodes@;
            self.nodes.push(node.clone());
            proof {
                assert forall|q: int| 0 <= q < self.nodes@.len() implies #[trigger] self
                    .nodes_view()[q] == nv.push(node@)[q] by {
                    assert(self.nodes.deep_view()[q] == self.nodes@[q]@);
                    if q < pre.len() {
                        assert(self.nodes@[q] == pre[q]);
                        assert(nv[q] == pre[q]@);
                    }
                }
                assert(final(self).nodes_view() =~= nodes_after_add(nv, node@));
                assert forall|i: int|
                    0 <= i < final(self).edges_view().len() implies has_node_id(
                    final(self).nodes_view(),
                    (#[trigger] final(self).edges_view()[i]).from,
                ) by {
                    let w = choose|w: int|
                        0 <= w < nv.len() && (#[trigger] nv[w]).id == final(self).edges_view()[
                            i].from;
                    assert(final(self).nodes_view()[w].id == final(self).edges_view()[i].from);
                }
                assert(final(self).nodes_view()[nv.len() as int].id == node@.id);
            }
        }
    }

    /// Look a node up by IRI.
    pub fn get_node(&self, id: &str) -> (r: Option<Node>)
        ensures
            match r {
                Some(n) => has_node_id(self.nodes_view(), id@) && n@ == self.nodes_view()[
                    node_find(self.nodes_view(), id@, 0)],
                None => !has_node_id(self.nodes_view(), id@),
            },
    {
        let k = self.node_index(id);
        proof {
            lemma_node_find_props(self.nodes_view(), id@);
        }
        if k < self.nodes.len() {
            proof {
                assert(self.nodes.deep_view()[k as int] == self.nodes@[k as int]@);
            }
            Some(self.nodes[k].clone())
        } else {
            None
        }
    }

    /// Look an edge up by IRI; a malformed IRI is refused.
    pub fn get_edge(&self, id: &str) -> (r: Result<Option<Edge>, RepoError>)
        ensures
            match r {
                Ok(Some(e)) => has_edge_id(self.edges_view(), id@) && e@ == self.edges_view()[
                    edge_find(self.edges_view(), id@, 0)],
                Ok(None) => !has_edge_id(self.edges_view(), id@),
                Err(err) => err is InvalidEdgeId && !"urn:memexia:edge:"@.is_prefix_of(id@),
            },
            r is Err <==> !"urn:memexia:edge:"@.is_prefix_of(id@),
    {
        let idv = crate::text::chars_of(id);
        if !crate::text::has_prefix(&idv, "urn:memexia:edge:") {
            return Err(RepoError::InvalidEdgeId(crate::text::string_from(&crate::text::chars_of(
                "edge id lacks the urn:memexia:edge: prefix",
            ))));
        }
        let k = self.edge_index(id);
        proof {
            lemma_edge_find_props(self.edges_view(), id@);
        }
        if k < self.edges.len() {
            proof {
                assert(self.edges.deep_view()[k as int] == self.edges@[k as int]@);
            }
            Ok(Some(self.edges[k].clone()))
        } else {
            Ok(None)
        }
    }

    /// Add an edge: the strength and confidence are clamped into [0, 1],
    /// a record with the same IRI is overwritten, and an edge leaving a
    /// missing node is refused.
    pub fn add_edge(&mut self, edge: &Edge) -> (r: Result<(), RepoError>)
        requires
            old(self).wf(),
        ensures
            final(self).wf(),
            final(self).nodes_view() == old(self).nodes_view(),
            match r {
                Ok(_) => has_node_id(old(self).nodes_view(), edge@.from)
                    && final(self).edges_view() == edges_after_add(
                    old(self).edges_view(),
                    clamped_edge(edge@),
                ),
                Err(err) => err is StoreFailure && !has_node_id(old(self).nodes_view(), edge@.from)
                    && final(self).edges_view() == old(self).edges_view(),
            },
            r is Ok <==> has_node_id(old(self).nodes_view(), edge@.from),
    {
        if !self.node_exists(edge.from.as_str()) {
            return Err(RepoError::StoreFailure(crate::text::string_from(&crate::text::chars_of(
                "edge source node does not exist",
            ))));
        }
        let mut e = edge.clone();
        let s = if e.strength > 1000 {
            1000
        } else {
            e.strength
        };
        let c = if e.confidence > 1000 {
            1000
        } else {
            e.confidence
        };
        e.strength = s;
        e.confidence = c;
        proof {
            assert(e@ =~= clamped_edge(edge@));
        }
        let ghost ev = self.edges_view();
        let k = self.edge_index(e.id.as_str());
        proof {
            lemma_edge_find_props(ev, e@.id);
        }
        if k < self.edges.len() {
            let ghost pre = self.edges@;
            self.edges.set(k, e);
            proof {
                assert forall|q: int| 0 <= q < self.edges@.len() implies #[trigger] self
                    .edges_view()[q] == ev.update(k as int, clamped_edge(edge@))[q] by {
                    assert(self.edges.deep_view()[q] == self.edges@[q]@);
                    if q != k as int {
                        assert(self.edges@[q] == pre[q]);
                        assert(ev[q] == pre[q]@);
                    }
                }
                assert(final(self).edges_view() =~= edges_after_add(ev, clamped_edge(edge@)));
            }
        } else {
            let ghost pre = self.edges@;
            self.edges.push(e);
            proof {
                assert forall|q: int| 0 <= q < self.edges@.len() implies #[trigger] self
                    .edges_view()[q] == ev.push(clamped_edge(edge@))[q] by {
                    assert(self.edges.deep_view()[q] == self.edges@[q]@);
                    if q < pre.len() {
                        assert(self.edges@[q] == pre[q]);
                        assert(ev[q] == pre[q]@);
                    }
                }
                assert(final(self).edges_view() =~= edges_after_add(ev, clamped_edge(edge@)));
            }
        }
        Ok(())
    }

    /// Delete a node: removes the record and every edge leaving it.
    /// Edges that point at the node are kept; the next reindex repairs
    /// them.
    #[verifier::loop_isolation(false)]
    pub fn delete_node(&mut self, id: &str)
        requires
            old(self).wf(),
        ensures
            final(self).wf(),
            final(self).nodes_view() == nodes_without(old(self).nodes_view(), id@),
            final(self).edges_view() == edges_without_from(old(self).edges_view(), id@),
    {
        let ghost nv = self.nodes_view();
        let ghost ev = self.edges_view();
        let idv = crate::text::chars_of(id);
        let mut kept: Vec<Node> = Vec::new();
        let mut i: usize = 0;
        while i < self.nodes.len()
            invariant
                i <= self.nodes.len(),
                nv == self.nodes_view(),
                kept.deep_view() == nodes_without(nv.take(i as int), id@),
            decreases self.nodes.len() - i,
        {
            let ghost kpre = kept.deep_view();
            let ghost kvpre = kept@;
            let hit = crate::text::eq_str(&idv, self.nodes[i].id.as_str());
            proof {
                assert(self.nodes.deep_view()[i as int] == self.nodes@[i as int]@);
                assert(nv.take(i + 1 as int).drop_last() =~= nv.take(i as int));
                assert(nv.take(i + 1 as int).last() == nv[i as int]);
                reveal(Seq::filter);
            }
            if !hit {
                kept.push(self.nodes[i].clone());
                proof {
                    assert forall|q: int| 0 <= q < kept@.len() implies #[trigger] kept.deep_view()[
                        q] == kpre.push(nv[i as int])[q] by {
                        assert(kept.deep_view()[q] == kept@[q]@);
                        if q < kvpre.len() {
                            assert(kept@[q] == kvpre[q]);
                            assert(kpre[q] == kvpre[q]@);
                        }
                    }
                    reveal(Seq::filter);
                    assert(kept.deep_view() =~= kpre.push(nv[i as int]));
                    assert(kept.deep_view() =~= nodes_without(nv.take(i + 1 as int), id@));
                }
            } else {
                proof {
                    reveal(Seq::filter);
                    assert(kept.deep_view() =~= nodes_without(nv.take(i + 1 as int), id@));
                }
            }
            i = i + 1;
        }
        proof {
            assert(nv.take(nv.len() as int) =~= nv);
        }
        self.nodes = kept;
        let mut ekept: Vec<Edge> = Vec::new();
        let mut j: usize = 0;
        while j < self.edges.len()
            invariant
                j <= self.edges.len(),
                ev == self.edges_view(),
                ekept.deep_view() == edges_without_from(ev.take(j as int), id@),
            decreases self.edges.len() - j,
        {
            let ghost kpre = ekept.deep_view();
            let ghost kvpre = ekept@;
            let hit = crate::text::eq_str(&idv, self.edges[j].from.as_str());
            proof {
                assert(self.edges.deep_view()[j as int] == self.edges@[j as int]@);
                assert(ev.take(j + 1 as int).drop_last() =~= ev.take(j as int));
                assert(ev.take(j + 1 as int).last() == ev[j as int]);
                reveal(Seq::filter);
            }
            if !hit {
                ekept.push(self.edges[j].clone());
                proof {
                    assert forall|q: int| 0 <= q < ekept@.len() implies #[trigger] ekept
                        .deep_view()[q] == kpre.push(ev[j as int])[q] by {
                        assert(ekept.deep_view()[q] == ekept@[q]@);
                        if q < kvpre.len() {
                            assert(ekept@[q] == kvpre[q]);
                            assert(kpre[q] == kvpre[q]@);
                        }
                    }
                    reveal(Seq::filter);
                    assert(ekept.deep_view() =~= kpre.push(ev[j as int]));
                    assert(ekept.deep_view() =~= edges_without_from(ev.take(j + 1 as int), id@));
                }
            } else {
                proof {
                    reveal(Seq::filter);
                    assert(ekept.deep_view() =~= edges_without_from(ev.take(j + 1 as int), id@));
                }
            }
            j = j + 1;
        }
        proof {
            assert(ev.take(ev.len() as int) =~= ev);
        }
        self.edges = ekept;
        proof {
            lemma_delete_node_wf(nv, ev, id@);
        }
    }

    /// Replace a node wholesale: the old record and its outgoing edges
    /// are removed, then the new record is added.
    pub fn update_node(&mut self, node: &Node)
        requires
            old(self).wf(),
        ensures
            final(self).wf(),
            final(self).nodes_view() == nodes_after_add(
                nodes_without(old(self).nodes_view(), node@.id),
                node@,
            ),
            final(self).edges_view() == edges_without_from(old(self).edges_view(), node@.id),
    {
        self.delete_node(node.id.as_str());
        self.add_node(node);
    }

    /// Delete an edge by IRI; a malformed IRI is refused.
    #[verifier::loop_isolation(false)]
    pub fn delete_edge(&mut self, id: &str) -> (r: Result<(), RepoError>)
        requires
            old(self).wf(),
        ensures
            final(self).wf(),
            final(self).nodes_view() == old(self).nodes_view(),
            match r {
                Ok(_) => "urn:memexia:edge:"@.is_prefix_of(id@) && final(self).edges_view()
                    == edges_without_id(old(self).edges_view(), id@),
                Err(err) => err is InvalidEdgeId && !"urn:memexia:edge:"@.is_prefix_of(id@)
                    && final(self).edges_view() == old(self).edges_view(),
            },
    {
        let idv = crate::text::chars_of(id);
        if !crate::text::has_prefix(&idv, "urn:memexia:edge:") {
            return Err(RepoError::InvalidEdgeId(crate::text::string_from(&crate::text::chars_of(
                "edge id lacks the urn:memexia:edge: prefix",
            ))));
        }
        let ghost ev = self.edges_view();
        let mut ekept: Vec<Edge> = Vec::new();
        let mut j: usize = 0;
        while j < self.edges.len()
            invariant
                j <= self.edges.len(),
                ev == self.edges_view(),
                ekept.deep_view() == edges_without_id(ev.take(j as int), id@),
            decreases self.edges.len() - j,
        {
            let ghost kpre = ekept.deep_view();
            let ghost kvpre = ekept@;
            let hit = crate::text::eq_str(&idv, self.edges[j].id.as_str());
            proof {
                assert(self.edges.deep_view()[j as int] == self.edges@[j as int]@);
                assert(ev.take(j + 1 as int).drop_last() =~= ev.take(j as int));
                assert(ev.take(j + 1 as int).last() == ev[j as int]);
                reveal(Seq::filter);
            }
            if !hit {
                ekept.push(self.edges[j].clone());
                proof {
                    assert forall|q: int| 0 <= q < ekept@.len() implies #[trigger] ekept
                        .deep_view()[q] == kpre.push(ev[j as int])[q] by {
                        assert(ekept.deep_view()[q] == ekept@[q]@);
                        if q < kvpre.len() {
                            assert(ekept@[q] == kvpre[q]);
                            assert(kpre[q] == kvpre[q]@);
                        }
                    }
                    reveal(Seq::filter);
                    assert(ekept.deep_view() =~= kpre.push(ev[j as int]));
                    assert(ekept.deep_view() =~= edges_without_id(ev.take(j + 1 as int), id@));
                }
            } else {
                proof {
                    reveal(Seq::filter);
                    assert(ekept.deep_view() =~= edges_without_id(ev.take(j + 1 as int), id@));
                }
            }
            j = j + 1;
        }
        proof {
            assert(ev.take(ev.len() as int) =~= ev);
        }
        self.edges = ekept;
        proof {
            lemma_filter_edges_wf(self.nodes_view(), ev, final(self).edges_view());
        }
        Ok(())
    }

    /// Delete an edge by IRI (an alias of `delete_edge`).
    pub fn remove_edge(&mut self, id: &str) -> (r: Result<(), RepoError>)
        requires
            old(self).wf(),
        ensures
            final(self).wf(),
            final(self).nodes_view() == old(self).nodes_view(),
            match r {
                Ok(_) => "urn:memexia:edge:"@.is_prefix_of(id@) && final(self).edges_view()
                    == edges_without_id(old(self).edges_view(), id@),
                Err(err) => err is InvalidEdgeId && !"urn:memexia:edge:"@.is_prefix_of(id@)
                    && final(self).edges_view() == old(self).edges_view(),
            },
    {
        self.delete_edge(id)
    }

    /// Every node, in insertion order.
    pub fn list_nodes(&self) -> (r: Vec<Node>)
        ensures
            r.deep_view() == self.nodes_view(),
    {
        clone_nodes(&self.nodes)
    }

    /// Every node, in insertion order (an alias of `list_nodes`).
    pub fn get_all_nodes(&self) -> (r: Vec<Node>)
        ensures
            r.deep_view() == self.nodes_view(),
    {
        clone_nodes(&self.nodes)
    }

    /// Every edge, in insertion order.
    pub fn list_edges(&self) -> (r: Vec<Edge>)
        ensures
            r.deep_view() == self.edges_view(),
    {
        clone_edges(&self.edges)
    }

    /// Every edge, in insertion order (an alias of `list_edges`).
    pub fn get_all_edges(&self) -> (r: Vec<Edge>)
        ensures
            r.deep_view() == self.edges_view(),
    {
        clone_edges(&self.edges)
    }
}

pub proof fn lemma_node_find_at(nodes: Seq<NodeView>, id: Seq<char>, a: int)
    requires
        0 <= a <= nodes.len(),
        forall|k: int| 0 <= k < a ==> (#[trigger] nodes[k]).id != id,
        a < nodes.len() ==> nodes[a].id == id,
    ensures
        node_find(nodes, id, 0) == if a < nodes.len() {
            a
        } else {
            nodes.len() as int
        },
{
    lemma_node_find_step(nodes, id, 0, a);
}

proof fn lemma_node_find_step(nodes: Seq<NodeView>, id: Seq<char>, lo: int, a: int)
    requires
        0 <= lo <= a <= nodes.len(),
        forall|k: int| lo <= k < a ==> (#[trigger] nodes[k]).id != id,
        a < nodes.len() ==> nodes[a].id == id,
    ensures
        node_find(nodes, id, lo) == if a < nodes.len() {
            a
        } else {
            nodes.len() as int
        },
    decreases a - lo,
{
    if lo < a {
        lemma_node_find_step(nodes, id, lo + 1, a);
    }
}

/// The basic facts about `node_find`: it stays in range, lands on the
/// IRI when one exists, and passes nothing by.
pub proof fn lemma_node_find_props(nodes: Seq<NodeView>, id: Seq<char>)
    ensures
        0 <= node_find(nodes, id, 0) <= nodes.len(),
        node_find(nodes, id, 0) < nodes.len() ==> nodes[node_find(nodes, id, 0)].id == id,
        (node_find(nodes, id, 0) < nodes.len()) == has_node_id(nodes, id),
{
    lemma_node_find_props_from(nodes, id, 0);
    if node_find(nodes, id, 0) < nodes.len() {
        assert(has_node_id(nodes, id)) by {
            assert(nodes[node_find(nodes, id, 0)].id == id);
        }
    } else {
        if has_node_id(nodes, id) {
            let w = choose|w: int| 0 <= w < nodes.len() && (#[trigger] nodes[w]).id == id;
            lemma_node_find_hits(nodes, id, 0, w);
        }
    }
}

proof fn lemma_node_find_props_from(nodes: Seq<NodeView>, id: Seq<char>, lo: int)
    requires
        0 <= lo <= nodes.len(),
    ensures
        lo <= node_find(nodes, id, lo) <= nodes.len(),
        node_find(nodes, id, lo) < nodes.len() ==> nodes[node_find(nodes, id, lo)].id == id,
    decreases nodes.len() - lo,
{
    if lo < nodes.len() && nodes[lo].id != id {
        lemma_node_find_props_from(nodes, id, lo + 1);
    }
}

proof fn lemma_node_find_hits(nodes: Seq<NodeView>, id: Seq<char>, lo: int, w: int)
    requires
        0 <= lo <= w < nodes.len(),
        nodes[w].id == id,
    ensures
        node_find(nodes, id, lo) < nodes.len(),
    decreases w - lo,
{
    if lo < w && nodes[lo].id != id {
        lemma_node_find_hits(nodes, id, lo + 1, w);
    }
}

pub proof fn lemma_edge_find_at(edges: Seq<EdgeView>, id: Seq<char>, a: int)
    requires
        0 <= a <= edges.len(),
        forall|k: int| 0 <= k < a ==> (#[trigger] edges[k]).id != id,
        a < edges.len() ==> edges[a].id == id,
    ensures
        edge_find(edges, id, 0) == if a < edges.len() {
            a
        } else {
            edges.len() as int
        },
{
    lemma_edge_find_step(edges, id, 0, a);
}

proof fn lemma_edge_find_step(edges: Seq<EdgeView>, id: Seq<char>, lo: int, a: int)
    requires
        0 <= lo <= a <= edges.len(),
        forall|k: int| lo <= k < a ==> (#[trigger] edges[k]).id != id,
        a < edges.len() ==> edges[a].id == id,
    ensures
        edge_find(edges, id, lo) == if a < edges.len() {
            a
        } else {
            edges.len() as int
        },
    decreases a - lo,
{
    if lo < a {
        lemma_edge_find_step(edges, id, lo + 1, a);
    }
}

/// The basic facts about `edge_find`.
pub proof fn lemma_edge_find_props(edges: Seq<EdgeView>, id: Seq<char>)
    ensures
        0 <= edge_find(edges, id, 0) <= edges.len(),
        edge_find(edges, id, 0) < edges.len() ==> edges[edge_find(edges, id, 0)].id == id,
        (edge_find(edges, id, 0) < edges.len()) == has_edge_id(edges, id),
{
    lemma_edge_find_props_from(edges, id, 0);
    if edge_find(edges, id, 0) < edges.len() {
        assert(has_edge_id(edges, id)) by {
            assert(edges[edge_find(edges, id, 0)].id == id);
        }
    } else {
        if has_edge_id(edges, id) {
            let w = choose|w: int| 0 <= w < edges.len() && (#[trigger] edges[w]).id == id;
            lemma_edge_find_hits(edges, id, 0, w);
        }
    }
}

proof fn lemma_edge_find_props_from(edges: Seq<EdgeView>, id: Seq<char>, lo: int)
    requires
        0 <= lo <= edges.len(),
    ensures
        lo <= edge_find(edges, id, lo) <= edges.len(),
        edge_find(edges, id, lo) < edges.len() ==> edges[edge_find(edges, id, lo)].id == id,
    decreases edges.len() - lo,
{
    if lo < edges.len() && edges[lo].id != id {
        lemma_edge_find_props_from(edges, id, lo + 1);
    }
}

proof fn lemma_edge_find_hits(edges: Seq<EdgeView>, id: Seq<char>, lo: int, w: int)
    requires
        0 <= lo <= w < edges.len(),
        edges[w].id == id,
    ensures
        edge_find(edges, id, lo) < edges.len(),
    decreases w - lo,
{
    if lo < w && edges[lo].id != id {
        lemma_edge_find_hits(edges, id, lo + 1, w);
    }
}

/// Two node lists with pointwise equal IRIs carry the same IRIs.
proof fn lemma_same_ids_has(a: Seq<NodeView>, b: Seq<NodeView>)
    requires
        a.len() == b.len(),
        forall|i: int| 0 <= i < a.len() ==> (#[trigger] a[i]).id == (#[trigger] b[i]).id,
    ensures
        forall|id: Seq<char>| has_node_id(a, id) == has_node_id(b, id),
{
    assert forall|id: Seq<char>| has_node_id(a, id) == has_node_id(b, id) by {
        if has_node_id(a, id) {
            let w = choose|w: int| 0 <= w < a.len() && (#[trigger] a[w]).id == id;
            assert(b[w].id == id);
        }
        if has_node_id(b, id) {
            let w = choose|w: int| 0 <= w < b.len() && (#[trigger] b[w]).id == id;
            assert(a[w].id == id);
        }
    }
}

/// Deleting a node keeps the store invariant: the kept nodes stay
/// unique, and every kept edge still leaves a kept node.
proof fn lemma_delete_node_wf(nv: Seq<NodeView>, ev: Seq<EdgeView>, id: Seq<char>)
    requires
        forall|i: int, j: int|
            0 <= i < j < nv.len() ==> (#[trigger] nv[i]).id != (#[trigger] nv[j]).id,
        forall|i: int, j: int|
            0 <= i < j < ev.len() ==> (#[trigger] ev[i]).id != (#[trigger] ev[j]).id,
        forall|i: int| 0 <= i < ev.len() ==> (#[trigger] ev[i]).in_range(),
        forall|i: int| 0 <= i < ev.len() ==> has_node_id(nv, (#[trigger] ev[i]).from),
    ensures
        ({
            let nv2 = nodes_without(nv, id);
            let ev2 = edges_without_from(ev, id);
            (forall|i: int, j: int|
                0 <= i < j < nv2.len() ==> (#[trigger] nv2[i]).id != (#[trigger] nv2[j]).id)
                && (forall|i: int, j: int|
                0 <= i < j < ev2.len() ==> (#[trigger] ev2[i]).id != (#[trigger] ev2[j]).id) && (
            forall|i: int| 0 <= i < ev2.len() ==> (#[trigger] ev2[i]).in_range()) && (forall|
                i: int,
            |
                0 <= i < ev2.len() ==> has_node_id(nv2, (#[trigger] ev2[i]).from))
        }),
{
    let nv2 = nodes_without(nv, id);
    let ev2 = edges_without_from(ev, id);
    lemma_filter_subset_nodes(nv, id);
    lemma_filter_subset_edges_from(ev, id);
    assert forall|i: int, j: int|
        0 <= i < j < nv2.len() implies (#[trigger] nv2[i]).id != (#[trigger] nv2[j]).id by {
        lemma_filter_distinct_nodes(nv, id, i, j);
    }
    assert forall|i: int, j: int|
        0 <= i < j < ev2.len() implies (#[trigger] ev2[i]).id != (#[trigger] ev2[j]).id by {
        lemma_filter_distinct_edges(ev, id, i, j);
    }
    assert forall|i: int| 0 <= i < ev2.len() implies (#[trigger] ev2[i]).in_range()
        && has_node_id(nv2, ev2[i].from) by {
        ev.lemma_filter_pred(|e: EdgeView| e.from != id, i);
        lemma_filter_contains_edge(ev, id, i);
        let w = choose|w: int| 0 <= w < ev.len() && ev[w] == ev2[i];
        assert(ev[w].in_range());
        assert(has_node_id(nv, ev[w].from));
        let u = choose|u: int| 0 <= u < nv.len() && (#[trigger] nv[u]).id == ev[w].from;
        // the from-node is not the deleted node, so it survives the filter
        assert(nv[u].id != id);
        lemma_filter_keeps_node(nv, id, u);
    }
}

proof fn lemma_filter_subset_nodes(nv: Seq<NodeView>, id: Seq<char>)
    ensures
        forall|i: int|
            0 <= i < nodes_without(nv, id).len() ==> nv.contains(
                #[trigger] nodes_without(nv, id)[i],
            ) && nodes_without(nv, id)[i].id != id,
    decreases nv.len(),
{
    reveal(Seq::filter);
    assert forall|i: int| 0 <= i < nodes_without(nv, id).len() implies nv.contains(
        #[trigger] nodes_without(nv, id)[i],
    ) && nodes_without(nv, id)[i].id != id by {
        nv.lemma_filter_pred(|n: NodeView| n.id != id, i);
        lemma_filter_contains_node(nv, id, i);
    }
}

proof fn lemma_filter_contains_node(nv: Seq<NodeView>, id: Seq<char>, i: int)
    requires
        0 <= i < nodes_without(nv, id).len(),
    ensures
        nv.contains(nodes_without(nv, id)[i]),
    decreases nv.len(),
{
    reveal(Seq::filter);
    if nv.len() > 0 {
        let pred = |n: NodeView| n.id != id;
        if i < nv.drop_last().filter(pred).len() {
            lemma_filter_contains_node(nv.drop_last(), id, i);
            assert(nv.drop_last().contains(nodes_without(nv, id)[i]));
            let w = choose|w: int|
                0 <= w < nv.drop_last().len() && nv.drop_last()[w] == nodes_without(nv, id)[i];
            assert(nv[w] == nodes_without(nv, id)[i]);
        } else {
            assert(nodes_without(nv, id)[i] == nv.last());
        }
    }
}

proof fn lemma_filter_distinct_nodes(nv: Seq<NodeView>, id: Seq<char>, i: int, j: int)
    requires
        forall|a: int, b: int|
            0 <= a < b < nv.len() ==> (#[trigger] nv[a]).id != (#[trigger] nv[b]).id,
        0 <= i < j < nodes_without(nv, id).len(),
    ensures
        nodes_without(nv, id)[i].id != nodes_without(nv, id)[j].id,
    decreases nv.len(),
{
    reveal(Seq::filter);
    let pred = |n: NodeView| n.id != id;
    if nv.len() > 0 {
        let fl = nv.drop_last().filter(pred);
        if j < fl.len() {
            assert(forall|a: int, b: int|
                0 <= a < b < nv.drop_last().len() ==> (#[trigger] nv.drop_last()[a]).id != (
                #[trigger] nv.drop_last()[b]).id);
            lemma_filter_distinct_nodes(nv.drop_last(), id, i, j);
        } else {
            // j is the appended last element
            lemma_filter_contains_node(nv, id, i);
            let w = choose|w: int| 0 <= w < nv.len() && nv[w] == nodes_without(nv, id)[i];
            assert(nodes_without(nv, id)[j] == nv.last());
            if w < nv.len() - 1 {
                assert(nv[w].id != nv[nv.len() - 1].id);
            } else {
                // i and j would both be the last element
                assert(i < fl.len());
                lemma_filter_contains_node(nv.drop_last(), id, i);
                let u = choose|u: int|
                    0 <= u < nv.drop_last().len() && nv.drop_last()[u] == fl[i];
                assert(nv[u] == nodes_without(nv, id)[i]);
                assert(nv[u].id != nv[nv.len() - 1].id);
            }
        }
    }
}

proof fn lemma_filter_subset_edges_from(ev: Seq<EdgeView>, id: Seq<char>)
    ensures
        forall|i: int|
            0 <= i < edges_without_from(ev, id).len() ==> ev.contains(
                #[trigger] edges_without_from(ev, id)[i],
            ),
{
    assert forall|i: int| 0 <= i < edges_without_from(ev, id).len() implies ev.contains(
        #[trigger] edges_without_from(ev, id)[i],
    ) by {
        lemma_filter_contains_edge(ev, id, i);
    }
}

proof fn lemma_filter_contains_edge(ev: Seq<EdgeView>, id: Seq<char>, i: int)
    requires
        0 <= i < edges_without_from(ev, id).len(),
    ensures
        ev.contains(edges_without_from(ev, id)[i]),
    decreases ev.len(),
{
    reveal(Seq::filter);
    if ev.len() > 0 {
        let pred = |e: EdgeView| e.from != id;
        if i < ev.drop_last().filter(pred).len() {
            lemma_filter_contains_edge(ev.drop_last(), id, i);
            let w = choose|w: int|
                0 <= w < ev.drop_last().len() && ev.drop_last()[w] == edges_without_from(
                    ev,
                    id,
                )[i];
            assert(ev[w] == edges_without_from(ev, id)[i]);
        } else {
            assert(edges_without_from(ev, id)[i] == ev.last());
        }
    }
}

proof fn lemma_filter_distinct_edges(ev: Seq<EdgeView>, id: Seq<char>, i: int, j: int)
    requires
        forall|a: int, b: int|
            0 <= a < b < ev.len() ==> (#[trigger] ev[a]).id != (#[trigger] ev[b]).id,
        0 <= i < j < edges_without_from(ev, id).len(),
    ensures
        edges_without_from(ev, id)[i].id != edges_without_from(ev, id)[j].id,
    decreases ev.len(),
{
    reveal(Seq::filter);
    let pred = |e: EdgeView| e.from != id;
    if ev.len() > 0 {
        let fl = ev.drop_last().filter(pred);
        if j < fl.len() {
            assert(forall|a: int, b: int|
                0 <= a < b < ev.drop_last().len() ==> (#[trigger] ev.drop_last()[a]).id != (
                #[trigger] ev.drop_last()[b]).id);
            lemma_filter_distinct_edges(ev.drop_last(), id, i, j);
        } else {
            lemma_filter_contains_edge(ev, id, i);
            let w = choose|w: int| 0 <= w < ev.len() && ev[w] == edges_without_from(ev, id)[i];
            assert(edges_without_from(ev, id)[j] == ev.last());
            if w < ev.len() - 1 {
                assert(ev[w].id != ev[ev.len() - 1].id);
            } else {
                assert(i < fl.len());
                lemma_filter_contains_edge(ev.drop_last(), id, i);
                let u = choose|u: int|
                    0 <= u < ev.drop_last().len() && ev.drop_last()[u] == fl[i];
                assert(ev[u] == edges_without_from(ev, id)[i]);
                assert(ev[u].id != ev[ev.len() - 1].id);
            }
        }
    }
}

proof fn lemma_filter_keeps_node(nv: Seq<NodeView>, id: Seq<char>, u: int)
    requires
        0 <= u < nv.len(),
        nv[u].id != id,
    ensures
        has_node_id(nodes_without(nv, id), nv[u].id),
    decreases nv.len(),
{
    reveal(Seq::filter);
    let pred = |n: NodeView| n.id != id;
    if u == nv.len() - 1 {
        let fl = nodes_without(nv, id);
        assert(fl.last() == nv[u]);
        assert(fl[fl.len() - 1].id == nv[u].id);
    } else {
        lemma_filter_keeps_node(nv.drop_last(), id, u);
        let fl0 = nv.drop_last().filter(pred);
        let w = choose|w: int| 0 <= w < fl0.len() && (#[trigger] fl0[w]).id == nv[u].id;
        if pred(nv.last()) {
            assert(nodes_without(nv, id)[w].id == nv[u].id);
        } else {
            assert(nodes_without(nv, id) == fl0);
            assert(nodes_without(nv, id)[w].id == nv[u].id);
        }
    }
}

/// Filtering the edge list preserves the invariant against an unchanged
/// node list.
proof fn lemma_filter_edges_wf(nv: Seq<NodeView>, ev: Seq<EdgeView>, ev2: Seq<EdgeView>)
    requires
        forall|i: int, j: int|
            0 <= i < j < ev.len() ==> (#[trigger] ev[i]).id != (#[trigger] ev[j]).id,
        forall|i: int| 0 <= i < ev.len() ==> (#[trigger] ev[i]).in_range(),
        forall|i: int| 0 <= i < ev.len() ==> has_node_id(nv, (#[trigger] ev[i]).from),
        exists|id: Seq<char>| ev2 == edges_without_id(ev, id),
    ensures
        forall|i: int, j: int|
            0 <= i < j < ev2.len() ==> (#[trigger] ev2[i]).id != (#[trigger] ev2[j]).id,
        forall|i: int| 0 <= i < ev2.len() ==> (#[trigger] ev2[i]).in_range(),
        forall|i: int| 0 <= i < ev2.len() ==> has_node_id(nv, (#[trigger] ev2[i]).from),
{
    let id = choose|id: Seq<char>| ev2 == edges_without_id(ev, id);
    assert forall|i: int| 0 <= i < ev2.len() implies (#[trigger] ev2[i]).in_range()
        && has_node_id(nv, ev2[i].from) by {
        lemma_filter_id_contains_edge(ev, id, i);
        let w = choose|w: int| 0 <= w < ev.len() && ev[w] == ev2[i];
    }
    assert forall|i: int, j: int|
        0 <= i < j < ev2.len() implies (#[trigger] ev2[i]).id != (#[trigger] ev2[j]).id by {
        lemma_filter_id_distinct_edges(ev, id, i, j);
    }
}

proof fn lemma_filter_id_contains_edge(ev: Seq<EdgeView>, id: Seq<char>, i: int)
    requires
        0 <= i < edges_without_id(ev, id).len(),
    ensures
        ev.contains(edges_without_id(ev, id)[i]),
    decreases ev.len(),
{
    reveal(Seq::filter);
    if ev.len() > 0 {
        let pred = |e: EdgeView| e.id != id;
        if i < ev.drop_last().filter(pred).len() {
            lemma_filter_id_contains_edge(ev.drop_last(), id, i);
            let w = choose|w: int|
                0 <= w < ev.drop_last().len() && ev.drop_last()[w] == edges_without_id(ev, id)[i];
            assert(ev[w] == edges_without_id(ev, id)[i]);
        } else {
            assert(edges_without_id(ev, id)[i] == ev.last());
        }
    }
}

proof fn lemma_filter_id_distinct_edges(ev: Seq<EdgeView>, id: Seq<char>, i: int, j: int)
    requires
        forall|a: int, b: int|
            0 <= a < b < ev.len() ==> (#[trigger] ev[a]).id != (#[trigger] ev[b]).id,
        0 <= i < j < edges_without_id(ev, id).len(),
    ensures
        edges_without_id(ev, id)[i].id != edges_without_id(ev, id)[j].id,
    decreases ev.len(),
{
    reveal(Seq::filter);
    let pred = |e: EdgeView| e.id != id;
    if ev.len() > 0 {
        let fl = ev.drop_last().filter(pred);
        if j < fl.len() {
            assert(forall|a: int, b: int|
                0 <= a < b < ev.drop_last().len() ==> (#[trigger] ev.drop_last()[a]).id != (
                #[trigger] ev.drop_last()[b]).id);
            lemma_filter_id_distinct_edges(ev.drop_last(), id, i, j);
        } else {
            lemma_filter_id_contains_edge(ev, id, i);
            let w = choose|w: int| 0 <= w < ev.len() && ev[w] == edges_without_id(ev, id)[i];
            assert(edges_without_id(ev, id)[j] == ev.last());
            if w < ev.len() - 1 {
                assert(ev[w].id != ev[ev.len() - 1].id);
            } else {
                assert(i < fl.len());
                lemma_filter_id_contains_edge(ev.drop_last(), id, i);
                let u = choose|u: int|
                    0 <= u < ev.drop_last().len() && ev.drop_last()[u] == fl[i];
                assert(ev[u] == edges_without_id(ev, id)[i]);
                assert(ev[u].id != ev[ev.len() - 1].id);
            }
        }
    }
}

/// Clone a node list, model for model.
pub fn clone_nodes(v: &Vec<Node>) -> (r: Vec<Node>)
    ensures
        r.deep_view() == v.deep_view(),
{
    let mut out: Vec<Node> = Vec::new();
    let mut i: usize = 0;
    while i < v.len()
        invariant
            i <= v.len(),
            out@.len() == i,
            out.deep_view() == v.deep_view().take(i as int),
        decreases v.len() - i,
    {
        out.push(v[i].clone());
        proof {
            assert forall|j: int| 0 <= j < i + 1 implies #[trigger] out.deep_view()[j] == v
                .deep_view().take(i + 1 as int)[j] by {
                assert(out.deep_view()[j] == out@[j]@);
                assert(v.deep_view()[j] == v@[j]@);
                if j < i as int {
                    assert(out@[j]@ == out.deep_view().take(i as int)[j]);
                }
            }
            assert(out.deep_view() =~= v.deep_view().take(i + 1 as int));
        }
        i = i + 1;
    }
    proof {
        assert(v.deep_view().take(v@.len() as int) =~= v.deep_view());
    }
    out
}

/// Clone an edge list, model for model.
pub fn clone_edges(v: &Vec<Edge>) -> (r: Vec<Edge>)
    ensures
        r.deep_view() == v.deep_view(),
{
    let mut out: Vec<Edge> = Vec::new();
    let mut i: usize = 0;
    while i < v.len()
        invariant
            i <= v.len(),
            out@.len() == i,
            out.deep_view() == v.deep_view().take(i as int),
        decreases v.len() - i,
    {
        out.push(v[i].clone());
        proof {
            assert forall|j: int| 0 <= j < i + 1 implies #[trigger] out.deep_view()[j] == v
                .deep_view().take(i + 1 as int)[j] by {
                assert(out.deep_view()[j] == out@[j]@);
                assert(v.deep_view()[j] == v@[j]@);
                if j < i as int {
                    assert(out@[j]@ == out.deep_view().take(i as int)[j]);
                }
            }
            assert(out.deep_view() =~= v.deep_view().take(i + 1 as int));
        }
        i = i + 1;
    }
    proof {
        assert(v.deep_view().take(v@.len() as int) =~= v.deep_view());
    }
    out
}

/// The edges leaving a node.
pub open spec fn edges_from(edges: Seq<EdgeView>, id: Seq<char>) -> Seq<EdgeView> {
    edges.filter(|e: EdgeView| e.from == id)
}

/// The edges entering a node.
pub open spec fn edges_to(edges: Seq<EdgeView>, id: Seq<char>) -> Seq<EdgeView> {
    edges.filter(|e: EdgeView| e.to == id)
}

/// The edges passing a filter, in store order.
pub open spec fn edges_matching(edges: Seq<EdgeView>, f: crate::edge::EdgeFilterView) -> Seq<
    EdgeView,
> {
    edges.filter(|e: EdgeView| crate::edge::matches_filter(e, f))
}

/// How many nodes carry the given type.
pub open spec fn count_type(nodes: Seq<NodeView>, t: NodeType) -> int {
    nodes.filter(|n: NodeView| n.node_type == t).len() as int
}

/// How many edges carry the given relation.
pub open spec fn count_relation(edges: Seq<EdgeView>, t: RelationType) -> int {
    edges.filter(|e: EdgeView| e.relation == t).len() as int
}

/// One statistics entry per present node type, in vocabulary order.
pub open spec fn type_entry(nodes: Seq<NodeView>, t: NodeType) -> Seq<(NodeType, usize)> {
    if count_type(nodes, t) > 0 {
        seq![(t, count_type(nodes, t) as usize)]
    } else {
        Seq::<(NodeType, usize)>::empty()
    }
}

/// The node-type distribution, in vocabulary order, present types only.
pub open spec fn spec_type_counts(nodes: Seq<NodeView>) -> Seq<(NodeType, usize)> {
    type_entry(nodes, NodeType::Concept) + type_entry(nodes, NodeType::Question) + type_entry(
        nodes,
        NodeType::Evidence,
    ) + type_entry(nodes, NodeType::Resource) + type_entry(nodes, NodeType::Person) + type_entry(
        nodes,
        NodeType::Event,
    ) + type_entry(nodes, NodeType::Meta)
}

/// One statistics entry per present relation, in vocabulary order.
pub open spec fn relation_entry(edges: Seq<EdgeView>, t: RelationType) -> Seq<
    (RelationType, usize),
> {
    if count_relation(edges, t) > 0 {
        seq![(t, count_relation(edges, t) as usize)]
    } else {
        Seq::<(RelationType, usize)>::empty()
    }
}

/// The relation distribution, in vocabulary order, present relations only.
pub open spec fn spec_relation_counts(edges: Seq<EdgeView>) -> Seq<(RelationType, usize)> {
    relation_entry(edges, RelationType::Contains) + relation_entry(edges, RelationType::PartOf)
        + relation_entry(edges, RelationType::InstanceOf) + relation_entry(
        edges,
        RelationType::DerivesFrom,
    ) + relation_entry(edges, RelationType::LeadsTo) + relation_entry(
        edges,
        RelationType::Supports,
    ) + relation_entry(edges, RelationType::Contradicts) + relation_entry(
        edges,
        RelationType::Refines,
    ) + relation_entry(edges, RelationType::References) + relation_entry(
        edges,
        RelationType::RelatedTo,
    ) + relation_entry(edges, RelationType::AnalogousTo) + relation_entry(
        edges,
        RelationType::Precedes,
    ) + relation_entry(edges, RelationType::Follows) + relation_entry(
        edges,
        RelationType::Simultaneous,
    )
}

/// A sequence of node IRIs forms a path through the edge set.
pub open spec fn valid_path(p: Seq<Seq<char>>, edges: Seq<EdgeView>) -> bool {
    forall|k: int| 0 <= k < p.len() - 1 ==> path_step(p, edges, k)
}

/// Some stored edge carries step `k` of the path.
pub open spec fn path_step(p: Seq<Seq<char>>, edges: Seq<EdgeView>, k: int) -> bool {
    exists|e: int|
        0 <= e < edges.len() && (#[trigger] edges[e]).from == p[k] && edges[e].to == p[k + 1]
}

impl TripleStore {
    /// The edges touching a node, in the asked direction; for `Both`, the
    /// outgoing edges come first.
    #[verifier::loop_isolation(false)]
    pub fn get_edges_for_node(&self, node_id: &str, direction: crate::graph::EdgeDirection) -> (r:
        Vec<Edge>)
        ensures
            r.deep_view() == (match direction {
                crate::graph::EdgeDirection::Outgoing => edges_from(self.edges_view(), node_id@),
                crate::graph::EdgeDirection::Incoming => edges_to(self.edges_view(), node_id@),
                crate::graph::EdgeDirection::Both => edges_from(self.edges_view(), node_id@)
                    + edges_to(self.edges_view(), node_id@),
            }),
    {
        match direction {
            crate::graph::EdgeDirection::Outgoing => self.get_edges_by_source(node_id),
            crate::graph::EdgeDirection::Incoming => self.get_edges_by_target(node_id),
            crate::graph::EdgeDirection::Both => {
                let mut out = self.get_edges_by_source(node_id);
                let mut inn = self.get_edges_by_target(node_id);
                let ghost a = out.deep_view();
                let ghost b = inn.deep_view();
                let ghost avec = out@;
                let mut i: usize = 0;
                while i < inn.len()
                    invariant
                        i <= inn.len(),
                        b == inn.deep_view(),
                        out@.len() == avec.len() + i,
                        out.deep_view() == a + b.take(i as int),
                    decreases inn.len() - i,
                {
                    let ghost pre = out.deep_view();
                    let ghost prevec = out@;
                    out.push(inn[i].clone());
                    proof {
                        assert(inn.deep_view()[i as int] == inn@[i as int]@);
                        assert forall|q: int| 0 <= q < out@.len() implies #[trigger] out
                            .deep_view()[q] == pre.push(b[i as int])[q] by {
                            assert(out.deep_view()[q] == out@[q]@);
                            if q < prevec.len() {
                                assert(out@[q] == prevec[q]);
                                assert(pre[q] == prevec[q]@);
                            }
                        }
                        assert(out.deep_view() =~= pre.push(b[i as int]));
                        assert(out.deep_view() =~= a + b.take(i + 1 as int));
                    }
                    i = i + 1;
                }
                proof {
                    assert(b.take(b.len() as int) =~= b);
                }
                out
            },
        }
    }

    /// The edges leaving a node, in store order.
    #[verifier::loop_isolation(false)]
    pub fn get_edges_by_source(&self, source: &str) -> (r: Vec<Edge>)
        ensures
            r.deep_view() == edges_from(self.edges_view(), source@),
    {
        let ghost ev = self.edges_view();
        let idv = crate::text::chars_of(source);
        let mut out: Vec<Edge> = Vec::new();
        let mut j: usize = 0;
        while j < self.edges.len()
            invariant
                j <= self.edges.len(),
                ev == self.edges_view(),
                idv@ == source@,
                out.deep_view() == edges_from(ev.take(j as int), source@),
            decreases self.edges.len() - j,
        {
            let ghost kpre = out.deep_view();
            let ghost kvpre = out@;
            let hit = crate::text::eq_str(&idv, self.edges[j].from.as_str());
            proof {
                assert(self.edges.deep_view()[j as int] == self.edges@[j as int]@);
                assert(ev.take(j + 1 as int).drop_last() =~= ev.take(j as int));
                assert(ev.take(j + 1 as int).last() == ev[j as int]);
            }
            if hit {
                out.push(self.edges[j].clone());
                proof {
                    assert forall|q: int| 0 <= q < out@.len() implies #[trigger] out.deep_view()[q]
                        == kpre.push(ev[j as int])[q] by {
                        assert(out.deep_view()[q] == out@[q]@);
                        if q < kvpre.len() {
                            assert(out@[q] == kvpre[q]);
                            assert(kpre[q] == kvpre[q]@);
                        }
                    }
                    reveal(Seq::filter);
                    assert(out.deep_view() =~= kpre.push(ev[j as int]));
                    assert(out.deep_view() =~= edges_from(ev.take(j + 1 as int), source@));
                }
            } else {
                proof {
                    reveal(Seq::filter);
                    assert(out.deep_view() =~= edges_from(ev.take(j + 1 as int), source@));
                }
            }
            j = j + 1;
        }
        proof {
            assert(ev.take(ev.len() as int) =~= ev);
        }
        out
    }

    /// The edges entering a node, in store order.
    #[verifier::loop_isolation(false)]
    pub fn get_edges_by_target(&self, target: &str) -> (r: Vec<Edge>)
        ensures
            r.deep_view() == edges_to(self.edges_view(), target@),
    {
        let ghost ev = self.edges_view();
        let idv = crate::text::chars_of(target);
        let mut out: Vec<Edge> = Vec::new();
        let mut j: usize = 0;
        while j < self.edges.len()
            invariant
                j <= self.edges.len(),
                ev == self.edges_view(),
                idv@ == target@,
                out.deep_view() == edges_to(ev.take(j as int), target@),
            decreases self.edges.len() - j,
        {
            let ghost kpre = out.deep_view();
            let ghost kvpre = out@;
            let hit = crate::text::eq_str(&idv, self.edges[j].to.as_str());
            proof {
                assert(self.edges.deep_view()[j as int] == self.edges@[j as int]@);
                assert(ev.take(j + 1 as int).drop_last() =~= ev.take(j as int));
                assert(ev.take(j + 1 as int).last() == ev[j as int]);
            }
            if hit {
                out.push(self.edges[j].clone());
                proof {
                    assert forall|q: int| 0 <= q < out@.len() implies #[trigger] out.deep_view()[q]
                        == kpre.push(ev[j as int])[q] by {
                        assert(out.deep_view()[q] == out@[q]@);
                        if q < kvpre.len() {
                            assert(out@[q] == kvpre[q]);
                            assert(kpre[q] == kvpre[q]@);
                        }
                    }
                    reveal(Seq::filter);
                    assert(out.deep_view() =~= kpre.push(ev[j as int]));
                    assert(out.deep_view() =~= edges_to(ev.take(j + 1 as int), target@));
                }
            } else {
                proof {
                    reveal(Seq::filter);
                    assert(out.deep_view() =~= edges_to(ev.take(j + 1 as int), target@));
                }
            }
            j = j + 1;
        }
        proof {
            assert(ev.take(ev.len() as int) =~= ev);
        }
        out
    }

    /// The edges passing a conjunctive filter, in store order.
    #[verifier::loop_isolation(false)]
    pub fn query_edges(&self, filter: &EdgeFilter) -> (r: Vec<Edge>)
        ensures
            r.deep_view() == edges_matching(self.edges_view(), filter@),
    {
        let ghost ev = self.edges_view();
        let ghost fv = filter@;
        let mut out: Vec<Edge> = Vec::new();
        let mut j: usize = 0;
        while j < self.edges.len()
            invariant
                j <= self.edges.len(),
                ev == self.edges_view(),
                fv == filter@,
                out.deep_view() == edges_matching(ev.take(j as int), fv),
            decreases self.edges.len() - j,
        {
            let ghost kpre = out.deep_view();
            let ghost kvpre = out@;
            let e = &self.edges[j];
            let mut hit = true;
            match &filter.from {
                Some(x) => {
                    let xv = crate::text::chars_of(x.as_str());
                    if !crate::text::eq_str(&xv, e.from.as_str()) {
                        hit = false;
                    }
                },
                None => {},
            }
            match &filter.to {
                Some(x) => {
                    let xv = crate::text::chars_of(x.as_str());
                    if !crate::text::eq_str(&xv, e.to.as_str()) {
                        hit = false;
                    }
                },
                None => {},
            }
            match &filter.relation {
                Some(x) => {
                    if !(*x == e.relation) {
                        hit = false;
                    }
                },
                None => {},
            }
            match &filter.min_strength {
                Some(x) => {
                    if e.strength < *x {
                        hit = false;
                    }
                },
                None => {},
            }
            proof {
                assert(self.edges.deep_view()[j as int] == self.edges@[j as int]@);
                assert(hit == crate::edge::matches_filter(ev[j as int], fv));
                assert(ev.take(j + 1 as int).drop_last() =~= ev.take(j as int));
                assert(ev.take(j + 1 as int).last() == ev[j as int]);
            }
            if hit {
                out.push(self.edges[j].clone());
                proof {
                    assert forall|q: int| 0 <= q < out@.len() implies #[trigger] out.deep_view()[q]
                        == kpre.push(ev[j as int])[q] by {
                        assert(out.deep_view()[q] == out@[q]@);
                        if q < kvpre.len() {
                            assert(out@[q] == kvpre[q]);
                            assert(kpre[q] == kvpre[q]@);
                        }
                    }
                    reveal(Seq::filter);
                    assert(out.deep_view() =~= kpre.push(ev[j as int]));
                    assert(out.deep_view() =~= edges_matching(ev.take(j + 1 as int), fv));
                }
            } else {
                proof {
                    reveal(Seq::filter);
                    assert(out.deep_view() =~= edges_matching(ev.take(j + 1 as int), fv));
                }
            }
            j = j + 1;
        }
        proof {
            assert(ev.take(ev.len() as int) =~= ev);
        }
        out
    }

    /// Count the nodes of one type.
    #[verifier::loop_isolation(false)]
    fn count_nodes_of(&self, t: NodeType) -> (r: usize)
        ensures
            r as int == count_type(self.nodes_view(), t),
    {
        let ghost nv = self.nodes_view();
        let mut r: usize = 0;
        let mut i: usize = 0;
        while i < self.nodes.len()
            invariant
                i <= self.nodes.len(),
                nv == self.nodes_view(),
                r <= i,
                r as int == count_type(nv.take(i as int), t),
            decreases self.nodes.len() - i,
        {
            proof {
                assert(self.nodes.deep_view()[i as int] == self.nodes@[i as int]@);
                assert(nv.take(i + 1 as int).drop_last() =~= nv.take(i as int));
                assert(nv.take(i + 1 as int).last() == nv[i as int]);
                reveal(Seq::filter);
                nv.take(i + 1 as int).lemma_filter_len(|n: NodeView| n.node_type == t);
            }
            if self.nodes[i].node_type == t {
                r = r + 1;
            }
            i = i + 1;
        }
        proof {
            assert(nv.take(nv.len() as int) =~= nv);
        }
        r
    }

    /// Count the edges of one relation.
    #[verifier::loop_isolation(false)]
    fn count_edges_of(&self, t: RelationType) -> (r: usize)
        ensures
            r as int == count_relation(self.edges_view(), t),
    {
        let ghost ev = self.edges_view();
        let mut r: usize = 0;
        let mut i: usize = 0;
        while i < self.edges.len()
            invariant
                i <= self.edges.len(),
                ev == self.edges_view(),
                r <= i,
                r as int == count_relation(ev.take(i as int), t),
            decreases self.edges.len() - i,
        {
            proof {
                assert(self.edges.deep_view()[i as int] == self.edges@[i as int]@);
                assert(ev.take(i + 1 as int).drop_last() =~= ev.take(i as int));
                assert(ev.take(i + 1 as int).last() == ev[i as int]);
                reveal(Seq::filter);
                ev.take(i + 1 as int).lemma_filter_len(|e: EdgeView| e.relation == t);
            }
            if self.edges[i].relation == t {
                r = r + 1;
            }
            i = i + 1;
        }
        proof {
            assert(ev.take(ev.len() as int) =~= ev);
        }
        r
    }

    /// The node and edge counts and their distributions over the
    /// vocabularies, present kinds only, in vocabulary order.
    #[verifier::rlimit(100)]
    pub fn get_stats(&self) -> (r: crate::graph::GraphStats)
        ensures
            r.node_count == self.nodes_view().len(),
            r.edge_count == self.edges_view().len(),
            r.node_type_counts@ == spec_type_counts(self.nodes_view()),
            r.relation_counts@ == spec_relation_counts(self.edges_view()),
    {
        let mut ntc: Vec<(NodeType, usize)> = Vec::new();
        push_type_count(&mut ntc, NodeType::Concept, self.count_nodes_of(NodeType::Concept));
        push_type_count(&mut ntc, NodeType::Question, self.count_nodes_of(NodeType::Question));
        push_type_count(&mut ntc, NodeType::Evidence, self.count_nodes_of(NodeType::Evidence));
        push_type_count(&mut ntc, NodeType::Resource, self.count_nodes_of(NodeType::Resource));
        push_type_count(&mut ntc, NodeType::Person, self.count_nodes_of(NodeType::Person));
        push_type_count(&mut ntc, NodeType::Event, self.count_nodes_of(NodeType::Event));
        push_type_count(&mut ntc, NodeType::Meta, self.count_nodes_of(NodeType::Meta));
        proof {
            assert(ntc@ =~= spec_type_counts(self.nodes_view()));
        }
        let mut rc: Vec<(RelationType, usize)> = Vec::new();
        push_relation_count(&mut rc, RelationType::Contains, self.count_edges_of(RelationType::Contains));
        push_relation_count(&mut rc, RelationType::PartOf, self.count_edges_of(RelationType::PartOf));
        push_relation_count(&mut rc, RelationType::InstanceOf, self.count_edges_of(RelationType::InstanceOf));
        push_relation_count(&mut rc, RelationType::DerivesFrom, self.count_edges_of(RelationType::DerivesFrom));
        push_relation_count(&mut rc, RelationType::LeadsTo, self.count_edges_of(RelationType::LeadsTo));
        push_relation_count(&mut rc, RelationType::Supports, self.count_edges_of(RelationType::Supports));
        push_relation_count(&mut rc, RelationType::Contradicts, self.count_edges_of(RelationType::Contradicts));
        push_relation_count(&mut rc, RelationType::Refines, self.count_edges_of(RelationType::Refines));
        push_relation_count(&mut rc, RelationType::References, self.count_edges_of(RelationType::References));
        push_relation_count(&mut rc, RelationType::RelatedTo, self.count_edges_of(RelationType::RelatedTo));
        push_relation_count(&mut rc, RelationType::AnalogousTo, self.count_edges_of(RelationType::AnalogousTo));
        push_relation_count(&mut rc, RelationType::Precedes, self.count_edges_of(RelationType::Precedes));
        push_relation_count(&mut rc, RelationType::Follows, self.count_edges_of(RelationType::Follows));
        push_relation_count(&mut rc, RelationType::Simultaneous, self.count_edges_of(RelationType::Simultaneous));
        proof {
            assert(rc@ =~= spec_relation_counts(self.edges_view()));
        }
        crate::graph::GraphStats {
            node_count: self.nodes.len(),
            edge_count: self.edges.len(),
            node_type_counts: ntc,
            relation_counts: rc,
        }
    }

    /// A breadth-first search over outgoing edges for a path from
    /// `source` to `target`. A returned path starts at `source`, ends at
    /// `target`, and follows stored edges step by step; a node is never
    /// searched twice, so the walk always ends.
    #[verifier::loop_isolation(false)]
    #[verifier::rlimit(100)]
    pub fn find_path(&self, source: &str, target: &str) -> (r: Option<Vec<String>>)
        ensures
            match r {
                Some(p) => p@.len() >= 1 && p.deep_view()[0] == source@ && p.deep_view()[p@.len()
                    - 1] == target@ && valid_path(p.deep_view(), self.edges_view()),
                None => !reachable(self.edges_view(), source@, target@),
            },
            source@ == target@ ==> (r matches Some(p) && p@.len() == 1),
    {
        let ghost ev = self.edges_view();
        let sv = crate::text::chars_of(source);
        if crate::text::eq_str(&sv, target) {
            let mut p: Vec<String> = Vec::new();
            p.push(crate::text::string_from(&sv));
            proof {
                assert(p.deep_view() =~= seq![source@]);
            }
            return Some(p);
        }
        // parent records: each says its second id found its first over an edge
        let mut parent: Vec<(String, String)> = Vec::new();
        let mut visited: Vec<String> = Vec::new();
        let mut queue: Vec<String> = Vec::new();
        visited.push(crate::text::string_from(&sv));
        queue.push(crate::text::string_from(&sv));
        proof {
            assert(visited.deep_view() =~= seq![source@]);
            assert(queue.deep_view() =~= seq![source@]);
        }
        let mut qh: usize = 0;
        let mut found = false;
        while qh < queue.len() && !found
            invariant
                qh <= queue@.len(),
                ev == self.edges_view(),
                source@ != target@,
                visited.deep_view() == queue.deep_view(),
                visited@.len() >= 1,
                visited.deep_view()[0] == source@,
                visited@.len() <= ev.len() + 1,
                parent@.len() + 1 == visited@.len(),
                forall|a: int, b: int|
                    0 <= a < b < visited@.len() ==> (#[trigger] visited.deep_view()[a]) != (
                    #[trigger] visited.deep_view()[b]),
                forall|k: int|
                    1 <= k < visited@.len() ==> is_edge_target(
                        ev,
                        #[trigger] visited.deep_view()[k],
                    ),
                forall|k: int|
                    0 <= k < parent@.len() ==> parent_ok(#[trigger] parent.deep_view()[k], ev),
                forall|k: int|
                    0 <= k < parent@.len() ==> parent_linked(
                        #[trigger] parent.deep_view()[k],
                        visited.deep_view(),
                    ),
                forall|i: int|
                    1 <= i < visited@.len() ==> has_parent_rec(
                        parent.deep_view(),
                        #[trigger] visited.deep_view()[i],
                    ),
                forall|i: int, e: int|
                    #![trigger ev[e].from, visited.deep_view()[i]]
                    0 <= i < qh && 0 <= e < ev.len() && ev[e].from == visited.deep_view()[i]
                        ==> visited.deep_view().contains(ev[e].to),
                !found ==> forall|k: int|
                    0 <= k < visited@.len() ==> (#[trigger] visited.deep_view()[k]) != target@,
                found ==> visited.deep_view().contains(target@),
            decreases ev.len() + 1 - visited@.len(), queue@.len() - qh,
        {
            let ghost qh0 = qh as int;
            let cur = queue[qh].clone();
            proof {
                assert(cur@ == visited.deep_view()[qh0]);
            }
            qh = qh + 1;
            let ghost vlen0 = visited@.len() as int;
            let mut j: usize = 0;
            while j < self.edges.len()
                invariant
                    j <= self.edges.len(),
                    qh == qh0 + 1,
                    qh <= queue@.len(),
                    vlen0 <= visited@.len(),
                    ev == self.edges_view(),
                    source@ != target@,
                    cur@ == visited.deep_view()[qh0],
                    visited.deep_view() == queue.deep_view(),
                    visited@.len() >= 1,
                    visited.deep_view()[0] == source@,
                    visited@.len() <= ev.len() + 1,
                    parent@.len() + 1 == visited@.len(),
                    forall|a: int, b: int|
                        0 <= a < b < visited@.len() ==> (#[trigger] visited.deep_view()[a]) != (
                        #[trigger] visited.deep_view()[b]),
                    forall|k: int|
                        1 <= k < visited@.len() ==> is_edge_target(
                            ev,
                            #[trigger] visited.deep_view()[k],
                        ),
                    forall|k: int|
                        0 <= k < parent@.len() ==> parent_ok(
                            #[trigger] parent.deep_view()[k],
                            ev,
                        ),
                    forall|k: int|
                        0 <= k < parent@.len() ==> parent_linked(
                            #[trigger] parent.deep_view()[k],
                            visited.deep_view(),
                        ),
                    forall|i: int|
                        1 <= i < visited@.len() ==> has_parent_rec(
                            parent.deep_view(),
                            #[trigger] visited.deep_view()[i],
                        ),
                    forall|i: int, e: int|
                        #![trigger ev[e].from, visited.deep_view()[i]]
                        0 <= i < qh0 && 0 <= e < ev.len() && ev[e].from == visited.deep_view()[i]
                            ==> visited.deep_view().contains(ev[e].to),
                    forall|e: int|
                        0 <= e < j && (#[trigger] ev[e]).from == cur@ ==> visited
                            .deep_view().contains(ev[e].to),
                    !found ==> forall|k: int|
                        0 <= k < visited@.len() ==> (#[trigger] visited.deep_view()[k])
                            != target@,
                    found ==> visited.deep_view().contains(target@),
                decreases self.edges.len() - j,
            {
                let curv = crate::text::chars_of(cur.as_str());
                let hit = crate::text::eq_str(&curv, self.edges[j].from.as_str());
                proof {
                    assert(self.edges.deep_view()[j as int] == self.edges@[j as int]@);
                }
                if hit {
                    let to = self.edges[j].to.clone();
                    let tov = crate::text::chars_of(to.as_str());
                    // seen before?
                    let mut seen = false;
                    let mut w: usize = 0;
                    while w < visited.len()
                        invariant
                            w <= visited@.len(),
                            seen == exists|k: int|
                                0 <= k < w && #[trigger] visited.deep_view()[k] == tov@,
                        decreases visited.len() - w,
                    {
                        let h2 = crate::text::eq_str(&tov, visited[w].as_str());
                        proof {
                            assert(visited.deep_view()[w as int] == visited@[w as int]@);
                        }
                        if h2 {
                            seen = true;
                        }
                        w = w + 1;
                    }
                    proof {
                        if seen {
                            let k = choose|k: int|
                                0 <= k < visited.deep_view().len()
                                    && #[trigger] visited.deep_view()[k] == tov@;
                            assert(visited.deep_view().contains(ev[j as int].to));
                        }
                    }
                    if !seen {
                        let ghost ppre = parent.deep_view();
                        let ghost pvecpre = parent@;
                        let ghost vpre = visited.deep_view();
                        let ghost vvecpre = visited@;
                        let ghost qpre = queue.deep_view();
                        let ghost qvecpre = queue@;
                        parent.push((to.clone(), cur.clone()));
                        visited.push(to.clone());
                        queue.push(to.clone());
                        let hit_target = crate::text::eq_str(&tov, target);
                        if hit_target {
                            found = true;
                        }
                        proof {
                            assert forall|u: int| 0 <= u < parent@.len() implies #[trigger] parent
                                .deep_view()[u] == (if u < pvecpre.len() {
                                ppre[u]
                            } else {
                                (to@, cur@)
                            }) by {
                                assert(parent.deep_view()[u] == parent@[u].deep_view());
                                if u < pvecpre.len() {
                                    assert(parent@[u] == pvecpre[u]);
                                    assert(ppre[u] == pvecpre[u].deep_view());
                                }
                            }
                            assert(parent.deep_view() =~= ppre.push((to@, cur@)));
                            assert forall|u: int| 0 <= u < visited@.len() implies
                                #[trigger] visited.deep_view()[u] == (if u < vvecpre.len() {
                                vpre[u]
                            } else {
                                to@
                            }) by {
                                assert(visited.deep_view()[u] == visited@[u]@);
                                if u < vvecpre.len() {
                                    assert(visited@[u] == vvecpre[u]);
                                    assert(vpre[u] == vvecpre[u]@);
                                }
                            }
                            assert(visited.deep_view() =~= vpre.push(to@));
                            assert forall|u: int| 0 <= u < queue@.len() implies #[trigger] queue
                                .deep_view()[u] == (if u < qvecpre.len() {
                                qpre[u]
                            } else {
                                to@
                            }) by {
                                assert(queue.deep_view()[u] == queue@[u]@);
                                if u < qvecpre.len() {
                                    assert(queue@[u] == qvecpre[u]);
                                    assert(qpre[u] == qvecpre[u]@);
                                }
                            }
                            assert(queue.deep_view() =~= vpre.push(to@));
                            assert(ev[j as int].to == to@ && ev[j as int].from == cur@);
                            assert(!vpre.contains(to@)) by {
                                if vpre.contains(to@) {
                                    let k = choose|k: int|
                                        0 <= k < vpre.len() && #[trigger] vpre[k] == to@;
                                }
                            }
                            lemma_bfs_push(
                                ev,
                                vpre,
                                ppre,
                                visited.deep_view(),
                                parent.deep_view(),
                                source@,
                                cur@,
                                to@,
                                qh0,
                                j as int,
                            );
                            assert forall|i: int, e: int|
                                #![trigger ev[e].from, visited.deep_view()[i]]
                                0 <= i < qh0 && 0 <= e < ev.len() && ev[e].from == visited
                                    .deep_view()[i] implies visited.deep_view().contains(
                                ev[e].to,
                            ) by {
                                assert(visited.deep_view()[i] == vpre[i]);
                                assert(vpre.contains(ev[e].to));
                            }
                            assert forall|e: int|
                                0 <= e < j + 1 && (#[trigger] ev[e]).from == cur@ implies visited
                                .deep_view().contains(ev[e].to) by {
                                if e < j {
                                    assert(vpre.contains(ev[e].to));
                                }
                            }
                            if !found {
                                assert forall|k: int| 0 <= k < visited@.len() implies (
                                #[trigger] visited.deep_view()[k]) != target@ by {
                                    if k < vpre.len() {
                                        assert(vpre[k] != target@);
                                    } else {
                                        assert(visited.deep_view()[k] == to@);
                                    }
                                }
                            }
                            if found {
                                if hit_target {
                                    assert(visited.deep_view()[vpre.len() as int] == target@);
                                } else {
                                    assert(vpre.contains(target@)) by {
                                        let k = choose|k: int|
                                            0 <= k < vpre.len() && #[trigger] vpre[k] == target@;
                                    }
                                }
                            }
                        }
                    }
                } else {
                    proof {
                        assert(ev[j as int].from != cur@);
                    }
                }
                j = j + 1;
            }
            proof {
                assert forall|i: int, e: int|
                    #![trigger ev[e].from, visited.deep_view()[i]]
                    0 <= i < qh && 0 <= e < ev.len() && ev[e].from == visited.deep_view()[i]
                        implies visited.deep_view().contains(ev[e].to) by {
                    if i == qh0 {
                        assert(ev[e].from == cur@);
                    }
                }
            }
        }
        if !found {
            proof {
                assert(qh == queue@.len());
                if reachable(ev, source@, target@) {
                    assert(target@ != source@);
                    let fu = choose|fu: nat| edge_reach(ev, source@, target@, fu);
                    assert forall|e: int|
                        0 <= e < ev.len() && visited.deep_view().contains(
                            (#[trigger] ev[e]).from,
                        ) implies visited.deep_view().contains(ev[e].to) by {
                        let i = choose|i: int|
                            0 <= i < visited.deep_view().len() && #[trigger] visited.deep_view()[
                                i] == ev[e].from;
                    }
                    assert(visited.deep_view().contains(source@)) by {
                        assert(visited.deep_view()[0] == source@);
                    }
                    lemma_edge_reach_closed(ev, source@, target@, fu, visited.deep_view());
                    let k = choose|k: int|
                        0 <= k < visited.deep_view().len() && #[trigger] visited.deep_view()[k]
                            == target@;
                    assert(false);
                }
            }
            return None;
        }
        // walk the parent records back from the target
        let tv = crate::text::chars_of(target);
        let mut rev: Vec<String> = Vec::new();
        rev.push(crate::text::string_from(&tv));
        let mut cur: String = crate::text::string_from(&tv);
        let mut fuel2: usize = visited.len();
        let ghost mut ci: int = choose|k: int|
            0 <= k < visited.deep_view().len() && #[trigger] visited.deep_view()[k] == target@;
        proof {
            assert(rev.deep_view() =~= seq![target@]);
        }
        while fuel2 > 0
            invariant
                ev == self.edges_view(),
                rev@.len() >= 1,
                rev.deep_view()[0] == target@,
                rev.deep_view()[rev@.len() - 1] == cur@,
                0 <= ci < visited@.len(),
                visited.deep_view()[ci] == cur@,
                fuel2 >= ci + 1,
                forall|k: int| 0 <= k < rev@.len() - 1 ==> rev_step(rev.deep_view(), ev, k),
                forall|k: int|
                    0 <= k < parent@.len() ==> parent_ok(#[trigger] parent.deep_view()[k], ev),
            decreases fuel2,
        {
            fuel2 = fuel2 - 1;
            let curv = crate::text::chars_of(cur.as_str());
            if crate::text::eq_str(&curv, source) {
                // reverse into the final path
                let mut path: Vec<String> = Vec::new();
                let mut k: usize = rev.len();
                while k > 0
                    invariant
                        k <= rev@.len(),
                        path@.len() == rev@.len() - k,
                        forall|q: int|
                            0 <= q < path@.len() ==> #[trigger] path.deep_view()[q] == rev
                                .deep_view()[rev@.len() - 1 - q],
                    decreases k,
                {
                    let ghost ppre = path.deep_view();
                    let ghost pvecpre = path@;
                    path.push(rev[k - 1].clone());
                    proof {
                        assert forall|q: int| 0 <= q < path@.len() implies #[trigger] path
                            .deep_view()[q] == rev.deep_view()[rev@.len() - 1 - q] by {
                            assert(path.deep_view()[q] == path@[q]@);
                            if q < pvecpre.len() {
                                assert(path@[q] == pvecpre[q]);
                                assert(ppre[q] == pvecpre[q]@);
                            } else {
                                assert(rev.deep_view()[k - 1 as int] == rev@[k - 1 as int]@);
                            }
                        }
                    }
                    k = k - 1;
                }
                proof {
                    assert(path.deep_view()[0] == rev.deep_view()[rev@.len() - 1]);
                    assert(path.deep_view()[path@.len() - 1] == rev.deep_view()[0]);
                    assert forall|q: int| 0 <= q < path.deep_view().len() - 1 implies path_step(
                        path.deep_view(),
                        ev,
                        q,
                    ) by {
                        let kk = rev@.len() - 1 - q;
                        assert(path.deep_view()[q] == rev.deep_view()[kk]);
                        assert(path.deep_view()[q + 1] == rev.deep_view()[kk - 1]);
                        assert(rev_step(rev.deep_view(), ev, kk - 1));
                        let e0 = choose|e: int|
                            0 <= e < ev.len() && (#[trigger] ev[e]).from == rev.deep_view()[kk - 1
                                + 1] && ev[e].to == rev.deep_view()[kk - 1];
                        assert(ev[e0].from == path.deep_view()[q] && ev[e0].to == path.deep_view()[
                            q + 1]);
                    }
                }
                return Some(path);
            }
            proof {
                assert(cur@ != source@);
                assert(ci != 0);
                assert(has_parent_rec(parent.deep_view(), visited.deep_view()[ci]));
            }
            // find the parent of the current node
            let mut pi: usize = 0;
            let mut next: Option<String> = None;
            while pi < parent.len()
                invariant
                    pi <= parent@.len(),
                    ev == self.edges_view(),
                    cur@ == visited.deep_view()[ci],
                    forall|k: int|
                        0 <= k < parent@.len() ==> parent_ok(
                            #[trigger] parent.deep_view()[k],
                            ev,
                        ),
                    match next {
                        Some(nx) => exists|k: int|
                            0 <= k < parent@.len() && (#[trigger] parent.deep_view()[k]).0 == cur@
                                && parent.deep_view()[k].1 == nx@,
                        None => forall|k: int|
                            0 <= k < pi ==> (#[trigger] parent.deep_view()[k]).0 != cur@,
                    },
                decreases parent.len() - pi,
            {
                let hit = crate::text::eq_str(&curv, parent[pi].0.as_str());
                let take_it = match &next {
                    Some(_) => false,
                    None => true,
                };
                if hit && take_it {
                    next = Some(parent[pi].1.clone());
                    proof {
                        assert(parent.deep_view()[pi as int] == parent@[pi as int].deep_view());
                    }
                } else {
                    proof {
                        assert(parent.deep_view()[pi as int] == parent@[pi as int].deep_view());
                    }
                }
                pi = pi + 1;
            }
            match next {
                Some(nx) => {
                    let ghost rpre = rev.deep_view();
                    let ghost rvecpre = rev@;
                    rev.push(nx.clone());
                    proof {
                        assert forall|q: int| 0 <= q < rev@.len() implies #[trigger] rev
                            .deep_view()[q] == rpre.push(nx@)[q] by {
                            assert(rev.deep_view()[q] == rev@[q]@);
                            if q < rvecpre.len() {
                                assert(rev@[q] == rvecpre[q]);
                                assert(rpre[q] == rvecpre[q]@);
                            }
                        }
                        assert(rev.deep_view() =~= rpre.push(nx@));
                        let k0 = choose|k: int|
                            0 <= k < parent@.len() && (#[trigger] parent.deep_view()[k]).0 == cur@
                                && parent.deep_view()[k].1 == nx@;
                        assert(parent_ok(parent.deep_view()[k0], ev));
                        let e0 = choose|e: int|
                            0 <= e < ev.len() && (#[trigger] ev[e]).from == parent.deep_view()[
                                k0].1 && ev[e].to == parent.deep_view()[k0].0;
                        assert forall|k: int| 0 <= k < rev@.len() - 1 implies rev_step(
                            rev.deep_view(),
                            ev,
                            k,
                        ) by {
                            if k < rpre.len() - 1 {
                                assert(rev_step(rpre, ev, k));
                                let e1 = choose|e: int|
                                    0 <= e < ev.len() && (#[trigger] ev[e]).from == rpre[k + 1]
                                        && ev[e].to == rpre[k];
                                assert(ev[e1].from == rev.deep_view()[k + 1] && ev[e1].to == rev
                                    .deep_view()[k]);
                            } else {
                                assert(rev.deep_view()[k] == cur@);
                                assert(rev.deep_view()[k + 1] == nx@);
                                assert(ev[e0].from == nx@ && ev[e0].to == cur@);
                            }
                        }
                        // the walk descends in discovery order
                        assert(parent_linked(parent.deep_view()[k0], visited.deep_view()));
                        let (i0, i1) = choose|i0: int, i1: int|
                            0 <= i1 < i0 < visited.deep_view().len()
                                && #[trigger] visited.deep_view()[i0] == parent.deep_view()[k0].0
                                && #[trigger] visited.deep_view()[i1] == parent.deep_view()[k0].1;
                        assert(visited.deep_view()[i0] == cur@);
                        assert(i0 == ci);
                        ci = i1;
                    }
                    cur = nx;
                },
                None => {
                    // unreachable: every visited non-source id has a record
                    proof {
                        assert(has_parent_rec(parent.deep_view(), cur@));
                        let k = choose|k: int|
                            0 <= k < parent.deep_view().len() && (#[trigger] parent.deep_view()[
                                k]).0 == cur@;
                        assert(false);
                    }
                    return None;
                },
            }
        }
        proof {
            // unreachable: the walk descends and the fuel covers it
            assert(false);
        }
        None
    }
}

/// A parent record is carried by some stored edge.
pub open spec fn parent_ok(p: (Seq<char>, Seq<char>), edges: Seq<EdgeView>) -> bool {
    exists|e: int| 0 <= e < edges.len() && (#[trigger] edges[e]).from == p.1 && edges[e].to == p.0
}

/// Whether a chain of at most `fuel` stored edges leads from `src`
/// down to `id`.
pub open spec fn edge_reach(ev: Seq<EdgeView>, src: Seq<char>, id: Seq<char>, fuel: nat) -> bool
    decreases fuel,
{
    fuel > 0 && exists|e: int|
        0 <= e < ev.len() && (#[trigger] ev[e]).to == id && (ev[e].from == src || edge_reach(
            ev,
            src,
            ev[e].from,
            (fuel - 1) as nat,
        ))
}

/// Whether some path over the stored edges leads from `src` to `id`.
pub open spec fn reachable(ev: Seq<EdgeView>, src: Seq<char>, id: Seq<char>) -> bool {
    id == src || exists|fuel: nat| edge_reach(ev, src, id, fuel)
}

/// A set of ids holding `src` and closed under stored edges holds
/// every id a chain from `src` reaches.
proof fn lemma_edge_reach_closed(
    ev: Seq<EdgeView>,
    src: Seq<char>,
    id: Seq<char>,
    fuel: nat,
    vis: Seq<Seq<char>>,
)
    requires
        edge_reach(ev, src, id, fuel),
        vis.contains(src),
        forall|e: int|
            0 <= e < ev.len() && vis.contains((#[trigger] ev[e]).from) ==> vis.contains(
                ev[e].to,
            ),
    ensures
        vis.contains(id),
    decreases fuel,
{
    let e = choose|e: int|
        0 <= e < ev.len() && (#[trigger] ev[e]).to == id && (ev[e].from == src || edge_reach(
            ev,
            src,
            ev[e].from,
            (fuel - 1) as nat,
        ));
    if ev[e].from != src {
        lemma_edge_reach_closed(ev, src, ev[e].from, (fuel - 1) as nat, vis);
    }
}

/// Whether some stored edge ends at the id.
pub open spec fn is_edge_target(ev: Seq<EdgeView>, id: Seq<char>) -> bool {
    exists|e: int| 0 <= e < ev.len() && (#[trigger] ev[e]).to == id
}

/// A parent record joins two already-visited ids, the parent seen
/// strictly earlier than the child.
pub open spec fn parent_linked(p: (Seq<char>, Seq<char>), vis: Seq<Seq<char>>) -> bool {
    exists|i0: int, i1: int|
        0 <= i1 < i0 < vis.len() && #[trigger] vis[i0] == p.0 && #[trigger] vis[i1] == p.1
}

/// Whether some parent record names the id as its child.
pub open spec fn has_parent_rec(ps: Seq<(Seq<char>, Seq<char>)>, id: Seq<char>) -> bool {
    exists|k: int| 0 <= k < ps.len() && (#[trigger] ps[k]).0 == id
}

/// What one breadth-first discovery step preserves: pushing a fresh
/// edge target onto the visited list and its parent record keeps every
/// structural fact of the search.
proof fn lemma_bfs_push(
    ev: Seq<EdgeView>,
    vpre: Seq<Seq<char>>,
    ppre: Seq<(Seq<char>, Seq<char>)>,
    vnew: Seq<Seq<char>>,
    pnew: Seq<(Seq<char>, Seq<char>)>,
    src: Seq<char>,
    cur: Seq<char>,
    to: Seq<char>,
    qh0: int,
    j: int,
)
    requires
        vnew == vpre.push(to),
        pnew == ppre.push((to, cur)),
        0 <= j < ev.len(),
        ev[j].from == cur,
        ev[j].to == to,
        0 <= qh0 < vpre.len(),
        vpre[qh0] == cur,
        vpre.len() >= 1,
        vpre[0] == src,
        ppre.len() + 1 == vpre.len(),
        !vpre.contains(to),
        forall|a: int, b: int| 0 <= a < b < vpre.len() ==> vpre[a] != vpre[b],
        forall|k: int| 1 <= k < vpre.len() ==> is_edge_target(ev, #[trigger] vpre[k]),
        forall|k: int| 0 <= k < ppre.len() ==> parent_ok(#[trigger] ppre[k], ev),
        forall|k: int| 0 <= k < ppre.len() ==> parent_linked(#[trigger] ppre[k], vpre),
        forall|i: int| 1 <= i < vpre.len() ==> has_parent_rec(ppre, #[trigger] vpre[i]),
    ensures
        vnew.len() >= 1,
        vnew[0] == src,
        pnew.len() + 1 == vnew.len(),
        vnew.len() <= ev.len() + 1,
        forall|a: int, b: int| 0 <= a < b < vnew.len() ==> vnew[a] != vnew[b],
        forall|k: int| 1 <= k < vnew.len() ==> is_edge_target(ev, #[trigger] vnew[k]),
        forall|k: int| 0 <= k < pnew.len() ==> parent_ok(#[trigger] pnew[k], ev),
        forall|k: int| 0 <= k < pnew.len() ==> parent_linked(#[trigger] pnew[k], vnew),
        forall|i: int| 1 <= i < vnew.len() ==> has_parent_rec(pnew, #[trigger] vnew[i]),
        forall|x: Seq<char>| vpre.contains(x) ==> #[trigger] vnew.contains(x),
        vnew.contains(to),
{
    assert forall|a: int, b: int| 0 <= a < b < vnew.len() implies vnew[a] != vnew[b] by {
        if b >= vpre.len() && a < vpre.len() {
            if vpre[a] == to {
                assert(vpre.contains(to));
            }
        }
    }
    assert forall|k: int| 1 <= k < vnew.len() implies is_edge_target(
        ev,
        #[trigger] vnew[k],
    ) by {
        if k >= vpre.len() {
            assert(ev[j].to == vnew[k]);
        }
    }
    lemma_visited_bound(vnew, ev);
    assert forall|k: int| 0 <= k < pnew.len() implies parent_ok(#[trigger] pnew[k], ev) by {
        if k >= ppre.len() {
            assert(ev[j].from == pnew[k].1 && ev[j].to == pnew[k].0);
        }
    }
    assert forall|k: int| 0 <= k < pnew.len() implies parent_linked(
        #[trigger] pnew[k],
        vnew,
    ) by {
        if k < ppre.len() {
            assert(parent_linked(ppre[k], vpre));
            let (i0, i1) = choose|i0: int, i1: int|
                0 <= i1 < i0 < vpre.len() && #[trigger] vpre[i0] == ppre[k].0
                    && #[trigger] vpre[i1] == ppre[k].1;
            assert(vnew[i0] == pnew[k].0 && vnew[i1] == pnew[k].1);
        } else {
            let i0 = vpre.len() as int;
            assert(vnew[i0] == to);
            assert(vnew[qh0] == cur);
            assert(vnew[i0] == pnew[k].0 && vnew[qh0] == pnew[k].1);
        }
    }
    assert forall|i: int| 1 <= i < vnew.len() implies has_parent_rec(
        pnew,
        #[trigger] vnew[i],
    ) by {
        if i < vpre.len() {
            assert(has_parent_rec(ppre, vpre[i]));
            let k = choose|k: int| 0 <= k < ppre.len() && (#[trigger] ppre[k]).0 == vpre[i];
            assert(pnew[k].0 == vnew[i]);
        } else {
            assert(pnew[ppre.len() as int].0 == vnew[i]);
        }
    }
    assert forall|x: Seq<char>| vpre.contains(x) implies #[trigger] vnew.contains(x) by {
        let k = choose|k: int| 0 <= k < vpre.len() && #[trigger] vpre[k] == x;
        assert(vnew[k] == x);
    }
    assert(vnew[vpre.len() as int] == to);
}

/// Distinct ids that are all targets of stored edges, behind one that
/// need not be, are no more numerous than the edges and that one.
proof fn lemma_visited_bound(vis: Seq<Seq<char>>, ev: Seq<EdgeView>)
    requires
        forall|a: int, b: int| 0 <= a < b < vis.len() ==> vis[a] != vis[b],
        forall|k: int| 1 <= k < vis.len() ==> is_edge_target(ev, #[trigger] vis[k]),
    ensures
        vis.len() <= ev.len() + 1,
{
    broadcast use vstd::seq_lib::seq_to_set_is_finite;

    if vis.len() >= 1 {
        let tail = Seq::new((vis.len() - 1) as nat, |a: int| vis[a + 1]);
        let tos = Seq::new(ev.len(), |e: int| ev[e].to);
        assert forall|a: int, b: int| 0 <= a < b < tail.len() implies tail[a] != tail[b] by {
            assert(tail[a] == vis[a + 1] && tail[b] == vis[b + 1]);
            assert(vis[a + 1] != vis[b + 1]);
        }
        assert(tail.no_duplicates());
        tail.unique_seq_to_set();
        tos.lemma_cardinality_of_set();
        assert forall|x: Seq<char>| tail.to_set().contains(x) implies tos.to_set().contains(
            x,
        ) by {
            let a = choose|a: int| 0 <= a < tail.len() && tail[a] == x;
            assert(vis[a + 1] == x);
            assert(is_edge_target(ev, vis[a + 1]));
            let e = choose|e: int| 0 <= e < ev.len() && (#[trigger] ev[e]).to == vis[a + 1];
            assert(tos[e] == x);
            assert(tos.contains(x));
        }
        vstd::set_lib::lemma_len_subset(tail.to_set(), tos.to_set());
    }
}

/// Step `k` of the reversed walk is carried by some stored edge, read
/// backwards.
pub open spec fn rev_step(rs: Seq<Seq<char>>, edges: Seq<EdgeView>, k: int) -> bool {
    exists|e: int|
        0 <= e < edges.len() && (#[trigger] edges[e]).from == rs[k + 1] && edges[e].to == rs[k]
}

/// Push a (type, count) entry when the count is not zero.
fn push_type_count(v: &mut Vec<(NodeType, usize)>, t: NodeType, c: usize)
    ensures
        final(v)@ == old(v)@ + (if c > 0 {
            seq![(t, c)]
        } else {
            Seq::<(NodeType, usize)>::empty()
        }),
{
    if c > 0 {
        v.push((t, c));
        proof {
            assert(final(v)@ =~= old(v)@ + seq![(t, c)]);
        }
    } else {
        proof {
            assert(final(v)@ =~= old(v)@ + Seq::<(NodeType, usize)>::empty());
        }
    }
}

/// Push a (relation, count) entry when the count is not zero.
fn push_relation_count(v: &mut Vec<(RelationType, usize)>, t: RelationType, c: usize)
    ensures
        final(v)@ == old(v)@ + (if c > 0 {
            seq![(t, c)]
        } else {
            Seq::<(RelationType, usize)>::empty()
        }),
{
    if c > 0 {
        v.push((t, c));
        proof {
            assert(final(v)@ =~= old(v)@ + seq![(t, c)]);
        }
    } else {
        proof {
            assert(final(v)@ =~= old(v)@ + Seq::<(RelationType, usize)>::empty());
        }
    }
}


/// The nodes whose IRI does not start with the prefix.
pub open spec fn nodes_without_prefix(nodes: Seq<NodeView>, p: Seq<char>) -> Seq<NodeView> {
    nodes.filter(|n: NodeView| !p.is_prefix_of(n.id))
}

/// The edges whose source IRI does not start with the prefix.
pub open spec fn edges_without_prefix(edges: Seq<EdgeView>, p: Seq<char>) -> Seq<EdgeView> {
    edges.filter(|e: EdgeView| !p.is_prefix_of(e.from))
}

impl TripleStore {
    /// Remove every node whose IRI starts with the prefix, together
    /// with every edge leaving such a node.
    #[verifier::loop_isolation(false)]
    #[verifier::rlimit(60)]
    pub fn delete_nodes_with_prefix(&mut self, prefix: &str)
        requires
            old(self).wf(),
        ensures
            final(self).wf(),
            final(self).nodes_view() == nodes_without_prefix(old(self).nodes_view(), prefix@),
            final(self).edges_view() == edges_without_prefix(old(self).edges_view(), prefix@),
    {
        let ghost nv = self.nodes_view();
        let ghost ev = self.edges_view();
        let pv = crate::text::chars_of(prefix);
        let mut kept: Vec<Node> = Vec::new();
        let mut i: usize = 0;
        while i < self.nodes.len()
            invariant
                i <= self.nodes.len(),
                nv == self.nodes_view(),
                pv@ == prefix@,
                kept.deep_view() == nodes_without_prefix(nv.take(i as int), prefix@),
            decreases self.nodes.len() - i,
        {
            let ghost kpre = kept.deep_view();
            let ghost kvpre = kept@;
            let idv = crate::text::chars_of(self.nodes[i].id.as_str());
            let hit = crate::text::has_prefix(&idv, prefix);
            proof {
                assert(self.nodes.deep_view()[i as int] == self.nodes@[i as int]@);
                assert(nv.take(i + 1 as int).drop_last() =~= nv.take(i as int));
                assert(nv.take(i + 1 as int).last() == nv[i as int]);
            }
            if !hit {
                kept.push(self.nodes[i].clone());
                proof {
                    assert forall|q: int| 0 <= q < kept@.len() implies #[trigger] kept.deep_view()[
                        q] == kpre.push(nv[i as int])[q] by {
                        assert(kept.deep_view()[q] == kept@[q]@);
                        if q < kvpre.len() {
                            assert(kept@[q] == kvpre[q]);
                            assert(kpre[q] == kvpre[q]@);
                        }
                    }
                    reveal(Seq::filter);
                    assert(kept.deep_view() =~= kpre.push(nv[i as int]));
                    assert(kept.deep_view() =~= nodes_without_prefix(
                        nv.take(i + 1 as int),
                        prefix@,
                    ));
                }
            } else {
                proof {
                    reveal(Seq::filter);
                    assert(kept.deep_view() =~= nodes_without_prefix(
                        nv.take(i + 1 as int),
                        prefix@,
                    ));
                }
            }
            i = i + 1;
        }
        proof {
            assert(nv.take(nv.len() as int) =~= nv);
        }
        self.nodes = kept;
        let mut ekept: Vec<Edge> = Vec::new();
        let mut j: usize = 0;
        while j < self.edges.len()
            invariant
                j <= self.edges.len(),
                ev == self.edges_view(),
                pv@ == prefix@,
                ekept.deep_view() == edges_without_prefix(ev.take(j as int), prefix@),
            decreases self.edges.len() - j,
        {
            let ghost kpre = ekept.deep_view();
            let ghost kvpre = ekept@;
            let fv = crate::text::chars_of(self.edges[j].from.as_str());
            let hit = crate::text::has_prefix(&fv, prefix);
            proof {
                assert(self.edges.deep_view()[j as int] == self.edges@[j as int]@);
                assert(ev.take(j + 1 as int).drop_last() =~= ev.take(j as int));
                assert(ev.take(j + 1 as int).last() == ev[j as int]);
            }
            if !hit {
                ekept.push(self.edges[j].clone());
                proof {
                    assert forall|q: int| 0 <= q < ekept@.len() implies #[trigger] ekept
                        .deep_view()[q] == kpre.push(ev[j as int])[q] by {
                        assert(ekept.deep_view()[q] == ekept@[q]@);
                        if q < kvpre.len() {
                            assert(ekept@[q] == kvpre[q]);
                            assert(kpre[q] == kvpre[q]@);
                        }
                    }
                    reveal(Seq::filter);
                    assert(ekept.deep_view() =~= kpre.push(ev[j as int]));
                    assert(ekept.deep_view() =~= edges_without_prefix(
                        ev.take(j + 1 as int),
                        prefix@,
                    ));
                }
            } else {
                proof {
                    reveal(Seq::filter);
                    assert(ekept.deep_view() =~= edges_without_prefix(
                        ev.take(j + 1 as int),
                        prefix@,
                    ));
                }
            }
            j = j + 1;
        }
        proof {
            assert(ev.take(ev.len() as int) =~= ev);
        }
        self.edges = ekept;
        proof {
            lemma_delete_prefix_wf(nv, ev, prefix@);
        }
    }
}

/// Filtering by prefix keeps the store invariant.
proof fn lemma_delete_prefix_wf(nv: Seq<NodeView>, ev: Seq<EdgeView>, p: Seq<char>)
    requires
        forall|i: int, j: int|
            0 <= i < j < nv.len() ==> (#[trigger] nv[i]).id != (#[trigger] nv[j]).id,
        forall|i: int, j: int|
            0 <= i < j < ev.len() ==> (#[trigger] ev[i]).id != (#[trigger] ev[j]).id,
        forall|i: int| 0 <= i < ev.len() ==> (#[trigger] ev[i]).in_range(),
        forall|i: int| 0 <= i < ev.len() ==> has_node_id(nv, (#[trigger] ev[i]).from),
    ensures
        ({
            let nv2 = nodes_without_prefix(nv, p);
            let ev2 = edges_without_prefix(ev, p);
            (forall|i: int, j: int|
                0 <= i < j < nv2.len() ==> (#[trigger] nv2[i]).id != (#[trigger] nv2[j]).id)
                && (forall|i: int, j: int|
                0 <= i < j < ev2.len() ==> (#[trigger] ev2[i]).id != (#[trigger] ev2[j]).id) && (
            forall|i: int| 0 <= i < ev2.len() ==> (#[trigger] ev2[i]).in_range()) && (forall|
                i: int,
            |
                0 <= i < ev2.len() ==> has_node_id(nv2, (#[trigger] ev2[i]).from))
        }),
{
    let nv2 = nodes_without_prefix(nv, p);
    let ev2 = edges_without_prefix(ev, p);
    assert forall|i: int, j: int|
        0 <= i < j < nv2.len() implies (#[trigger] nv2[i]).id != (#[trigger] nv2[j]).id by {
        lemma_pref_distinct_nodes(nv, p, i, j);
    }
    assert forall|i: int, j: int|
        0 <= i < j < ev2.len() implies (#[trigger] ev2[i]).id != (#[trigger] ev2[j]).id by {
        lemma_pref_distinct_edges(ev, p, i, j);
    }
    assert forall|i: int| 0 <= i < ev2.len() implies (#[trigger] ev2[i]).in_range()
        && has_node_id(nv2, ev2[i].from) by {
        ev.lemma_filter_pred(|e: EdgeView| !p.is_prefix_of(e.from), i);
        lemma_pref_contains_edge(ev, p, i);
        let w = choose|w: int| 0 <= w < ev.len() && ev[w] == ev2[i];
        assert(ev[w].in_range());
        assert(has_node_id(nv, ev[w].from));
        let u = choose|u: int| 0 <= u < nv.len() && (#[trigger] nv[u]).id == ev[w].from;
        assert(!p.is_prefix_of(nv[u].id));
        lemma_pref_keeps_node(nv, p, u);
    }
}

proof fn lemma_pref_contains_node(nv: Seq<NodeView>, p: Seq<char>, i: int)
    requires
        0 <= i < nodes_without_prefix(nv, p).len(),
    ensures
        nv.contains(nodes_without_prefix(nv, p)[i]),
    decreases nv.len(),
{
    reveal(Seq::filter);
    if nv.len() > 0 {
        let pred = |n: NodeView| !p.is_prefix_of(n.id);
        if i < nv.drop_last().filter(pred).len() {
            lemma_pref_contains_node(nv.drop_last(), p, i);
            let w = choose|w: int|
                0 <= w < nv.drop_last().len() && nv.drop_last()[w] == nodes_without_prefix(
                    nv,
                    p,
                )[i];
            assert(nv[w] == nodes_without_prefix(nv, p)[i]);
        } else {
            assert(nodes_without_prefix(nv, p)[i] == nv.last());
        }
    }
}

proof fn lemma_pref_distinct_nodes(nv: Seq<NodeView>, p: Seq<char>, i: int, j: int)
    requires
        forall|a: int, b: int|
            0 <= a < b < nv.len() ==> (#[trigger] nv[a]).id != (#[trigger] nv[b]).id,
        0 <= i < j < nodes_without_prefix(nv, p).len(),
    ensures
        nodes_without_prefix(nv, p)[i].id != nodes_without_prefix(nv, p)[j].id,
    decreases nv.len(),
{
    reveal(Seq::filter);
    let pred = |n: NodeView| !p.is_prefix_of(n.id);
    if nv.len() > 0 {
        let fl = nv.drop_last().filter(pred);
        if j < fl.len() {
            assert(forall|a: int, b: int|
                0 <= a < b < nv.drop_last().len() ==> (#[trigger] nv.drop_last()[a]).id != (
                #[trigger] nv.drop_last()[b]).id);
            lemma_pref_distinct_nodes(nv.drop_last(), p, i, j);
        } else {
            lemma_pref_contains_node(nv, p, i);
            let w = choose|w: int| 0 <= w < nv.len() && nv[w] == nodes_without_prefix(nv, p)[i];
            assert(nodes_without_prefix(nv, p)[j] == nv.last());
            if w < nv.len() - 1 {
                assert(nv[w].id != nv[nv.len() - 1].id);
            } else {
                assert(i < fl.len());
                lemma_pref_contains_node(nv.drop_last(), p, i);
                let u = choose|u: int|
                    0 <= u < nv.drop_last().len() && nv.drop_last()[u] == fl[i];
                assert(nv[u] == nodes_without_prefix(nv, p)[i]);
                assert(nv[u].id != nv[nv.len() - 1].id);
            }
        }
    }
}

proof fn lemma_pref_contains_edge(ev: Seq<EdgeView>, p: Seq<char>, i: int)
    requires
        0 <= i < edges_without_prefix(ev, p).len(),
    ensures
        ev.contains(edges_without_prefix(ev, p)[i]),
    decreases ev.len(),
{
    reveal(Seq::filter);
    if ev.len() > 0 {
        let pred = |e: EdgeView| !p.is_prefix_of(e.from);
        if i < ev.drop_last().filter(pred).len() {
            lemma_pref_contains_edge(ev.drop_last(), p, i);
            let w = choose|w: int|
                0 <= w < ev.drop_last().len() && ev.drop_last()[w] == edges_without_prefix(
                    ev,
                    p,
                )[i];
            assert(ev[w] == edges_without_prefix(ev, p)[i]);
        } else {
            assert(edges_without_prefix(ev, p)[i] == ev.last());
        }
    }
}

proof fn lemma_pref_distinct_edges(ev: Seq<EdgeView>, p: Seq<char>, i: int, j: int)
    requires
        forall|a: int, b: int|
            0 <= a < b < ev.len() ==> (#[trigger] ev[a]).id != (#[trigger] ev[b]).id,
        0 <= i < j < edges_without_prefix(ev, p).len(),
    ensures
        edges_without_prefix(ev, p)[i].id != edges_without_prefix(ev, p)[j].id,
    decreases ev.len(),
{
    reveal(Seq::filter);
    let pred = |e: EdgeView| !p.is_prefix_of(e.from);
    if ev.len() > 0 {
        let fl = ev.drop_last().filter(pred);
        if j < fl.len() {
            assert(forall|a: int, b: int|
                0 <= a < b < ev.drop_last().len() ==> (#[trigger] ev.drop_last()[a]).id != (
                #[trigger] ev.drop_last()[b]).id);
            lemma_pref_distinct_edges(ev.drop_last(), p, i, j);
        } else {
            lemma_pref_contains_edge(ev, p, i);
            let w = choose|w: int| 0 <= w < ev.len() && ev[w] == edges_without_prefix(ev, p)[i];
            assert(edges_without_prefix(ev, p)[j] == ev.last());
            if w < ev.len() - 1 {
                assert(ev[w].id != ev[ev.len() - 1].id);
            } else {
                assert(i < fl.len());
                lemma_pref_contains_edge(ev.drop_last(), p, i);
                let u = choose|u: int|
                    0 <= u < ev.drop_last().len() && ev.drop_last()[u] == fl[i];
                assert(ev[u] == edges_without_prefix(ev, p)[i]);
                assert(ev[u].id != ev[ev.len() - 1].id);
            }
        }
    }
}

proof fn lemma_pref_keeps_node(nv: Seq<NodeView>, p: Seq<char>, u: int)
    requires
        0 <= u < nv.len(),
        !p.is_prefix_of(nv[u].id),
    ensures
        has_node_id(nodes_without_prefix(nv, p), nv[u].id),
    decreases nv.len(),
{
    reveal(Seq::filter);
    let pred = |n: NodeView| !p.is_prefix_of(n.id);
    if u == nv.len() - 1 {
        let fl = nodes_without_prefix(nv, p);
        assert(fl.last() == nv[u]);
        assert(fl[fl.len() - 1].id == nv[u].id);
    } else {
        lemma_pref_keeps_node(nv.drop_last(), p, u);
        let fl0 = nv.drop_last().filter(pred);
        let w = choose|w: int| 0 <= w < fl0.len() && (#[trigger] fl0[w]).id == nv[u].id;
        if pred(nv.last()) {
            assert(nodes_without_prefix(nv, p)[w].id == nv[u].id);
        } else {
            assert(nodes_without_prefix(nv, p) == fl0);
            assert(nodes_without_prefix(nv, p)[w].id == nv[u].id);
        }
    }
}



/// Whether a pattern term accepts a value: a `?variable` accepts
/// anything, any other term must equal the value.
pub open spec fn spec_term_matches(term: Seq<char>, value: Seq<char>) -> bool {
    (term.len() > 0 && term[0] == '?') || term == value
}

/// A row with one more binding when the term is a variable.
pub open spec fn spec_push_binding(
    row: Seq<(Seq<char>, Seq<char>)>,
    term: Seq<char>,
    value: Seq<char>,
) -> Seq<(Seq<char>, Seq<char>)> {
    if term.len() > 0 && term[0] == '?' {
        row.push((term, value))
    } else {
        row
    }
}

/// The solution row one triple yields: a binding for each variable
/// term, in subject, predicate, object order.
pub open spec fn spec_row(
    p1: Seq<char>,
    p2: Seq<char>,
    p3: Seq<char>,
    tr: crate::nquads::TripleView,
) -> Seq<(Seq<char>, Seq<char>)> {
    spec_push_binding(
        spec_push_binding(
            spec_push_binding(Seq::<(Seq<char>, Seq<char>)>::empty(), p1, tr.subject),
            p2,
            tr.predicate,
        ),
        p3,
        tr.object,
    )
}

/// The solution rows of the triples from `i` on, one per triple that
/// all three pattern terms accept, in order.
pub open spec fn spec_rows(
    triples: Seq<crate::nquads::TripleView>,
    p1: Seq<char>,
    p2: Seq<char>,
    p3: Seq<char>,
    i: int,
) -> Seq<Seq<(Seq<char>, Seq<char>)>>
    decreases triples.len() - i,
{
    if i < 0 || i >= triples.len() {
        Seq::empty()
    } else {
        let rest = spec_rows(triples, p1, p2, p3, i + 1);
        if spec_term_matches(p1, triples[i].subject) && spec_term_matches(
            p2,
            triples[i].predicate,
        ) && spec_term_matches(p3, triples[i].object) {
            seq![spec_row(p1, p2, p3, triples[i])] + rest
        } else {
            rest
        }
    }
}

/// The single triple pattern of a SELECT query: the text between the
/// first braces, trimmed, less one trailing dot; nothing when the
/// braces are missing or empty.
pub open spec fn spec_pattern(t: Seq<char>) -> Option<Seq<char>> {
    let open_i = crate::strength::find_from(t, '{', 0);
    let close_i = crate::strength::find_from(t, '}', open_i);
    if open_i >= t.len() || close_i >= t.len() || close_i <= open_i {
        None
    } else {
        let trimmed = crate::text::trim_seq(t.subrange(open_i + 1, close_i));
        Some(
            if trimmed.len() > 0 && trimmed.last() == '.' {
                crate::text::trim_seq(trimmed.drop_last())
            } else {
                trimmed
            },
        )
    }
}

/// What a query answers over the store's RDF mapping: `ASK` yields no
/// rows, `CONSTRUCT` and `DESCRIBE` are refused, and a `SELECT` with a
/// single triple pattern yields one row per matching triple; anything
/// else is refused.
pub open spec fn spec_query_rows(
    nodes: Seq<NodeView>,
    edges: Seq<EdgeView>,
    q: Seq<char>,
) -> Option<Seq<Seq<(Seq<char>, Seq<char>)>>> {
    let t = crate::text::trim_seq(q);
    let lower = crate::text::lower_seq(t);
    if "ask"@.is_prefix_of(lower) {
        Some(Seq::empty())
    } else if "construct"@.is_prefix_of(lower) || "describe"@.is_prefix_of(lower) {
        None
    } else if !"select"@.is_prefix_of(lower) {
        None
    } else {
        match spec_pattern(t) {
            None => None,
            Some(pat) => match crate::nquads::spec_parse_line(pat) {
                None => None,
                Some((p1, p2, p3)) => Some(
                    spec_rows(crate::nquads::spec_triples(nodes, edges), p1, p2, p3, 0),
                ),
            },
        }
    }
}

/// One solution row rendered as text: its pairs as `var = value`,
/// joined with `, `, from pair `j` on.
pub open spec fn spec_row_line(row: Seq<(Seq<char>, Seq<char>)>, j: int) -> Seq<char>
    decreases row.len() - j,
{
    if j < 0 || j >= row.len() {
        Seq::empty()
    } else {
        (if j > 0 {
            ", "@
        } else {
            Seq::<char>::empty()
        }) + row[j].0 + " = "@ + row[j].1 + spec_row_line(row, j + 1)
    }
}

/// The rendered rows from `i` on, one line each.
pub open spec fn spec_row_lines(
    rows: Seq<Seq<(Seq<char>, Seq<char>)>>,
    i: int,
) -> Seq<Seq<char>>
    decreases rows.len() - i,
{
    if i < 0 || i >= rows.len() {
        Seq::empty()
    } else {
        seq![spec_row_line(rows[i], 0)] + spec_row_lines(rows, i + 1)
    }
}

impl TripleStore {
    /// Answer a query, solutions as ordered variable/value pairs: `ASK`
    /// yields no rows, `CONSTRUCT` and `DESCRIBE` are refused, and a
    /// `SELECT` with a single triple pattern between braces is matched
    /// against the RDF mapping of the store. Anything else is refused.
    #[verifier::loop_isolation(false)]
    #[verifier::rlimit(100)]
    pub fn query_rows(&self, sparql: &str) -> (r: Result<
        Vec<Vec<(String, String)>>,
        RepoError,
    >)
        requires
            self.wf(),
        ensures
            match spec_query_rows(self.nodes_view(), self.edges_view(), sparql@) {
                Some(rows) => r matches Ok(v) && v.deep_view() == rows,
                None => r matches Err(e) && e is StoreFailure,
            },
    {
        let qv = crate::text::chars_of(sparql);
        let t = crate::text::trim_chars(&qv);
        let lower = crate::text::ascii_lower(&t);
        if crate::text::has_prefix(&lower, "ask") {
            let out: Vec<Vec<(String, String)>> = Vec::new();
            proof {
                assert(out.deep_view() =~= Seq::<Seq<(Seq<char>, Seq<char>)>>::empty());
            }
            return Ok(out);
        }
        if crate::text::has_prefix(&lower, "construct") || crate::text::has_prefix(
            &lower,
            "describe",
        ) {
            return Err(RepoError::StoreFailure(crate::text::string_from(&crate::text::chars_of(
                "CONSTRUCT and DESCRIBE are not supported",
            ))));
        }
        if !crate::text::has_prefix(&lower, "select") {
            return Err(RepoError::StoreFailure(crate::text::string_from(&crate::text::chars_of(
                "only SELECT and ASK are supported",
            ))));
        }
        // the single triple pattern between the braces
        let mut open_i: usize = 0;
        while open_i < t.len() && t[open_i] != '{'
            invariant
                open_i <= t@.len(),
                forall|j: int| 0 <= j < open_i ==> t@[j] != '{',
            decreases t@.len() - open_i,
        {
            open_i = open_i + 1;
        }
        proof {
            crate::strength::lemma_find_from_is(t@, '{', open_i as int);
        }
        let mut close_i: usize = open_i;
        while close_i < t.len() && t[close_i] != '}'
            invariant
                open_i <= close_i <= t@.len(),
                forall|j: int| open_i <= j < close_i ==> t@[j] != '}',
            decreases t@.len() - close_i,
        {
            close_i = close_i + 1;
        }
        proof {
            crate::strength::lemma_find_from_range(
                t@,
                '}',
                open_i as int,
                close_i as int,
            );
        }
        if open_i >= t.len() || close_i >= t.len() || close_i <= open_i {
            return Err(RepoError::StoreFailure(crate::text::string_from(&crate::text::chars_of(
                "no triple pattern between braces",
            ))));
        }
        let mut inner: Vec<char> = Vec::new();
        let mut k: usize = open_i + 1;
        while k < close_i
            invariant
                open_i + 1 <= k <= close_i <= t@.len(),
                inner@ == t@.subrange(open_i + 1, k as int),
            decreases close_i - k,
        {
            inner.push(t[k]);
            proof {
                assert(t@.subrange(open_i + 1, k + 1 as int) =~= t@.subrange(
                    open_i + 1,
                    k as int,
                ).push(t@[k as int]));
            }
            k = k + 1;
        }
        // drop a trailing dot of the pattern
        let trimmed = crate::text::trim_chars(&inner);
        let mut pat = trimmed;
        if pat.len() > 0 && pat[pat.len() - 1] == '.' {
            let ghost patv = pat@;
            let mut shorter: Vec<char> = Vec::new();
            let mut q2: usize = 0;
            while pat.len() - q2 > 1
                invariant
                    q2 < pat@.len(),
                    pat@ == patv,
                    pat@.len() > 0,
                    shorter@ == patv.take(q2 as int),
                decreases pat@.len() - q2,
            {
                shorter.push(pat[q2]);
                proof {
                    assert(patv.take(q2 + 1 as int) =~= patv.take(q2 as int).push(
                        patv[q2 as int],
                    ));
                }
                q2 = q2 + 1;
            }
            proof {
                assert(shorter@ =~= patv.drop_last());
            }
            pat = crate::text::trim_chars(&shorter);
        }
        proof {
            assert(Some(pat@) == spec_pattern(t@));
        }
        let pat_s = crate::text::string_from(&pat);
        let terms = match crate::nquads::parse_nquads_line(pat_s.as_str()) {
            Some(x) => x,
            None => {
                return Err(RepoError::StoreFailure(crate::text::string_from(
                    &crate::text::chars_of("the triple pattern does not parse"),
                )));
            },
        };
        let (p1, p2, p3) = terms;
        let triples = crate::nquads::triples_of_store(self);
        let ghost tv = triples.deep_view();
        let mut rows: Vec<Vec<(String, String)>> = Vec::new();
        let mut i: usize = 0;
        while i < triples.len()
            invariant
                i <= triples@.len(),
                tv == triples.deep_view(),
                spec_rows(tv, p1@, p2@, p3@, 0) == rows.deep_view() + spec_rows(
                    tv,
                    p1@,
                    p2@,
                    p3@,
                    i as int,
                ),
            decreases triples@.len() - i,
        {
            proof {
                assert(triples.deep_view()[i as int] == triples@[i as int]@);
            }
            let tr = &triples[i];
            let m1 = term_matches(p1.as_str(), tr.subject.as_str());
            let m2 = term_matches(p2.as_str(), tr.predicate.as_str());
            let m3 = term_matches(p3.as_str(), tr.object.as_str());
            if m1 && m2 && m3 {
                let mut row: Vec<(String, String)> = Vec::new();
                proof {
                    assert(row.deep_view() =~= Seq::<(Seq<char>, Seq<char>)>::empty());
                }
                push_binding(&mut row, p1.as_str(), tr.subject.as_str());
                push_binding(&mut row, p2.as_str(), tr.predicate.as_str());
                push_binding(&mut row, p3.as_str(), tr.object.as_str());
                let ghost rowsd = rows.deep_view();
                let ghost rowspre = rows@;
                rows.push(row);
                proof {
                    assert(row.deep_view() == spec_row(p1@, p2@, p3@, tv[i as int]));
                    assert forall|w: int| 0 <= w < rows@.len() implies #[trigger] rows.deep_view()[w]
                        == (if w < rowspre.len() {
                        rowsd[w]
                    } else {
                        row.deep_view()
                    }) by {
                        assert(rows.deep_view()[w] == rows@[w].deep_view());
                        if w < rowspre.len() {
                            assert(rows@[w] == rowspre[w]);
                            assert(rowsd[w] == rowspre[w].deep_view());
                        }
                    }
                    assert(rows.deep_view() =~= rowsd.push(row.deep_view()));
                    assert(rowsd + spec_rows(tv, p1@, p2@, p3@, i as int) == rowsd + (seq![
                        spec_row(p1@, p2@, p3@, tv[i as int]),
                    ] + spec_rows(tv, p1@, p2@, p3@, i + 1)));
                    assert(rowsd + (seq![spec_row(p1@, p2@, p3@, tv[i as int])] + spec_rows(
                        tv,
                        p1@,
                        p2@,
                        p3@,
                        i + 1,
                    )) =~= rows.deep_view() + spec_rows(tv, p1@, p2@, p3@, i + 1));
                }
            } else {
                proof {
                    assert(spec_rows(tv, p1@, p2@, p3@, i as int) == spec_rows(
                        tv,
                        p1@,
                        p2@,
                        p3@,
                        i + 1,
                    ));
                }
            }
            i = i + 1;
        }
        proof {
            assert(spec_rows(tv, p1@, p2@, p3@, tv.len() as int)
                =~= Seq::<Seq<(Seq<char>, Seq<char>)>>::empty());
            assert(rows.deep_view() + spec_rows(tv, p1@, p2@, p3@, tv.len() as int)
                =~= rows.deep_view());
        }
        Ok(rows)
    }

    /// Answer a query as variable-to-value maps, one per solution.
    pub fn query(&self, sparql: &str) -> (r: Result<crate::graph::QueryResult, RepoError>)
        requires
            self.wf(),
        ensures
            match spec_query_rows(self.nodes_view(), self.edges_view(), sparql@) {
                Some(rows) => r matches Ok(qr) && qr.bindings@.len() == rows.len(),
                None => r matches Err(e) && e is StoreFailure,
            },
    {
        let rows = match self.query_rows(sparql) {
            Ok(rows) => rows,
            Err(e) => {
                return Err(e);
            },
        };
        let mut result = crate::graph::QueryResult::new();
        let mut i: usize = 0;
        while i < rows.len()
            invariant
                i <= rows@.len(),
                result.bindings@.len() == i,
            decreases rows@.len() - i,
        {
            let mut map: std::collections::HashMap<String, String> =
                std::collections::HashMap::new();
            let pairs = &rows[i];
            let mut j: usize = 0;
            while j < pairs.len()
                invariant
                    j <= pairs@.len(),
                decreases pairs@.len() - j,
            {
                map.insert(pairs[j].0.clone(), pairs[j].1.clone());
                j = j + 1;
            }
            result.add_binding(map);
            i = i + 1;
        }
        Ok(result)
    }

    /// Answer a query, each solution already formatted as one line of
    /// `var = value` pairs.
    #[verifier::loop_isolation(false)]
    pub fn sparql_query(&self, sparql: &str) -> (r: Result<Vec<String>, RepoError>)
        requires
            self.wf(),
        ensures
            match spec_query_rows(self.nodes_view(), self.edges_view(), sparql@) {
                Some(rows) => r matches Ok(v) && v.deep_view() == spec_row_lines(rows, 0),
                None => r matches Err(e) && e is StoreFailure,
            },
    {
        let rows = match self.query_rows(sparql) {
            Ok(rows) => rows,
            Err(e) => {
                return Err(e);
            },
        };
        let ghost rv = rows.deep_view();
        let mut out: Vec<String> = Vec::new();
        let mut i: usize = 0;
        while i < rows.len()
            invariant
                i <= rows@.len(),
                rv == rows.deep_view(),
                spec_row_lines(rv, 0) == out.deep_view() + spec_row_lines(rv, i as int),
            decreases rows@.len() - i,
        {
            proof {
                assert(rows.deep_view()[i as int] == rows@[i as int].deep_view());
            }
            let mut line: Vec<char> = Vec::new();
            let pairs = &rows[i];
            let ghost prow = rv[i as int];
            let mut j: usize = 0;
            while j < pairs.len()
                invariant
                    j <= pairs@.len(),
                    prow == rv[i as int],
                    prow == pairs.deep_view(),
                    spec_row_line(prow, 0) == line@ + spec_row_line(prow, j as int),
                decreases pairs@.len() - j,
            {
                proof {
                    assert(pairs.deep_view()[j as int] == pairs@[j as int].deep_view());
                    assert(prow[j as int].0 == pairs@[j as int].0@);
                    assert(prow[j as int].1 == pairs@[j as int].1@);
                }
                let ghost lpre = line@;
                if j > 0 {
                    crate::frontmatter::append_str(&mut line, ", ");
                }
                crate::frontmatter::append_str(&mut line, pairs[j].0.as_str());
                crate::frontmatter::append_str(&mut line, " = ");
                crate::frontmatter::append_str(&mut line, pairs[j].1.as_str());
                proof {
                    if j > 0 {
                        assert(line@ =~= lpre + (", "@ + prow[j as int].0 + " = "@ + prow[
                            j as int].1));
                        assert(lpre + spec_row_line(prow, j as int) =~= lpre + (", "@ + prow[
                            j as int].0 + " = "@ + prow[j as int].1) + spec_row_line(
                            prow,
                            j + 1,
                        ));
                    } else {
                        assert(line@ =~= lpre + (Seq::<char>::empty() + prow[j as int].0
                            + " = "@ + prow[j as int].1));
                        assert(lpre + spec_row_line(prow, j as int) =~= lpre + (
                        Seq::<char>::empty() + prow[j as int].0 + " = "@ + prow[j as int].1)
                            + spec_row_line(prow, j + 1));
                    }
                }
                j = j + 1;
            }
            proof {
                assert(spec_row_line(prow, pairs@.len() as int) =~= Seq::<char>::empty());
                assert(line@ + spec_row_line(prow, pairs@.len() as int) =~= line@);
            }
            let ghost outd = out.deep_view();
            let ghost outpre = out@;
            out.push(crate::text::string_from(&line));
            proof {
                assert forall|w: int| 0 <= w < out@.len() implies #[trigger] out.deep_view()[w]
                    == (if w < outpre.len() {
                    outd[w]
                } else {
                    line@
                }) by {
                    assert(out.deep_view()[w] == out@[w]@);
                    if w < outpre.len() {
                        assert(out@[w] == outpre[w]);
                        assert(outd[w] == outpre[w]@);
                    }
                }
                assert(out.deep_view() =~= outd.push(line@));
                assert(spec_row_lines(rv, i as int) == seq![spec_row_line(rv[i as int], 0)]
                    + spec_row_lines(rv, i + 1));
                assert(outd + spec_row_lines(rv, i as int) =~= out.deep_view() + spec_row_lines(
                    rv,
                    i + 1,
                ));
            }
            i = i + 1;
        }
        proof {
            assert(spec_row_lines(rv, rv.len() as int) =~= Seq::<Seq<char>>::empty());
            assert(out.deep_view() + spec_row_lines(rv, rv.len() as int) =~= out.deep_view());
        }
        Ok(out)
    }
}

/// Whether a pattern term accepts a value: a `?variable` accepts
/// anything, any other term must equal the value.
fn term_matches(term: &str, value: &str) -> (r: bool)
    ensures
        r == spec_term_matches(term@, value@),
{
    let tv = crate::text::chars_of(term);
    if tv.len() > 0 && tv[0] == '?' {
        return true;
    }
    crate::text::eq_str(&tv, value)
}

/// Record a binding when the term is a variable.
fn push_binding(row: &mut Vec<(String, String)>, term: &str, value: &str)
    ensures
        final(row).deep_view() == spec_push_binding(old(row).deep_view(), term@, value@),
{
    let tv = crate::text::chars_of(term);
    if tv.len() > 0 && tv[0] == '?' {
        let vv = crate::text::chars_of(value);
        let ghost rowd = old(row).deep_view();
        let ghost rowpre = row@;
        row.push((crate::text::string_from(&tv), crate::text::string_from(&vv)));
        proof {
            assert forall|w: int| 0 <= w < row@.len() implies #[trigger] row.deep_view()[w] == (
            if w < rowpre.len() {
                rowd[w]
            } else {
                (term@, value@)
            }) by {
                assert(row.deep_view()[w] == row@[w].deep_view());
                if w < rowpre.len() {
                    assert(row@[w] == rowpre[w]);
                    assert(rowd[w] == rowpre[w].deep_view());
                }
            }
            assert(row.deep_view() =~= rowd.push((term@, value@)));
        }
    }
}

/// Nothing before the found index carries the IRI.
pub proof fn lemma_node_find_prefix(nodes: Seq<NodeView>, id: Seq<char>, lo: int)
    requires
        0 <= lo <= nodes.len(),
    ensures
        forall|j: int|
            lo <= j < node_find(nodes, id, lo) && j < nodes.len() ==> (#[trigger] nodes[j]).id
                != id,
    decreases nodes.len() - lo,
{
    if lo < nodes.len() && nodes[lo].id != id {
        lemma_node_find_prefix(nodes, id, lo + 1);
    }
}

/// Nothing before the found index carries the IRI.
pub proof fn lemma_edge_find_prefix(edges: Seq<EdgeView>, id: Seq<char>, lo: int)
    requires
        0 <= lo <= edges.len(),
    ensures
        forall|j: int|
            lo <= j < edge_find(edges, id, lo) && j < edges.len() ==> (#[trigger] edges[j]).id
                != id,
    decreases edges.len() - lo,
{
    if lo < edges.len() && edges[lo].id != id {
        lemma_edge_find_prefix(edges, id, lo + 1);
    }
}

/// Adding the same node twice is the same as adding it once: the second
/// add overwrites the record the first one wrote.
pub proof fn lemma_add_node_idempotent(nodes: Seq<NodeView>, n: NodeView)
    ensures
        nodes_after_add(nodes_after_add(nodes, n), n) == nodes_after_add(nodes, n),
{
    lemma_node_find_props(nodes, n.id);
    lemma_node_find_prefix(nodes, n.id, 0);
    let k = node_find(nodes, n.id, 0);
    let n1 = nodes_after_add(nodes, n);
    if k < nodes.len() {
        lemma_node_find_at(n1, n.id, k);
        assert(n1.update(k, n) =~= n1);
    } else {
        assert forall|j: int| 0 <= j < nodes.len() implies (#[trigger] n1[j]).id != n.id by {
            if n1[j].id == n.id {
                assert(nodes[j].id == n.id);
                assert(has_node_id(nodes, n.id));
            }
        }
        lemma_node_find_at(n1, n.id, nodes.len() as int);
        assert(n1.update(nodes.len() as int, n) =~= n1);
    }
}

/// Adding the same edge twice is the same as adding it once.
pub proof fn lemma_add_edge_idempotent(edges: Seq<EdgeView>, e: EdgeView)
    ensures
        edges_after_add(edges_after_add(edges, e), e) == edges_after_add(edges, e),
{
    lemma_edge_find_props(edges, e.id);
    lemma_edge_find_prefix(edges, e.id, 0);
    let k = edge_find(edges, e.id, 0);
    let e1 = edges_after_add(edges, e);
    if k < edges.len() {
        lemma_edge_find_at(e1, e.id, k);
        assert(e1.update(k, e) =~= e1);
    } else {
        assert forall|j: int| 0 <= j < edges.len() implies (#[trigger] e1[j]).id != e.id by {
            if e1[j].id == e.id {
                assert(edges[j].id == e.id);
                assert(has_edge_id(edges, e.id));
            }
        }
        lemma_edge_find_at(e1, e.id, edges.len() as int);
        assert(e1.update(edges.len() as int, e) =~= e1);
    }
}

/// Every edge a well-formed store holds has its strength and confidence
/// in [0, 1]: whatever `add_edge` accepted was clamped into range.
pub proof fn lemma_stored_edges_in_range(store: TripleStore)
    requires
        store.wf(),
    ensures
        forall|i: int|
            0 <= i < store.edges_view().len() ==> 0 <= (#[trigger] store.edges_view()[
                i]).strength <= 1000 && 0 <= store.edges_view()[i].confidence <= 1000,
{
    assert forall|i: int| 0 <= i < store.edges_view().len() implies 0 <= (
    #[trigger] store.edges_view()[i]).strength <= 1000 && 0 <= store.edges_view()[i].confidence
        <= 1000 by {
        assert(store.edges_view()[i].in_range());
    }
}



/// Removing an absent IRI removes nothing.
pub proof fn lemma_nodes_without_absent(nodes: Seq<NodeView>, id: Seq<char>)
    requires
        !has_node_id(nodes, id),
    ensures
        nodes_without(nodes, id) == nodes,
    decreases nodes.len(),
{
    reveal(Seq::filter);
    if nodes.len() > 0 {
        assert(!has_node_id(nodes.drop_last(), id)) by {
            if has_node_id(nodes.drop_last(), id) {
                let w = choose|w: int|
                    0 <= w < nodes.drop_last().len() && (#[trigger] nodes.drop_last()[w]).id
                        == id;
                assert(nodes[w].id == id);
            }
        }
        lemma_nodes_without_absent(nodes.drop_last(), id);
        assert(nodes[nodes.len() - 1].id != id) by {
            if nodes[nodes.len() - 1].id == id {
                assert(has_node_id(nodes, id));
            }
        }
        assert(nodes_without(nodes, id) =~= nodes);
    } else {
        assert(nodes_without(nodes, id) =~= nodes);
    }
}

/// Removing edges of a source no edge leaves removes nothing.
pub proof fn lemma_edges_without_from_none(edges: Seq<EdgeView>, id: Seq<char>)
    requires
        forall|i: int| 0 <= i < edges.len() ==> (#[trigger] edges[i]).from != id,
    ensures
        edges_without_from(edges, id) == edges,
    decreases edges.len(),
{
    reveal(Seq::filter);
    if edges.len() > 0 {
        assert(forall|i: int|
            0 <= i < edges.drop_last().len() ==> (#[trigger] edges.drop_last()[i]).from != id);
        lemma_edges_without_from_none(edges.drop_last(), id);
        assert(edges_without_from(edges, id) =~= edges);
    } else {
        assert(edges_without_from(edges, id) =~= edges);
    }
}


} // verus!
