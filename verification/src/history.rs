//! Graphs as the outcome of the calls that made them, and what follows for
//! their edges.

use crate::graph::GraphView;
use crate::vertex::Vertex;
use vstd::prelude::*;

verus! {

impl GraphView {
    /// An edge exists as soon as it was added.
    pub proof fn lemma_added_edge_exists(self, from: i32, to: i32)
        requires
            self.contains(from),
        ensures
            self.add_edge(from, to).has_edge(from, to),
    {
        let targets = self.edges[from].push(to);
        assert(targets[targets.len() - 1] == to);
    }

    /// Adding an edge connects one pair of vertices and no other.
    pub proof fn lemma_added_edge_connects_one_pair(self, from: i32, to: i32, a: i32, b: i32)
        requires
            self.contains(from),
            a != from || b != to,
        ensures
            self.add_edge(from, to).has_edge(a, b) == self.has_edge(a, b),
    {
        if a == from {
            let before = self.edges[from];
            let targets = before.push(to);
            if before.contains(b) {
                let k = choose|k: int| 0 <= k < before.len() && before[k] == b;
                assert(targets[k] == b);
            }
            if targets.contains(b) {
                let k = choose|k: int| 0 <= k < targets.len() && targets[k] == b;
                assert(before[k] == b);
            }
        }
    }

    /// Inserting a vertex connects nothing: every edge of the graph after
    /// it was there before.
    pub proof fn lemma_added_node_connects_nothing(self, vertex: Vertex, a: i32, b: i32)
        requires
            self.wf(),
            self.add_node(vertex).has_edge(a, b),
        ensures
            self.has_edge(a, b),
    {
    }
}

/// One step in the making of a graph.
pub enum GraphStep {
    /// A call of `add_node` with this vertex.
    AddNode(Vertex),
    /// A call of `add_edge_by_ids` with these two ids.
    AddEdge(i32, i32),
}

/// The graph that a sequence of steps makes of the empty graph. An edge
/// between ids that are not both known is refused and changes nothing.
pub open spec fn graph_after(steps: Seq<GraphStep>) -> GraphView
    decreases steps.len(),
{
    if steps.len() == 0 {
        GraphView::empty()
    } else {
        let before = graph_after(steps.drop_last());
        match steps.last() {
            GraphStep::AddNode(vertex) => before.add_node(vertex),
            GraphStep::AddEdge(from, to) => if before.contains(from) && before.contains(to) {
                before.add_edge(from, to)
            } else {
                before
            },
        }
    }
}

impl GraphView {
    /// Inserting a vertex keeps a graph well-formed.
    pub proof fn lemma_add_node_wf(self, vertex: Vertex)
        requires
            self.wf(),
        ensures
            self.add_node(vertex).wf(),
    {
        let after = self.add_node(vertex);
        assert forall|id: i32| after.ids.contains(id) <==> after.vertices.contains_key(id) by {
            if self.ids.contains(id) {
                let k = choose|k: int| 0 <= k < self.ids.len() && self.ids[k] == id;
                assert(after.ids[k] == id);
            }
            if id == vertex.id() && !self.contains(id) {
                assert(after.ids[self.ids.len() as int] == id);
            }
            if after.ids.contains(id) {
                let k = choose|k: int| 0 <= k < after.ids.len() && after.ids[k] == id;
                if k < self.ids.len() {
                    assert(self.ids[k] == id);
                }
            }
        }
        assert forall|i: int, j: int|
            0 <= i < after.ids.len() && 0 <= j < after.ids.len() && i != j implies after.ids[i]
            != after.ids[j] by {
            if !self.contains(vertex.id()) {
                if i < self.ids.len() {
                    assert(self.ids.contains(self.ids[i]));
                }
                if j < self.ids.len() {
                    assert(self.ids.contains(self.ids[j]));
                }
            }
        }
        assert forall|id: i32, j: int|
            after.edges.contains_key(id) && 0 <= j < after.edges[id].len()
                implies after.vertices.contains_key(#[trigger] after.edges[id][j]) by {
            if id != vertex.id() {
                assert(self.vertices.contains_key(self.edges[id][j]));
            }
        }
    }

    /// Adding an edge between two vertices keeps a graph well-formed.
    pub proof fn lemma_add_edge_wf(self, from: i32, to: i32)
        requires
            self.wf(),
            self.contains(from),
            self.contains(to),
        ensures
            self.add_edge(from, to).wf(),
    {
        let after = self.add_edge(from, to);
        assert forall|id: i32, j: int|
            after.edges.contains_key(id) && 0 <= j < after.edges[id].len()
                implies after.vertices.contains_key(#[trigger] after.edges[id][j]) by {
            if id != from || j < self.edges[from].len() {
                assert(self.vertices.contains_key(self.edges[id][j]));
            }
        }
    }
}

/// Whatever steps made a graph, it is well-formed.
pub proof fn lemma_graph_after_wf(steps: Seq<GraphStep>)
    ensures
        graph_after(steps).wf(),
    decreases steps.len(),
{
    if steps.len() > 0 {
        lemma_graph_after_wf(steps.drop_last());
        let before = graph_after(steps.drop_last());
        match steps.last() {
            GraphStep::AddNode(vertex) => {
                before.lemma_add_node_wf(vertex);
            },
            GraphStep::AddEdge(from, to) => {
                if before.contains(from) && before.contains(to) {
                    before.lemma_add_edge_wf(from, to);
                }
            },
        }
    }
}

/// Two vertices between which no edge was ever added are not connected.
pub proof fn lemma_unconnected_pair_has_no_edge(steps: Seq<GraphStep>, a: i32, b: i32)
    requires
        forall|k: int| 0 <= k < steps.len() ==> steps[k] != GraphStep::AddEdge(a, b),
    ensures
        !graph_after(steps).has_edge(a, b),
    decreases steps.len(),
{
    if steps.len() > 0 {
        let earlier = steps.drop_last();
        assert forall|k: int| 0 <= k < earlier.len() implies earlier[k] != GraphStep::AddEdge(
            a,
            b,
        ) by {
            assert(earlier[k] == steps[k]);
        }
        lemma_unconnected_pair_has_no_edge(earlier, a, b);
        lemma_graph_after_wf(earlier);
        let before = graph_after(earlier);
        match steps.last() {
            GraphStep::AddNode(vertex) => {
                if before.add_node(vertex).has_edge(a, b) {
                    before.lemma_added_node_connects_nothing(vertex, a, b);
                }
            },
            GraphStep::AddEdge(from, to) => {
                assert(steps[steps.len() - 1] != GraphStep::AddEdge(a, b));
                if before.contains(from) && before.contains(to) {
                    before.lemma_added_edge_connects_one_pair(from, to, a, b);
                }
            },
        }
    }
}

} // verus!
