//! The dependency graph: vertices keyed by id, and directed edges from each
//! vertex to the vertices that consume its value.

use crate::error::EngineError;
use crate::value::CellValue;
use crate::vertex::Vertex;
use std::collections::HashMap;
use vstd::prelude::*;

verus! {

broadcast use vstd::std_specs::hash::group_hash_axioms;

/// A vertex together with the ids of the vertices that depend on it, in the
/// order in which the edges were added.
#[derive(Debug)]
pub struct GraphNode {
    pub datum: Vertex,
    pub edges: Vec<i32>,
}

/// The graph as a mathematical object.
#[verifier::ext_equal]
pub struct GraphView {
    /// The ids of the vertices, in the order of their first insertion.
    pub ids: Seq<i32>,
    /// The vertex stored under each id.
    pub vertices: Map<i32, Vertex>,
    /// The targets of the edges that leave each vertex, oldest first.
    pub edges: Map<i32, Seq<i32>>,
}

impl GraphView {
    /// The graph without vertices.
    pub open spec fn empty() -> GraphView {
        GraphView { ids: Seq::empty(), vertices: Map::empty(), edges: Map::empty() }
    }

    /// Whether a vertex is stored under `id`.
    #[verifier::inline]
    pub open spec fn contains(self, id: i32) -> bool {
        self.vertices.contains_key(id)
    }

    /// Whether at least one edge leads from `from` to `to`.
    pub open spec fn has_edge(self, from: i32, to: i32) -> bool {
        self.contains(from) && self.edges[from].contains(to)
    }

    /// Every id is listed once, stands for a vertex that carries it, and
    /// every edge ends at a vertex of the graph.
    pub open spec fn wf(self) -> bool {
        &&& self.ids.no_duplicates()
        &&& forall|id: i32| self.ids.contains(id) <==> self.vertices.contains_key(id)
        &&& forall|id: i32| self.vertices.contains_key(id) <==> self.edges.contains_key(id)
        &&& forall|id: i32| self.vertices.contains_key(id) ==> (#[trigger] self.vertices[id]).id() == id
        &&& forall|id: i32, j: int|
            self.edges.contains_key(id) && 0 <= j < self.edges[id].len()
                ==> self.vertices.contains_key(#[trigger] self.edges[id][j])
    }

    /// Whether `order` lists vertices of the graph, none twice, each after
    /// all the vertices it depends on, and leaves out only vertices of which
    /// some dependency is left out too.
    pub open spec fn is_dependency_order(self, order: Seq<i32>) -> bool {
        &&& order.no_duplicates()
        &&& forall|i: int| 0 <= i < order.len() ==> self.contains(#[trigger] order[i])
        &&& forall|i: int, u: i32|
            0 <= i < order.len() && #[trigger] self.has_edge(u, order[i]) ==> exists|j: int|
                0 <= j < i && order[j] == u
        &&& forall|v: i32|
            #[trigger] self.contains(v) && !order.contains(v) ==> exists|u: i32| #[trigger]
                self.has_edge(u, v) && !order.contains(u)
    }

    /// The place in `order`, below `upto`, of the last vertex that has an
    /// edge to `v`; -1 where there is none.
    pub open spec fn last_source(self, order: Seq<i32>, v: i32, upto: int) -> int
        decreases upto,
    {
        if upto <= 0 {
            -1
        } else if self.has_edge(order[upto - 1], v) {
            upto - 1
        } else {
            self.last_source(order, v, upto - 1)
        }
    }

    /// When the `i`-th vertex of `order` became free to be listed, as a pair
    /// that is compared from the left. A vertex that depends on nothing is
    /// free from the start: the pair holds -1 and the vertex's place among
    /// the vertices of the graph. Every other vertex becomes free with the
    /// last of the vertices it depends on: the pair holds the place of that
    /// vertex in `order` and the place, among the edges that leave it, of
    /// the last one that leads to the `i`-th vertex.
    pub open spec fn freed_at(self, order: Seq<i32>, i: int) -> (int, int) {
        let last = self.last_source(order, order[i], i);
        if last < 0 {
            (-1, last_index_of(self.ids, order[i]))
        } else {
            (last, last_index_of(self.edges[order[last]], order[i]))
        }
    }

    /// Whether `order` is a dependency order that lists the vertices in the
    /// order in which they became free: first come, first served.
    pub open spec fn is_kahn_order(self, order: Seq<i32>) -> bool {
        &&& self.is_dependency_order(order)
        &&& forall|i: int, j: int|
            #![trigger order[i], order[j]]
            0 <= i < j < order.len() ==> comes_before(
                self.freed_at(order, i),
                self.freed_at(order, j),
            )
    }

    /// What reading the vertex `id` gives.
    pub open spec fn value_of(self, id: i32) -> Result<CellValue, EngineError> {
        if self.contains(id) {
            self.vertices[id].value()
        } else {
            Err(EngineError::UnknownVertex)
        }
    }

    /// The graph after `vertex` was inserted. A vertex that was stored under
    /// the same id is replaced and the edges that left it are dropped; edges
    /// that lead to the id stay and now lead to the new vertex.
    pub open spec fn add_node(self, vertex: Vertex) -> GraphView {
        GraphView {
            ids: if self.contains(vertex.id()) {
                self.ids
            } else {
                self.ids.push(vertex.id())
            },
            vertices: self.vertices.insert(vertex.id(), vertex),
            edges: self.edges.insert(vertex.id(), Seq::empty()),
        }
    }

    /// The graph after one more edge from `from` to `to` was appended.
    pub open spec fn add_edge(self, from: i32, to: i32) -> GraphView {
        GraphView { edges: self.edges.insert(from, self.edges[from].push(to)), ..self }
    }

    /// The graph after an edge to `to` was appended at each of `sources`, in
    /// their order.
    pub open spec fn add_edges_to(self, sources: Seq<i32>, to: i32) -> GraphView
        decreases sources.len(),
    {
        if sources.len() == 0 {
            self
        } else {
            self.add_edges_to(sources.drop_last(), to).add_edge(sources.last(), to)
        }
    }

    /// The graph after `value` was written to the vertex `id`.
    pub open spec fn set_value(self, id: i32, value: CellValue) -> GraphView {
        GraphView { vertices: self.vertices.insert(id, self.vertices[id].with_value(value)), ..self }
    }
}

/// The place of the last occurrence of `v` in `s`; -1 where there is none.
pub open spec fn last_index_of(s: Seq<i32>, v: i32) -> int
    decreases s.len(),
{
    if s.len() == 0 {
        -1
    } else if s.last() == v {
        s.len() - 1
    } else {
        last_index_of(s.drop_last(), v)
    }
}

/// Whether the pair `a` comes before the pair `b` when they are compared
/// from the left.
pub open spec fn comes_before(a: (int, int), b: (int, int)) -> bool {
    a.0 < b.0 || (a.0 == b.0 && a.1 < b.1)
}

/// The dependency graph.
pub struct Graph {
    /// The nodes in the order of their first insertion.
    nodes: Vec<GraphNode>,
    /// Where in `nodes` each id is found.
    index: HashMap<i32, usize>,
}

impl View for Graph {
    type V = GraphView;

    closed spec fn view(&self) -> GraphView {
        GraphView {
            ids: Seq::new(self.nodes@.len(), |i: int| self.nodes@[i].datum.id()),
            vertices: Map::new(
                |id: i32| self.index@.contains_key(id),
                |id: i32| self.nodes@[self.index@[id] as int].datum,
            ),
            edges: Map::new(
                |id: i32| self.index@.contains_key(id),
                |id: i32| self.nodes@[self.index@[id] as int].edges@,
            ),
        }
    }
}

impl Graph {
    /// The index and the node list describe the same vertices, and every
    /// edge ends at one of them.
    pub closed spec fn wf(&self) -> bool {
        &&& forall|i: int|
            0 <= i < self.nodes@.len() ==> self.index@.contains_key(
                (#[trigger] self.nodes@[i]).datum.id(),
            ) && self.index@[self.nodes@[i].datum.id()] == i
        &&& forall|id: i32| #[trigger]
            self.index@.contains_key(id) ==> self.index@[id] < self.nodes@.len()
                && self.nodes@[self.index@[id] as int].datum.id() == id
        &&& forall|i: int, j: int|
            0 <= i < self.nodes@.len() && 0 <= j < self.nodes@[i].edges@.len()
                ==> self.index@.contains_key(#[trigger] self.nodes@[i].edges@[j])
    }

    /// A well-formed graph has a well-formed view.
    pub proof fn lemma_view_wf(&self)
        requires
            self.wf(),
        ensures
            self@.wf(),
    {
        let ids = self@.ids;
        assert forall|i: int, j: int| 0 <= i < ids.len() && 0 <= j < ids.len() && i != j implies ids[i]
            != ids[j] by {
            assert(self.index@[self.nodes@[i].datum.id()] == i);
            assert(self.index@[self.nodes@[j].datum.id()] == j);
        }
        assert forall|id: i32| ids.contains(id) <==> self@.vertices.contains_key(id) by {
            if ids.contains(id) {
                let i = choose|i: int| 0 <= i < ids.len() && ids[i] == id;
                assert(self.index@.contains_key(self.nodes@[i].datum.id()));
            }
            if self.index@.contains_key(id) {
                assert(ids[self.index@[id] as int] == id);
            }
        }
    }

    /// The empty graph.
    pub fn build() -> (graph: Graph)
        ensures
            graph.wf(),
            graph@ == GraphView::empty(),
    {
        let graph = Graph { nodes: Vec::new(), index: HashMap::new() };
        assert(graph@.ids =~= Seq::empty());
        assert(graph@.vertices =~= Map::empty());
        assert(graph@.edges =~= Map::empty());
        graph
    }

    /// Inserts a vertex under its id. Inserting under an id that is taken
    /// replaces the vertex and drops the edges that left it.
    pub fn add_node(&mut self, vertex: Vertex)
        requires
            old(self).wf(),
        ensures
            final(self).wf(),
            final(self)@ == old(self)@.add_node(vertex),
    {
        let id = vertex.get_vertex_id();
        let node = GraphNode { datum: vertex, edges: Vec::new() };
        let found: Option<usize> = match self.index.get(&id) {
            Some(position) => Some(*position),
            None => None,
        };
        match found {
            Some(position) => {
                self.nodes.set(position, node);
                assert(self@.ids =~= old(self)@.add_node(vertex).ids);
            },
            None => {
                let position = self.nodes.len();
                self.nodes.push(node);
                self.index.insert(id, position);
                assert(self@.ids =~= old(self)@.add_node(vertex).ids);
            },
        }
        assert(self@.vertices =~= old(self)@.add_node(vertex).vertices);
        assert(self@.edges =~= old(self)@.add_node(vertex).edges);
    }

    /// Appends an edge from `from_node_id` to `to_node_id`: the second vertex
    /// depends on the first. Edges are not deduplicated. Fails, and changes
    /// nothing, when either id is unknown.
    pub fn add_edge_by_ids(&mut self, from_node_id: &i32, to_node_id: &i32) -> (res: Result<
        (),
        EngineError,
    >)
        requires
            old(self).wf(),
        ensures
            final(self).wf(),
            match res {
                Ok(_) => {
                    &&& old(self)@.contains(*from_node_id)
                    &&& old(self)@.contains(*to_node_id)
                    &&& final(self)@ == old(self)@.add_edge(*from_node_id, *to_node_id)
                },
                Err(e) => {
                    &&& e == EngineError::UnknownVertex
                    &&& !(old(self)@.contains(*from_node_id) && old(self)@.contains(*to_node_id))
                    &&& *final(self) == *old(self)
                },
            },
    {
        let position: usize = match self.index.get(from_node_id) {
            Some(position) => *position,
            None => {
                return Err(EngineError::UnknownVertex);
            },
        };
        if !self.index.contains_key(to_node_id) {
            return Err(EngineError::UnknownVertex);
        }
        self.nodes[position].edges.push(*to_node_id);
        assert(self@.ids =~= old(self)@.ids);
        assert(self@.vertices =~= old(self)@.vertices);
        assert(self@.edges =~= old(self)@.add_edge(*from_node_id, *to_node_id).edges);
        Ok(())
    }

    /// Appends an edge to `to_node_id` at each of `sources`, in their order.
    /// Fails, and changes nothing, when one of the ids is unknown.
    pub fn add_edges_to(&mut self, sources: &Vec<i32>, to_node_id: i32) -> (res: Result<
        (),
        EngineError,
    >)
        requires
            old(self).wf(),
        ensures
            final(self).wf(),
            match res {
                Ok(_) => {
                    &&& old(self)@.contains(to_node_id) || sources@.len() == 0
                    &&& forall|k: int| 0 <= k < sources@.len() ==> old(self)@.contains(sources@[k])
                    &&& final(self)@ == old(self)@.add_edges_to(sources@, to_node_id)
                },
                Err(e) => {
                    &&& e == EngineError::UnknownVertex
                    &&& sources@.len() > 0
                    &&& !old(self)@.contains(to_node_id) || exists|k: int|
                        0 <= k < sources@.len() && !old(self)@.contains(sources@[k])
                    &&& *final(self) == *old(self)
                },
            },
    {
        if sources.len() == 0 {
            return Ok(());
        }
        if !self.index.contains_key(&to_node_id) {
            return Err(EngineError::UnknownVertex);
        }
        let mut k: usize = 0;
        while k < sources.len()
            invariant
                self.wf(),
                *self == *old(self),
                k <= sources@.len(),
                forall|t: int| 0 <= t < k ==> self@.contains(sources@[t]),
            decreases sources@.len() - k,
        {
            if !self.index.contains_key(&sources[k]) {
                return Err(EngineError::UnknownVertex);
            }
            k += 1;
        }
        let mut k: usize = 0;
        proof {
            assert(sources@.take(0) =~= Seq::empty());
        }
        while k < sources.len()
            invariant
                self.wf(),
                k <= sources@.len(),
                sources@.len() > 0 ==> self@.contains(to_node_id),
                forall|t: int| 0 <= t < sources@.len() ==> self@.contains(sources@[t]),
                forall|id: i32| self@.contains(id) <==> old(self)@.contains(id),
                self@ == old(self)@.add_edges_to(sources@.take(k as int), to_node_id),
            decreases sources@.len() - k,
        {
            proof {
                assert(sources@.take(k + 1).drop_last() =~= sources@.take(k as int));
                assert(sources@.take(k + 1).last() == sources@[k as int]);
            }
            let _ = self.add_edge_by_ids(&sources[k], &to_node_id);
            k += 1;
        }
        proof {
            assert(sources@.take(k as int) =~= sources@);
        }
        Ok(())
    }

    /// Whether an edge leads from `from_node_id` to `to_node_id`. Takes time
    /// in proportion to the number of edges that leave the first vertex.
    pub fn edge_exists(&self, from_node_id: &i32, to_node_id: &i32) -> (found: bool)
        requires
            self.wf(),
        ensures
            found == self@.has_edge(*from_node_id, *to_node_id),
    {
        let position: usize = match self.index.get(from_node_id) {
            Some(position) => *position,
            None => {
                return false;
            },
        };
        let targets = &self.nodes[position].edges;
        let mut j: usize = 0;
        while j < targets.len()
            invariant
                self@.contains(*from_node_id),
                targets@ == self@.edges[*from_node_id],
                j <= targets@.len(),
                forall|k: int| 0 <= k < j ==> targets@[k] != *to_node_id,
            decreases targets@.len() - j,
        {
            if targets[j] == *to_node_id {
                return true;
            }
            j += 1;
        }
        false
    }

    /// The node stored under `vertex_id`, if there is one.
    pub fn get_node(&self, vertex_id: &i32) -> (node: Option<&GraphNode>)
        requires
            self.wf(),
        ensures
            match node {
                Some(n) => {
                    &&& self@.contains(*vertex_id)
                    &&& n.datum == self@.vertices[*vertex_id]
                    &&& n.edges@ == self@.edges[*vertex_id]
                },
                None => !self@.contains(*vertex_id),
            },
    {
        match self.index.get(vertex_id) {
            Some(position) => Some(&self.nodes[*position]),
            None => None,
        }
    }

    /// The number of vertices.
    pub fn len(&self) -> (n: usize)
        ensures
            n == self@.ids.len(),
    {
        self.nodes.len()
    }

    /// Reads the vertex stored under `vertex_id`.
    pub fn get_cell_value(&self, vertex_id: i32) -> (res: Result<CellValue, EngineError>)
        requires
            self.wf(),
        ensures
            res == self@.value_of(vertex_id),
    {
        match self.index.get(&vertex_id) {
            Some(position) => self.nodes[*position].datum.get_cell_value(),
            None => Err(EngineError::UnknownVertex),
        }
    }

    /// Writes `new_value` to the vertex stored under `vertex_id`. Fails, and
    /// changes nothing, when the id is unknown.
    pub fn set_cell_value(&mut self, vertex_id: i32, new_value: CellValue) -> (res: Result<
        (),
        EngineError,
    >)
        requires
            old(self).wf(),
        ensures
            final(self).wf(),
            match res {
                Ok(_) => old(self)@.contains(vertex_id) && final(self)@ == old(self)@.set_value(
                    vertex_id,
                    new_value,
                ),
                Err(e) => e == EngineError::UnknownVertex && !old(self)@.contains(vertex_id)
                    && *final(self) == *old(self),
            },
    {
        let position: usize = match self.index.get(&vertex_id) {
            Some(position) => *position,
            None => {
                return Err(EngineError::UnknownVertex);
            },
        };
        self.nodes[position].datum.set_cell_value(new_value);
        assert(self@.ids =~= old(self)@.ids);
        assert(self@.vertices =~= old(self)@.set_value(vertex_id, new_value).vertices);
        assert(self@.edges =~= old(self)@.edges);
        Ok(())
    }

    /// For each node, the number of edges that lead to it. The counts are
    /// kept in 128 bits: a graph has at most `usize::MAX` nodes with at most
    /// `usize::MAX` edges each, so that no count can leave that range.
    fn count_incoming(&self) -> (incoming: Vec<u128>)
        requires
            self.wf(),
        ensures
            incoming@.len() == self.nodes@.len(),
            forall|p: int|
                0 <= p < self.nodes@.len() ==> #[trigger] incoming@[p] == inflow(
                    self.nodes@,
                    self.nodes@.len() as int,
                    Set::empty(),
                    self.nodes@[p].datum.id(),
                ),
    {
        let n = self.nodes.len();
        let mut incoming: Vec<u128> = Vec::new();
        while incoming.len() < n
            invariant
                incoming@.len() <= n,
                forall|p: int| 0 <= p < incoming@.len() ==> incoming@[p] == 0,
            decreases n - incoming@.len(),
        {
            incoming.push(0);
        }
        let mut i: usize = 0;
        while i < n
            invariant
                self.wf(),
                n == self.nodes@.len(),
                i <= n,
                incoming@.len() == n,
                forall|p: int|
                    0 <= p < n ==> #[trigger] incoming@[p] == inflow(
                        self.nodes@,
                        i as int,
                        Set::empty(),
                        self.nodes@[p].datum.id(),
                    ),
            decreases n - i,
        {
            let targets = &self.nodes[i].edges;
            let mut j: usize = 0;
            proof {
                assert(targets@.skip(0) =~= targets@);
                assert forall|p: int| 0 <= p < n implies (#[trigger] incoming@[p]) + count_of(
                    targets@.skip(0),
                    self.nodes@[p].datum.id(),
                ) == inflow(self.nodes@, i + 1, Set::empty(), self.nodes@[p].datum.id()) by {
                    assert(!Set::<int>::empty().contains(i as int));
                }
            }
            while j < targets.len()
                invariant
                    self.wf(),
                    n == self.nodes@.len(),
                    i < n,
                    targets@ == self.nodes@[i as int].edges@,
                    j <= targets@.len(),
                    incoming@.len() == n,
                    forall|p: int|
                        0 <= p < n ==> (#[trigger] incoming@[p]) + count_of(
                            targets@.skip(j as int),
                            self.nodes@[p].datum.id(),
                        ) == inflow(
                            self.nodes@,
                            i + 1,
                            Set::empty(),
                            self.nodes@[p].datum.id(),
                        ),
                decreases targets@.len() - j,
            {
                let target = targets[j];
                let position: usize = *self.index.get(&target).unwrap();
                proof {
                    assert forall|p: int| 0 <= p < n implies count_of(
                        targets@.skip(j as int),
                        self.nodes@[p].datum.id(),
                    ) == (if p == position {
                        1nat
                    } else {
                        0nat
                    }) + count_of(targets@.skip(j + 1), self.nodes@[p].datum.id()) by {
                        lemma_count_skip(targets@, j as int, self.nodes@[p].datum.id());
                        assert(self.index@[self.nodes@[p].datum.id()] == p);
                    }
                    self.lemma_inflow_fits(i + 1, Set::empty(), target);
                }
                incoming.set(position, incoming[position] + 1);
                j += 1;
            }
            i += 1;
        }
        incoming
    }

    /// No in-degree leaves the range of a `u128`: there are at most
    /// `usize::MAX` nodes with at most `usize::MAX` edges each.
    proof fn lemma_inflow_fits(&self, k: int, done: Set<int>, v: i32)
        requires
            0 <= k <= self.nodes@.len(),
        ensures
            inflow(self.nodes@, k, done, v) < u128::MAX,
    {
        assert forall|i: int| 0 <= i < self.nodes@.len() implies (#[trigger] self.nodes@[i]).edges@.len()
            <= usize::MAX by {
            assert(self.nodes@[i].edges.len() <= usize::MAX);
        }
        lemma_inflow_bound(self.nodes@, k, done, v);
        assert(self.nodes.len() <= usize::MAX);
        assert(k * usize::MAX < u128::MAX) by (nonlinear_arith)
            requires
                0 <= k <= usize::MAX,
                usize::MAX <= 0xffff_ffff_ffff_ffff,
                u128::MAX == 0xffff_ffff_ffff_ffff_ffff_ffff_ffff_ffff,
        ;
    }

    /// Orders the vertices so that each stands after all the vertices it
    /// depends on (Kahn's algorithm). Vertices on a cycle, and vertices that
    /// depend on one, are left out. Vertices come out in the order in which
    /// they became free of dependencies: those that have none first, in the
    /// order of their insertion, and every other vertex when the last vertex
    /// it depends on has come out.
    pub fn topological_sort(&self) -> (order: Vec<i32>)
        requires
            self.wf(),
        ensures
            self@.is_kahn_order(order@),
    {
        let n = self.nodes.len();
        let mut incoming = self.count_incoming();
        let mut queue: Vec<usize> = Vec::new();
        let ghost mut keys: Seq<(int, int)> = Seq::empty();
        let mut p: usize = 0;
        while p < n
            invariant
                n == self.nodes@.len(),
                incoming@.len() == n,
                p <= n,
                keys.len() == queue@.len(),
                forall|t: int| 0 <= t < queue@.len() ==> (#[trigger] queue@[t]) < p,
                forall|t: int| 0 <= t < queue@.len() ==> #[trigger] keys[t] == (-1int, queue@[t] as int),
                forall|a: int, b: int| 0 <= a < b < queue@.len() ==> queue@[a] < queue@[b],
                forall|r: int|
                    0 <= r < p ==> ((#[trigger] incoming@[r]) == 0 <==> queued(
                        queue@,
                        queue@.len() as int,
                        r,
                    )),
            decreases n - p,
        {
            if incoming[p] == 0 {
                proof {
                    assert forall|r: int| 0 <= r < p + 1 implies ((#[trigger] incoming@[r]) == 0
                        <==> queued(queue@.push(p), (queue@.len() + 1) as int, r)) by {
                        lemma_queued_push(queue@, p, 0, r);
                    }
                    keys = keys.push((-1int, p as int));
                }
                queue.push(p);
            } else {
                proof {
                    if queued(queue@, queue@.len() as int, p as int) {
                        let t = choose|t: int|
                            0 <= t < queue@.len() && t < queue@.len() && queue@[t] == p as int;
                        assert(queue@[t] < p);
                    }
                }
            }
            p += 1;
        }
        let mut order: Vec<i32> = Vec::new();
        let ghost mut done: Set<int> = Set::empty();
        let mut current: usize = 0;
        proof {
            assert forall|t: int| 0 <= t < queue@.len() implies freed(
                self.nodes@,
                queue@,
                #[trigger] keys[t],
                t,
            ) by {
                let v = self.nodes@[queue@[t] as int].datum.id();
                assert(keys[t] == (-1int, queue@[t] as int));
                assert(queued(queue@, queue@.len() as int, queue@[t] as int));
                assert(incoming@[queue@[t] as int] == 0);
                assert forall|w: int, j: int|
                    0 <= w < self.nodes@.len() && 0 <= j < self.nodes@[w].edges@.len() implies #[trigger] self.nodes@[w].edges@[j]
                    != v by {
                    lemma_inflow_zero(self.nodes@, n as int, Set::empty(), v, w);
                    lemma_count_contains(self.nodes@[w].edges@, v);
                }
            }
            assert forall|a: int, b: int| 0 <= a < b < queue@.len() implies comes_before(
                #[trigger] keys[a],
                #[trigger] keys[b],
            ) by {
                assert(keys[a] == (-1int, queue@[a] as int));
                assert(keys[b] == (-1int, queue@[b] as int));
            }
        }
        while current < queue.len()
            invariant
                self.wf(),
                n == self.nodes@.len(),
                incoming@.len() == n,
                current <= queue@.len(),
                order@.len() == current,
                keys.len() == queue@.len(),
                distinct_positions(queue@, n as int),
                forall|t: int|
                    0 <= t < current ==> #[trigger] order@[t] == self.nodes@[queue@[t] as int].datum.id(),
                forall|r: int| done.contains(r) <==> queued(queue@, current as int, r),
                forall|r: int|
                    0 <= r < n ==> #[trigger] incoming@[r] == inflow(
                        self.nodes@,
                        n as int,
                        done,
                        self.nodes@[r].datum.id(),
                    ),
                forall|r: int|
                    0 <= r < n ==> ((#[trigger] incoming@[r]) == 0 <==> queued(
                        queue@,
                        queue@.len() as int,
                        r,
                    )),
                forall|t: int|
                    0 <= t < queue@.len() ==> freed(self.nodes@, queue@, #[trigger] keys[t], t),
                forall|a: int, b: int|
                    0 <= a < b < queue@.len() ==> comes_before(
                        #[trigger] keys[a],
                        #[trigger] keys[b],
                    ),
                forall|t: int| 0 <= t < queue@.len() ==> (#[trigger] keys[t]).0 < current,
            decreases n - current,
        {
            proof {
                lemma_distinct_positions_len(queue@, n as int);
            }
            let u = queue[current];
            order.push(self.nodes[u].datum.get_vertex_id());
            let targets = &self.nodes[u].edges;
            let ghost done_next = done.insert(u as int);
            proof {
                if done.contains(u as int) {
                    let t = choose|t: int|
                        0 <= t < current && t < queue@.len() && queue@[t] == u as int;
                    assert(queue@[t] != queue@[current as int]);
                }
                assert(targets@.skip(0) =~= targets@);
                assert forall|r: int| 0 <= r < n implies #[trigger] incoming@[r] == inflow(
                    self.nodes@,
                    n as int,
                    done_next,
                    self.nodes@[r].datum.id(),
                ) + count_of(targets@.skip(0), self.nodes@[r].datum.id()) by {
                    lemma_inflow_insert(
                        self.nodes@,
                        n as int,
                        done,
                        u as int,
                        self.nodes@[r].datum.id(),
                    );
                }
                assert forall|r: int| done_next.contains(r) <==> queued(
                    queue@,
                    current + 1,
                    r,
                ) by {
                    lemma_queued_step(queue@, current as int, r);
                }
            }
            let mut j: usize = 0;
            while j < targets.len()
                invariant
                    self.wf(),
                    n == self.nodes@.len(),
                    incoming@.len() == n,
                    current < queue@.len(),
                    u == queue@[current as int],
                    u < n,
                    targets@ == self.nodes@[u as int].edges@,
                    j <= targets@.len(),
                    keys.len() == queue@.len(),
                    distinct_positions(queue@, n as int),
                    forall|r: int| done_next.contains(r) <==> queued(queue@, current + 1, r),
                    order@.len() == current + 1,
                    forall|t: int|
                        0 <= t < current + 1 ==> #[trigger] order@[t]
                            == self.nodes@[queue@[t] as int].datum.id(),
                    forall|r: int|
                        0 <= r < n ==> #[trigger] incoming@[r] == inflow(
                            self.nodes@,
                            n as int,
                            done_next,
                            self.nodes@[r].datum.id(),
                        ) + count_of(targets@.skip(j as int), self.nodes@[r].datum.id()),
                    forall|r: int|
                        0 <= r < n ==> ((#[trigger] incoming@[r]) == 0 <==> queued(
                            queue@,
                            queue@.len() as int,
                            r,
                        )),
                    forall|t: int|
                        0 <= t < queue@.len() ==> freed(self.nodes@, queue@, #[trigger] keys[t], t),
                    forall|a: int, b: int|
                        0 <= a < b < queue@.len() ==> comes_before(
                            #[trigger] keys[a],
                            #[trigger] keys[b],
                        ),
                    forall|t: int|
                        0 <= t < queue@.len() ==> comes_before(
                            #[trigger] keys[t],
                            (current as int, j as int),
                        ),
                decreases targets@.len() - j,
            {
                let target = targets[j];
                let position: usize = *self.index.get(&target).unwrap();
                proof {
                    assert forall|r: int| 0 <= r < n implies count_of(
                        targets@.skip(j as int),
                        self.nodes@[r].datum.id(),
                    ) == (if r == position {
                        1nat
                    } else {
                        0nat
                    }) + count_of(targets@.skip(j + 1), self.nodes@[r].datum.id()) by {
                        lemma_count_skip(targets@, j as int, self.nodes@[r].datum.id());
                        assert(self.index@[self.nodes@[r].datum.id()] == r);
                    }
                    assert(incoming@[position as int] != 0);
                    assert(!queued(queue@, queue@.len() as int, position as int));
                }
                let remaining: u128 = incoming[position] - 1;
                incoming.set(position, remaining);
                if remaining == 0 {
                    proof {
                        self.lemma_queue_grows(
                            queue@,
                            keys,
                            incoming@,
                            done_next,
                            current as int,
                            j as int,
                            position,
                        );
                        keys = keys.push((current as int, j as int));
                    }
                    queue.push(position);
                }
                j += 1;
            }
            proof {
                done = done_next;
            }
            current += 1;
        }
        proof {
            self.lemma_order_from_queue(order@, queue@, incoming@, done, keys);
        }
        order
    }

    /// The queue of Kahn's algorithm stays in order when a node joins it
    /// whose count of incoming edges has just come down to zero.
    proof fn lemma_queue_grows(
        &self,
        queue: Seq<usize>,
        keys: Seq<(int, int)>,
        incoming: Seq<u128>,
        done: Set<int>,
        current: int,
        j: int,
        position: usize,
    )
        requires
            self.wf(),
            incoming.len() == self.nodes@.len(),
            keys.len() == queue.len(),
            0 <= current < queue.len(),
            0 <= j < self.nodes@[queue[current] as int].edges@.len(),
            position < self.nodes@.len(),
            self.nodes@[queue[current] as int].edges@[j] == self.nodes@[position as int].datum.id(),
            distinct_positions(queue, self.nodes@.len() as int),
            forall|r: int| done.contains(r) <==> queued(queue, current + 1, r),
            incoming[position as int] == 0,
            !queued(queue, queue.len() as int, position as int),
            forall|r: int|
                0 <= r < self.nodes@.len() ==> #[trigger] incoming[r] == inflow(
                    self.nodes@,
                    self.nodes@.len() as int,
                    done,
                    self.nodes@[r].datum.id(),
                ) + count_of(
                    self.nodes@[queue[current] as int].edges@.skip(j + 1),
                    self.nodes@[r].datum.id(),
                ),
            forall|r: int|
                0 <= r < self.nodes@.len() && r != position ==> ((#[trigger] incoming[r]) == 0
                    <==> queued(queue, queue.len() as int, r)),
            forall|t: int| 0 <= t < queue.len() ==> freed(self.nodes@, queue, #[trigger] keys[t], t),
            forall|a: int, b: int|
                0 <= a < b < queue.len() ==> comes_before(#[trigger] keys[a], #[trigger] keys[b]),
            forall|t: int| 0 <= t < queue.len() ==> comes_before(#[trigger] keys[t], (current, j)),
        ensures
            ({
                let grown = queue.push(position);
                let grown_keys = keys.push((current, j));
                &&& distinct_positions(grown, self.nodes@.len() as int)
                &&& forall|r: int| done.contains(r) <==> queued(grown, current + 1, r)
                &&& forall|r: int|
                    0 <= r < self.nodes@.len() ==> ((#[trigger] incoming[r]) == 0 <==> queued(
                        grown,
                        grown.len() as int,
                        r,
                    ))
                &&& forall|t: int|
                    0 <= t < grown.len() ==> freed(self.nodes@, grown, #[trigger] grown_keys[t], t)
                &&& forall|a: int, b: int|
                    0 <= a < b < grown.len() ==> comes_before(
                        #[trigger] grown_keys[a],
                        #[trigger] grown_keys[b],
                    )
                &&& forall|t: int|
                    0 <= t < grown.len() ==> comes_before(#[trigger] grown_keys[t], (current, j + 1))
            }),
    {
        let nodes = self.nodes@;
        let n = nodes.len() as int;
        let grown = queue.push(position);
        let grown_keys = keys.push((current, j));
        let v = nodes[position as int].datum.id();
        assert(distinct_positions(grown, n)) by {
            assert forall|a: int, b: int| 0 <= a < b < grown.len() implies grown[a] != grown[b] by {
                if b == queue.len() && grown[a] == position {
                    assert(queue[a] == position);
                }
            }
        }
        assert forall|r: int| done.contains(r) <==> queued(grown, current + 1, r) by {
            lemma_queued_push(queue, position, current + 1, r);
        }
        assert forall|r: int| 0 <= r < n implies ((#[trigger] incoming[r]) == 0 <==> queued(
            grown,
            grown.len() as int,
            r,
        )) by {
            lemma_queued_push(queue, position, 0, r);
        }
        assert(sources_queued(nodes, grown, current + 1, v)) by {
            assert forall|w: int, k: int|
                0 <= w < nodes.len() && 0 <= k < nodes[w].edges@.len() && #[trigger] nodes[w].edges@[k]
                    == v implies queued(grown, current + 1, w) by {
                lemma_count_contains(nodes[w].edges@, v);
                if !done.contains(w) {
                    lemma_inflow_zero(nodes, n, done, v, w);
                }
                assert(queued(queue, current + 1, w));
                lemma_queued_push(queue, position, current + 1, w);
            }
        }
        assert forall|t: int| 0 <= t < grown.len() implies freed(
            nodes,
            grown,
            #[trigger] grown_keys[t],
            t,
        ) by {
            if t < queue.len() {
                assert(grown_keys[t] == keys[t]);
                lemma_freed_push(nodes, queue, keys[t], t, position);
            } else {
                assert(grown[current] == queue[current]);
            }
        }
        assert forall|a: int, b: int| 0 <= a < b < grown.len() implies comes_before(
            #[trigger] grown_keys[a],
            #[trigger] grown_keys[b],
        ) by {
            assert(grown_keys[a] == keys[a]);
            if b < queue.len() {
                assert(grown_keys[b] == keys[b]);
            }
        }
        assert forall|t: int| 0 <= t < grown.len() implies comes_before(
            #[trigger] grown_keys[t],
            (current, j + 1),
        ) by {
            if t < queue.len() {
                assert(grown_keys[t] == keys[t]);
            }
        }
    }

    /// The `t`-th vertex that Kahn's algorithm emits became free when its
    /// key says.
    proof fn lemma_freed_at_is_key(
        &self,
        order: Seq<i32>,
        queue: Seq<usize>,
        keys: Seq<(int, int)>,
        t: int,
    )
        requires
            self.wf(),
            order.len() == queue.len(),
            keys.len() == queue.len(),
            0 <= t < queue.len(),
            distinct_positions(queue, self.nodes@.len() as int),
            forall|k: int|
                0 <= k < queue.len() ==> #[trigger] order[k] == self.nodes@[queue[k] as int].datum.id(),
            freed(self.nodes@, queue, keys[t], t),
        ensures
            self@.freed_at(order, t) == keys[t],
    {
        let nodes = self.nodes@;
        let g = self@;
        let v = order[t];
        let key = keys[t];
        assert(v == nodes[queue[t] as int].datum.id());
        assert forall|k: int| 0 <= k < queue.len() implies self.index@[#[trigger] order[k]]
            == queue[k] by {
            assert(self.index@[nodes[queue[k] as int].datum.id()] == queue[k]);
        }
        if key.0 < 0 {
            assert forall|k: int| 0 <= k < t implies !g.has_edge(#[trigger] order[k], v) by {
                if g.has_edge(order[k], v) {
                    let w = queue[k] as int;
                    let e = choose|e: int| 0 <= e < nodes[w].edges@.len() && nodes[w].edges@[e] == v;
                    assert(nodes[w].edges@[e] != v);
                }
            }
            g.lemma_last_source_none(order, v, t);
            let p = queue[t] as int;
            assert(g.ids[p] == v);
            assert forall|k: int| p < k < g.ids.len() implies g.ids[k] != v by {
                assert(self.index@[nodes[k].datum.id()] == k);
            }
            lemma_last_index_of(g.ids, v, p);
        } else {
            let r = key.0;
            let targets = nodes[queue[r] as int].edges@;
            assert(g.edges[order[r]] == targets);
            assert(g.has_edge(order[r], v)) by {
                assert(targets[key.1] == v);
            }
            assert forall|k: int| r < k < t implies !g.has_edge(#[trigger] order[k], v) by {
                if g.has_edge(order[k], v) {
                    let w = queue[k] as int;
                    let e = choose|e: int| 0 <= e < nodes[w].edges@.len() && nodes[w].edges@[e] == v;
                    assert(nodes[w].edges@[e] == v);
                    assert(queued(queue, r + 1, w));
                    let s = choose|s: int| 0 <= s < r + 1 && s < queue.len() && queue[s] == w;
                    assert(queue[s] != queue[k]);
                }
            }
            g.lemma_last_source_at(order, v, r, t);
            assert forall|k: int| key.1 < k < targets.len() implies targets[k] != v by {
                lemma_count_contains(targets.skip(key.1 + 1), v);
                if targets[k] == v {
                    assert(targets.skip(key.1 + 1)[k - key.1 - 1] == v);
                }
            }
            lemma_last_index_of(targets, v, key.1);
        }
    }

    /// What the queue holds when Kahn's algorithm ends is the order of the
    /// vertices.
    proof fn lemma_order_from_queue(
        &self,
        order: Seq<i32>,
        queue: Seq<usize>,
        incoming: Seq<u128>,
        done: Set<int>,
        keys: Seq<(int, int)>,
    )
        requires
            self.wf(),
            incoming.len() == self.nodes@.len(),
            order.len() == queue.len(),
            keys.len() == queue.len(),
            distinct_positions(queue, self.nodes@.len() as int),
            forall|t: int|
                0 <= t < queue.len() ==> #[trigger] order[t] == self.nodes@[queue[t] as int].datum.id(),
            forall|r: int| done.contains(r) <==> queued(queue, queue.len() as int, r),
            forall|r: int|
                0 <= r < self.nodes@.len() ==> #[trigger] incoming[r] == inflow(
                    self.nodes@,
                    self.nodes@.len() as int,
                    done,
                    self.nodes@[r].datum.id(),
                ),
            forall|r: int|
                0 <= r < self.nodes@.len() ==> ((#[trigger] incoming[r]) == 0 <==> queued(
                    queue,
                    queue.len() as int,
                    r,
                )),
            forall|t: int| 0 <= t < queue.len() ==> freed(self.nodes@, queue, #[trigger] keys[t], t),
            forall|a: int, b: int|
                0 <= a < b < queue.len() ==> comes_before(#[trigger] keys[a], #[trigger] keys[b]),
        ensures
            self@.is_kahn_order(order),
    {
        let nodes = self.nodes@;
        let n = nodes.len() as int;
        assert forall|a: int, b: int| 0 <= a < order.len() && 0 <= b < order.len() && a
            != b implies order[a] != order[b] by {
            assert(self.index@[nodes[queue[a] as int].datum.id()] == queue[a]);
            assert(self.index@[nodes[queue[b] as int].datum.id()] == queue[b]);
        }
        assert forall|i: int| 0 <= i < order.len() implies self@.contains(#[trigger] order[i]) by {
            assert(self.index@.contains_key(nodes[queue[i] as int].datum.id()));
        }
        assert forall|i: int, u: i32|
            0 <= i < order.len() && #[trigger] self@.has_edge(u, order[i]) implies exists|j: int|
            0 <= j < i && order[j] == u by {
            let w = self.index@[u] as int;
            let k = choose|k: int| 0 <= k < nodes[w].edges@.len() && nodes[w].edges@[k] == order[i];
            assert(freed(nodes, queue, keys[i], i));
            assert(nodes[w].edges@[k] == nodes[queue[i] as int].datum.id());
            assert(queued(queue, keys[i].0 + 1, w));
            let j = choose|j: int| 0 <= j < keys[i].0 + 1 && j < queue.len() && queue[j] == w;
            assert(order[j] == u);
        }
        assert forall|v: i32| #[trigger] self@.contains(v) && !order.contains(v) implies exists|
            u: i32,
        | #[trigger] self@.has_edge(u, v) && !order.contains(u) by {
            let r = self.index@[v] as int;
            if queued(queue, queue.len() as int, r) {
                let t = choose|t: int| 0 <= t < queue.len() && t < queue.len() && queue[t] == r;
                assert(order[t] == v);
            }
            assert(incoming[r] != 0);
            let w = lemma_inflow_positive(nodes, n, done, v);
            lemma_count_contains(nodes[w].edges@, v);
            let u = nodes[w].datum.id();
            assert(self.index@[u] == w);
            assert(self@.has_edge(u, v));
            if order.contains(u) {
                let t = choose|t: int| 0 <= t < order.len() && order[t] == u;
                assert(self.index@[nodes[queue[t] as int].datum.id()] == queue[t]);
                assert(queue[t] == w);
                assert(queued(queue, queue.len() as int, w));
            }
        }
        assert forall|i: int, j: int|
            #![trigger order[i], order[j]]
            0 <= i < j < order.len() implies comes_before(
            self@.freed_at(order, i),
            self@.freed_at(order, j),
        ) by {
            self.lemma_freed_at_is_key(order, queue, keys, i);
            self.lemma_freed_at_is_key(order, queue, keys, j);
        }
    }
}

// What follows is the bookkeeping behind `topological_sort`: how many edges
// still lead to a node from nodes that were not emitted yet, and which nodes
// stand in the queue.

/// How often `v` occurs in `s`.
spec fn count_of(s: Seq<i32>, v: i32) -> nat
    decreases s.len(),
{
    if s.len() == 0 {
        0
    } else {
        (if s[0] == v {
            1nat
        } else {
            0nat
        }) + count_of(s.skip(1), v)
    }
}

/// The number of edges that lead to `v` from the first `k` nodes, the nodes
/// at the positions in `done` left out.
spec fn inflow(nodes: Seq<GraphNode>, k: int, done: Set<int>, v: i32) -> nat
    decreases k,
{
    if k <= 0 {
        0
    } else {
        inflow(nodes, k - 1, done, v) + (if done.contains(k - 1) {
            0nat
        } else {
            count_of(nodes[k - 1].edges@, v)
        })
    }
}

proof fn lemma_count_skip(s: Seq<i32>, j: int, v: i32)
    requires
        0 <= j < s.len(),
    ensures
        count_of(s.skip(j), v) == (if s[j] == v {
            1nat
        } else {
            0nat
        }) + count_of(s.skip(j + 1), v),
{
    assert(s.skip(j).skip(1) =~= s.skip(j + 1));
}

proof fn lemma_count_contains(s: Seq<i32>, v: i32)
    ensures
        count_of(s, v) > 0 <==> s.contains(v),
        count_of(s, v) <= s.len(),
    decreases s.len(),
{
    if s.len() > 0 {
        lemma_count_contains(s.skip(1), v);
        if s.skip(1).contains(v) {
            let k = choose|k: int| 0 <= k < s.skip(1).len() && s.skip(1)[k] == v;
            assert(s[k + 1] == v);
        }
        if s.contains(v) && s[0] != v {
            let k = choose|k: int| 0 <= k < s.len() && s[k] == v;
            assert(s.skip(1)[k - 1] == v);
        }
    }
}

proof fn lemma_inflow_insert(nodes: Seq<GraphNode>, k: int, done: Set<int>, u: int, v: i32)
    requires
        !done.contains(u),
    ensures
        inflow(nodes, k, done, v) == inflow(nodes, k, done.insert(u), v) + (if 0 <= u < k {
            count_of(nodes[u].edges@, v)
        } else {
            0nat
        }),
    decreases k,
{
    if k > 0 {
        lemma_inflow_insert(nodes, k - 1, done, u, v);
    }
}

proof fn lemma_inflow_zero(nodes: Seq<GraphNode>, k: int, done: Set<int>, v: i32, w: int)
    requires
        inflow(nodes, k, done, v) == 0,
        0 <= w < k,
        !done.contains(w),
    ensures
        count_of(nodes[w].edges@, v) == 0,
    decreases k,
{
    if w < k - 1 {
        lemma_inflow_zero(nodes, k - 1, done, v, w);
    }
}

proof fn lemma_inflow_positive(nodes: Seq<GraphNode>, k: int, done: Set<int>, v: i32) -> (w: int)
    requires
        inflow(nodes, k, done, v) > 0,
    ensures
        0 <= w < k,
        !done.contains(w),
        count_of(nodes[w].edges@, v) > 0,
    decreases k,
{
    if !done.contains(k - 1) && count_of(nodes[k - 1].edges@, v) > 0 {
        k - 1
    } else {
        lemma_inflow_positive(nodes, k - 1, done, v)
    }
}

proof fn lemma_inflow_bound(nodes: Seq<GraphNode>, k: int, done: Set<int>, v: i32)
    requires
        0 <= k <= nodes.len(),
        forall|i: int| 0 <= i < nodes.len() ==> (#[trigger] nodes[i]).edges@.len() <= usize::MAX,
    ensures
        inflow(nodes, k, done, v) <= k * usize::MAX,
    decreases k,
{
    if k > 0 {
        lemma_inflow_bound(nodes, k - 1, done, v);
        lemma_count_contains(nodes[k - 1].edges@, v);
        assert((k - 1) * usize::MAX + usize::MAX == k * usize::MAX) by (nonlinear_arith);
    }
}

/// Whether `r` is among the first `upto` entries of `queue`.
spec fn queued(queue: Seq<usize>, upto: int, r: int) -> bool {
    exists|t: int| 0 <= t < upto && t < queue.len() && queue[t] == r
}

/// The entries of `queue` are distinct positions below `n`.
spec fn distinct_positions(queue: Seq<usize>, n: int) -> bool {
    &&& forall|t: int| 0 <= t < queue.len() ==> (#[trigger] queue[t]) < n
    &&& forall|a: int, b: int| 0 <= a < b < queue.len() ==> queue[a] != queue[b]
}

/// Whether no node has an edge to `v`.
spec fn no_sources(nodes: Seq<GraphNode>, v: i32) -> bool {
    forall|w: int, j: int|
        0 <= w < nodes.len() && 0 <= j < nodes[w].edges@.len() ==> #[trigger] nodes[w].edges@[j]
            != v
}

/// Whether all the nodes with an edge to `v` are among the first `upto`
/// entries of `queue`.
spec fn sources_queued(nodes: Seq<GraphNode>, queue: Seq<usize>, upto: int, v: i32) -> bool {
    forall|w: int, j: int|
        0 <= w < nodes.len() && 0 <= j < nodes[w].edges@.len() && #[trigger] nodes[w].edges@[j]
            == v ==> queued(queue, upto, w)
}

/// Whether `key` says when the node at `queue[t]` became free: from the
/// start, as it has no sources, or with the edge `key.1` of the node at
/// `queue[key.0]`, the last edge that led to it from a node to be emitted.
spec fn freed(nodes: Seq<GraphNode>, queue: Seq<usize>, key: (int, int), t: int) -> bool {
    let v = nodes[queue[t] as int].datum.id();
    if key.0 < 0 {
        &&& key.0 == -1
        &&& key.1 == queue[t]
        &&& no_sources(nodes, v)
    } else {
        let targets = nodes[queue[key.0] as int].edges@;
        &&& key.0 < t
        &&& 0 <= key.1 < targets.len()
        &&& targets[key.1] == v
        &&& count_of(targets.skip(key.1 + 1), v) == 0
        &&& sources_queued(nodes, queue, key.0 + 1, v)
    }
}

proof fn lemma_freed_push(nodes: Seq<GraphNode>, queue: Seq<usize>, key: (int, int), t: int, x: usize)
    requires
        0 <= t < queue.len(),
        freed(nodes, queue, key, t),
    ensures
        freed(nodes, queue.push(x), key, t),
{
    let pushed = queue.push(x);
    let v = nodes[queue[t] as int].datum.id();
    assert(pushed[t] == queue[t]);
    if key.0 >= 0 {
        assert(pushed[key.0] == queue[key.0]);
        assert forall|w: int, j: int|
            0 <= w < nodes.len() && 0 <= j < nodes[w].edges@.len() && #[trigger] nodes[w].edges@[j]
                == v implies queued(pushed, key.0 + 1, w) by {
            assert(queued(queue, key.0 + 1, w));
            lemma_queued_push(queue, x, key.0 + 1, w);
        }
    }
}

/// The last occurrence of `v` in `s` is at `j` when it occurs there and
/// nowhere behind.
proof fn lemma_last_index_of(s: Seq<i32>, v: i32, j: int)
    requires
        0 <= j < s.len(),
        s[j] == v,
        forall|k: int| j < k < s.len() ==> s[k] != v,
    ensures
        last_index_of(s, v) == j,
    decreases s.len(),
{
    if j < s.len() - 1 {
        assert(s[s.len() - 1] != v);
        let front = s.drop_last();
        assert(front[j] == v);
        assert forall|k: int| j < k < front.len() implies front[k] != v by {
            assert(front[k] == s[k]);
        }
        lemma_last_index_of(front, v, j);
    }
}

impl GraphView {
    /// The last source of `v` below `upto` stands at `r` when the vertex
    /// there has an edge to `v` and none of the vertices behind it has.
    proof fn lemma_last_source_at(self, order: Seq<i32>, v: i32, r: int, upto: int)
        requires
            0 <= r < upto,
            self.has_edge(order[r], v),
            forall|k: int| r < k < upto ==> !self.has_edge(#[trigger] order[k], v),
        ensures
            self.last_source(order, v, upto) == r,
        decreases upto,
    {
        if r < upto - 1 {
            assert(!self.has_edge(order[upto - 1], v));
            self.lemma_last_source_at(order, v, r, upto - 1);
        }
    }

    /// There is no last source of `v` below `upto` when none of the
    /// vertices there has an edge to `v`.
    proof fn lemma_last_source_none(self, order: Seq<i32>, v: i32, upto: int)
        requires
            forall|k: int| 0 <= k < upto ==> !self.has_edge(#[trigger] order[k], v),
        ensures
            self.last_source(order, v, upto) == -1,
        decreases upto,
    {
        if upto > 0 {
            assert(!self.has_edge(order[upto - 1], v));
            self.lemma_last_source_none(order, v, upto - 1);
        }
    }
}

proof fn lemma_queued_push(queue: Seq<usize>, x: usize, upto: int, r: int)
    ensures
        upto <= queue.len() ==> queued(queue.push(x), upto, r) == queued(queue, upto, r),
        queued(queue.push(x), (queue.len() + 1) as int, r) == (queued(
            queue,
            queue.len() as int,
            r,
        ) || r == x),
{
    let pushed = queue.push(x);
    if upto <= queue.len() {
        if queued(queue, upto, r) {
            let t = choose|t: int| 0 <= t < upto && t < queue.len() && queue[t] == r;
            assert(pushed[t] == r);
        }
        if queued(pushed, upto, r) {
            let t = choose|t: int| 0 <= t < upto && t < pushed.len() && pushed[t] == r;
            assert(queue[t] == r);
        }
    }
    if queued(queue, queue.len() as int, r) {
        let t = choose|t: int| 0 <= t < queue.len() && t < queue.len() && queue[t] == r;
        assert(pushed[t] == r);
    }
    if r == x {
        assert(pushed[queue.len() as int] == r);
    }
    if queued(pushed, (queue.len() + 1) as int, r) {
        let t = choose|t: int| 0 <= t < (queue.len() + 1) as int && t < pushed.len() && pushed[t] == r;
        if t < queue.len() {
            assert(queue[t] == r);
        }
    }
}

proof fn lemma_queued_step(queue: Seq<usize>, upto: int, r: int)
    requires
        0 <= upto < queue.len(),
    ensures
        queued(queue, upto + 1, r) == (queued(queue, upto, r) || queue[upto] == r),
{
    if queued(queue, upto, r) {
        let t = choose|t: int| 0 <= t < upto && t < queue.len() && queue[t] == r;
        assert(0 <= t < upto + 1 && queue[t] == r);
    }
    if queue[upto] == r {
        assert(0 <= upto < upto + 1 && queue[upto] == r);
    }
}

/// Distinct positions below `n` are at most `n` many.
proof fn lemma_distinct_positions_len(queue: Seq<usize>, n: int)
    requires
        0 <= n,
        distinct_positions(queue, n),
    ensures
        queue.len() <= n,
{
    let positions = Seq::new(queue.len(), |t: int| queue[t] as int);
    assert(positions.no_duplicates());
    positions.unique_seq_to_set();
    vstd::set_lib::lemma_int_range(0, n);
    assert(positions.to_set().subset_of(vstd::set_lib::set_int_range(0, n))) by {
        assert forall|r: int| positions.to_set().contains(r) implies vstd::set_lib::set_int_range(
            0,
            n,
        ).contains(r) by {
            let t = choose|t: int| 0 <= t < positions.len() && positions[t] == r;
            assert(queue[t] < n);
        }
    }
    vstd::set_lib::lemma_len_subset(positions.to_set(), vstd::set_lib::set_int_range(0, n));
}

} // verus!
