use vstd::prelude::*;

verus! {

/// A directed edge with a non-negative weight.
#[derive(Clone, Copy, Debug)]
pub struct Edge {
    pub source: u32,
    pub destination: u32,
    pub weight: u32,
}

/// A work-set entry: a vertex and the tentative distance it had when the
/// entry was made. The entry is stale once a shorter distance is known.
#[derive(Clone, Copy, Debug)]
pub struct Vertex {
    pub id: u32,
    pub distance: u32,
}

/// A directed graph on vertices `0 .. vertices`, each with a name and a list
/// of outgoing edges.
pub struct Graph {
    vertices: u32,
    edges: Vec<Vec<Edge>>,
    vertex_names: Vec<&'static str>,
}

/// Sum of the weights along `p`.
pub open spec fn path_weight(p: Seq<Edge>) -> int
    decreases p.len(),
{
    if p.len() == 0 {
        0
    } else {
        path_weight(p.drop_last()) + p.last().weight
    }
}

/// Sum of the entries.
pub open spec fn total(s: Seq<u32>) -> nat
    decreases s.len(),
{
    if s.len() == 0 {
        0
    } else {
        total(s.drop_last()) + s.last() as nat
    }
}

impl Graph {
    /// Number of vertices.
    pub closed spec fn num_vertices(&self) -> nat {
        self.vertices as nat
    }

    /// The outgoing edges of each vertex, in insertion order.
    pub closed spec fn edge_lists(&self) -> Seq<Seq<Edge>> {
        self.edges@.map_values(|row: Vec<Edge>| row@)
    }

    /// The vertex names, by id.
    pub closed spec fn names(&self) -> Seq<&'static str> {
        self.vertex_names@
    }

    /// One edge list and one name per vertex; each edge leaves the vertex
    /// whose list holds it and ends at a vertex.
    pub open spec fn wf(&self) -> bool {
        &&& self.edge_lists().len() == self.num_vertices()
        &&& self.names().len() == self.num_vertices()
        &&& forall|u: int, k: int|
            0 <= u < self.edge_lists().len() && 0 <= k < self.edge_lists()[u].len() ==> {
                &&& (#[trigger] self.edge_lists()[u][k]).source == u
                &&& self.edge_lists()[u][k].destination < self.num_vertices()
            }
    }

    /// `p` is a walk in the graph from `start` to `v`: its edges belong to
    /// the graph and each one begins where the one before it ends.
    pub open spec fn is_walk(&self, start: int, v: int, p: Seq<Edge>) -> bool {
        &&& p.len() == 0 ==> v == start
        &&& p.len() > 0 ==> p[0].source == start && p.last().destination == v
        &&& forall|i: int|
            0 <= i < p.len() ==> (#[trigger] p[i]).source < self.num_vertices() && self.edge_lists()[p[i].source as int].contains(
                p[i],
            )
        &&& forall|i: int| 0 <= i < p.len() - 1 ==> #[trigger] p[i].destination == p[i + 1].source
    }

    /// `x` is the length of a shortest walk from `start` to `v`, where a
    /// length of `u32::MAX` stands for "no walk shorter than `u32::MAX`".
    pub open spec fn is_distance(&self, start: int, v: int, x: int) -> bool {
        &&& x < u32::MAX ==> exists|p: Seq<Edge>| self.is_walk(start, v, p) && path_weight(p) == x
        &&& forall|p: Seq<Edge>| #[trigger] self.is_walk(start, v, p) ==> x <= path_weight(p)
    }

    /// A graph with one vertex per name and no edges.
    pub fn new(vertex_names: Vec<&'static str>) -> (g: Graph)
        requires
            vertex_names.len() <= u32::MAX,
        ensures
            g.wf(),
            g.num_vertices() == vertex_names.len(),
            g.names() == vertex_names@,
            forall|u: int| 0 <= u < g.num_vertices() ==> (#[trigger] g.edge_lists()[u]).len() == 0,
    {
        let vertices = vertex_names.len() as u32;
        let mut edges: Vec<Vec<Edge>> = Vec::new();
        let mut i: u32 = 0;
        while i < vertices
            invariant
                i <= vertices,
                edges@.len() == i,
                forall|u: int| 0 <= u < i ==> (#[trigger] edges@[u])@.len() == 0,
            decreases vertices - i,
        {
            edges.push(Vec::new());
            i = i + 1;
        }
        Graph { vertices, edges, vertex_names }
    }

    /// Appends an edge of weight `weight` from `source` to `destination`.
    /// Parallel edges are kept apart.
    pub fn add_edge(&mut self, source: u32, destination: u32, weight: u32)
        requires
            old(self).wf(),
            source < old(self).num_vertices(),
            destination < old(self).num_vertices(),
        ensures
            final(self).wf(),
            final(self).num_vertices() == old(self).num_vertices(),
            final(self).names() == old(self).names(),
            final(self).edge_lists() == old(self).edge_lists().update(
                source as int,
                old(self).edge_lists()[source as int].push(Edge { source, destination, weight }),
            ),
    {
        let ghost lists = self.edge_lists();
        let mut row = self.edges[source as usize].clone();
        assert(row@ =~= lists[source as int]);
        row.push(Edge { source, destination, weight });
        self.edges.set(source as usize, row);
        assert(self.edge_lists() =~= lists.update(
            source as int,
            lists[source as int].push(Edge { source, destination, weight }),
        ));
        assert forall|u: int, k: int|
            0 <= u < self.edge_lists().len() && 0 <= k < self.edge_lists()[u].len() implies {
                &&& (#[trigger] self.edge_lists()[u][k]).source == u
                &&& self.edge_lists()[u][k].destination < self.num_vertices()
            } by {
            if u == source && k < lists[u].len() {
                assert(self.edge_lists()[u][k] == lists[u][k]);
            }
        }
    }
}


proof fn lemma_total_update(s: Seq<u32>, i: int, x: u32)
    requires
        0 <= i < s.len(),
    ensures
        total(s.update(i, x)) == total(s) - s[i] + x,
    decreases s.len(),
{
    if i < s.len() - 1 {
        lemma_total_update(s.drop_last(), i, x);
        assert(s.update(i, x).drop_last() =~= s.drop_last().update(i, x));
    } else {
        assert(s.update(i, x).drop_last() =~= s.drop_last());
    }
}

/// Removes and returns an entry of least distance.
fn pop_min(queue: &mut Vec<Vertex>) -> (r: Vertex)
    requires
        old(queue).len() > 0,
    ensures
        exists|m: int|
            0 <= m < old(queue).len() && old(queue)@[m] == r && final(queue)@ == old(queue)@.remove(m),
        forall|i: int| 0 <= i < old(queue).len() ==> r.distance <= (#[trigger] old(queue)@[i]).distance,
{
    let mut m: usize = 0;
    let mut i: usize = 1;
    while i < queue.len()
        invariant
            0 <= m < queue.len(),
            1 <= i <= queue.len(),
            forall|j: int| 0 <= j < i ==> queue@[m as int].distance <= (#[trigger] queue@[j]).distance,
        decreases queue.len() - i,
    {
        if queue[i].distance < queue[m].distance {
            m = i;
        }
        i = i + 1;
    }
    queue.remove(m)
}

impl Graph {
    proof fn lemma_walk_extend(&self, start: int, p: Seq<Edge>, e: Edge)
        requires
            self.wf(),
            self.is_walk(start, e.source as int, p),
            e.source < self.num_vertices(),
            self.edge_lists()[e.source as int].contains(e),
        ensures
            self.is_walk(start, e.destination as int, p.push(e)),
            path_weight(p.push(e)) == path_weight(p) + e.weight,
    {
        let q = p.push(e);
        assert(q.drop_last() =~= p);
        assert forall|i: int| 0 <= i < q.len() implies (#[trigger] q[i]).source < self.num_vertices() && self.edge_lists()[q[i].source as int].contains(q[i]) by {
            if i < p.len() {
                assert(q[i] == p[i]);
            }
        }
        assert forall|i: int| 0 <= i < q.len() - 1 implies #[trigger] q[i].destination == q[i + 1].source by {
            if i < p.len() - 1 {
                assert(q[i] == p[i] && q[i + 1] == p[i + 1]);
            }
        }
    }

    /// Once every vertex with a finite table value has had all its edges
    /// relaxed, the table bounds every walk from `start`.
    proof fn lemma_table_optimal(&self, start: int, dist: Seq<u32>, p: Seq<Edge>, v: int)
        requires
            self.wf(),
            dist.len() == self.num_vertices(),
            0 <= start < dist.len(),
            dist[start] == 0,
            forall|u: int, k: int|
                0 <= u < dist.len() && dist[u] < u32::MAX && 0 <= k < self.edge_lists()[u].len() ==> dist[(#[trigger] self.edge_lists()[u][k]).destination as int]
                    <= dist[u] + self.edge_lists()[u][k].weight,
            self.is_walk(start, v, p),
        ensures
            dist[v] <= path_weight(p),
        decreases p.len(),
    {
        if p.len() > 0 {
            let e = p.last();
            let q = p.drop_last();
            let u = e.source as int;
            assert(p[p.len() - 1] == e);
            assert(self.is_walk(start, u, q)) by {
                if q.len() > 0 {
                    assert(q.last() == p[p.len() - 2]);
                }
                assert forall|i: int| 0 <= i < q.len() implies (#[trigger] q[i]).source < self.num_vertices() && self.edge_lists()[q[i].source as int].contains(q[i]) by {
                    assert(q[i] == p[i]);
                }
                assert forall|i: int| 0 <= i < q.len() - 1 implies #[trigger] q[i].destination == q[i + 1].source by {
                    assert(q[i] == p[i] && q[i + 1] == p[i + 1]);
                }
            }
            self.lemma_table_optimal(start, dist, q, u);
            if dist[u] < u32::MAX {
                let k = choose|k: int| 0 <= k < self.edge_lists()[u].len() && self.edge_lists()[u][k] == e;
                assert(dist[self.edge_lists()[u][k].destination as int] <= dist[u] + self.edge_lists()[u][k].weight);
            }
        }
    }
}


impl Graph {
    /// Shortest distances from `start` to every vertex, with `u32::MAX` for
    /// the vertices that no walk shorter than `u32::MAX` reaches (Dijkstra's
    /// algorithm, with stale work-set entries skipped when taken out).
    pub fn dijkstra(graph: &Graph, start: u32) -> (distances: Vec<u32>)
        requires
            graph.wf(),
            start < graph.num_vertices(),
        ensures
            distances.len() == graph.num_vertices(),
            forall|v: int| 0 <= v < distances.len() ==> graph.is_distance(start as int, v, #[trigger] distances@[v] as int),
    {
        let n = graph.vertices;
        let mut distances: Vec<u32> = vec![u32::MAX; n as usize];
        distances.set(start as usize, 0);
        let mut queue: Vec<Vertex> = Vec::new();
        queue.push(Vertex { id: start, distance: 0 });
        let ghost mut done: Seq<bool> = Seq::new(n as nat, |i: int| false);
        proof {
            let p = Seq::<Edge>::empty();
            assert(graph.is_walk(start as int, start as int, p));
            assert(path_weight(p) == 0);
            assert forall|v: int| 0 <= v < n && !done[v] && #[trigger] distances@[v] < u32::MAX implies exists|i: int|
                0 <= i < queue.len() && (#[trigger] queue@[i]).id == v && queue@[i].distance == distances@[v] by {
                assert(queue@[0].id == start);
            }
        }
        while queue.len() > 0
            invariant
                graph.wf(),
                n == graph.num_vertices(),
                start < n,
                distances@.len() == n,
                done.len() == n,
                distances@[start as int] == 0,
                forall|v: int| 0 <= v < n && #[trigger] distances@[v] < u32::MAX ==> exists|p: Seq<Edge>|
                    graph.is_walk(start as int, v, p) && path_weight(p) == distances@[v],
                forall|i: int| 0 <= i < queue.len() ==> {
                    &&& (#[trigger] queue@[i]).id < n
                    &&& distances@[queue@[i].id as int] <= queue@[i].distance < u32::MAX
                    &&& exists|p: Seq<Edge>| graph.is_walk(start as int, queue@[i].id as int, p) && path_weight(p) == queue@[i].distance
                },
                forall|u: int, k: int|
                    0 <= u < n && done[u] && 0 <= k < graph.edge_lists()[u].len() ==> distances@[(#[trigger] graph.edge_lists()[u][k]).destination as int]
                        <= distances@[u] + graph.edge_lists()[u][k].weight,
                forall|u: int| 0 <= u < n && #[trigger] done[u] ==> distances@[u] < u32::MAX,
                forall|u: int, i: int| #![trigger done[u], queue@[i]] 0 <= u < n && done[u] && 0 <= i < queue.len() ==> distances@[u] <= queue@[i].distance,
                forall|v: int| 0 <= v < n && !done[v] && #[trigger] distances@[v] < u32::MAX ==> exists|i: int|
                    0 <= i < queue.len() && (#[trigger] queue@[i]).id == v && queue@[i].distance == distances@[v],
            decreases total(distances@), queue.len(),
        {
            let ghost q0 = queue@;
            let ghost d0 = distances@;
            let Vertex { id, distance } = pop_min(&mut queue);
            let ghost m = choose|m: int| 0 <= m < q0.len() && q0[m] == Vertex { id, distance } && queue@ == q0.remove(m);
            assert(q0[m].id == id);
            assert(forall|i: int| 0 <= i < queue.len() ==> #[trigger] queue@[i] == q0[if i < m { i } else { i + 1 }]);
            if distance > distances[id as usize] {
                proof {
                    assert forall|v: int| 0 <= v < n && !done[v] && #[trigger] distances@[v] < u32::MAX implies exists|i: int|
                        0 <= i < queue.len() && (#[trigger] queue@[i]).id == v && queue@[i].distance == distances@[v] by {
                        let i = choose|i: int| 0 <= i < q0.len() && (#[trigger] q0[i]).id == v && q0[i].distance == distances@[v];
                        assert(i != m);
                        if i < m {
                            assert(queue@[i] == q0[i]);
                        } else {
                            assert(queue@[i - 1] == q0[i]);
                        }
                    }
                    assert forall|u: int, i: int| #![trigger done[u], queue@[i]] 0 <= u < n && done[u] && 0 <= i < queue.len() implies distances@[u] <= queue@[i].distance by {
                        assert(queue@[i] == q0[if i < m { i } else { i + 1 }]);
                    }
                }
            } else {
                let ghost pu = choose|p: Seq<Edge>| graph.is_walk(start as int, id as int, p) && path_weight(p) == distance;
                proof {
                    assert(distances@[id as int] == distance);
                    assert forall|u: int| 0 <= u < n && done[u] implies distances@[u] <= distance by {
                        assert(distances@[u] <= q0[m].distance);
                    }
                    done = done.update(id as int, true);
                    assert forall|v: int| 0 <= v < n && !done[v] && #[trigger] distances@[v] < u32::MAX implies exists|i: int|
                        0 <= i < queue.len() && (#[trigger] queue@[i]).id == v && queue@[i].distance == distances@[v] by {
                        let i = choose|i: int| 0 <= i < q0.len() && (#[trigger] q0[i]).id == v && q0[i].distance == distances@[v];
                        assert(i != m);
                        if i < m {
                            assert(queue@[i] == q0[i]);
                        } else {
                            assert(queue@[i - 1] == q0[i]);
                        }
                    }
                }
                let ghost len0 = queue.len();
                let ghost sum0 = total(distances@);
                let edges = &graph.edges[id as usize];
                assert(edges@ == graph.edge_lists()[id as int]);
                let mut k: usize = 0;
                while k < edges.len()
                    invariant
                        graph.wf(),
                        n == graph.num_vertices(),
                        start < n,
                        id < n,
                        edges@ == graph.edge_lists()[id as int],
                        k <= edges@.len(),
                        distances@.len() == n,
                        done.len() == n,
                        done[id as int],
                        distances@[start as int] == 0,
                        distances@[id as int] == distance,
                        distance < u32::MAX,
                        graph.is_walk(start as int, id as int, pu),
                        path_weight(pu) == distance,
                        total(distances@) <= sum0,
                        queue.len() + total(distances@) <= len0 + sum0,
                        len0 + 1 == q0.len(),
                        d0.len() == n,
                        forall|v: int| 0 <= v < n && #[trigger] distances@[v] < u32::MAX ==> exists|p: Seq<Edge>|
                            graph.is_walk(start as int, v, p) && path_weight(p) == distances@[v],
                        forall|i: int| 0 <= i < queue.len() ==> {
                            &&& (#[trigger] queue@[i]).id < n
                            &&& distances@[queue@[i].id as int] <= queue@[i].distance < u32::MAX
                            &&& exists|p: Seq<Edge>| graph.is_walk(start as int, queue@[i].id as int, p) && path_weight(p) == queue@[i].distance
                        },
                        forall|u: int| 0 <= u < n && done[u] ==> distances@[u] == d0[u],
                        forall|u: int, kk: int|
                            0 <= u < n && done[u] && (u != id || kk < k) && 0 <= kk < graph.edge_lists()[u].len() ==> distances@[(#[trigger] graph.edge_lists()[u][kk]).destination as int]
                                <= distances@[u] + graph.edge_lists()[u][kk].weight,
                        forall|u: int| 0 <= u < n && #[trigger] done[u] ==> distances@[u] <= distance,
                        forall|u: int, i: int| #![trigger done[u], queue@[i]] 0 <= u < n && done[u] && 0 <= i < queue.len() ==> distances@[u] <= queue@[i].distance,
                        forall|v: int| 0 <= v < n && !done[v] && #[trigger] distances@[v] < u32::MAX ==> exists|i: int|
                            0 <= i < queue.len() && (#[trigger] queue@[i]).id == v && queue@[i].distance == distances@[v],
                    decreases edges@.len() - k,
                {
                    let e = edges[k];
                    assert(e == graph.edge_lists()[id as int][k as int]);
                    let dest = e.destination;
                    match distance.checked_add(e.weight) {
                        Some(new_distance) => {
                            if new_distance < distances[dest as usize] {
                                let ghost dq = queue@;
                                let ghost dd = distances@;
                                proof {
                                    assert(graph.edge_lists()[id as int].contains(e)) by {
                                        assert(graph.edge_lists()[id as int][k as int] == e);
                                    }
                                    graph.lemma_walk_extend(start as int, pu, e);
                                    lemma_total_update(distances@, dest as int, new_distance);
                                    if done[dest as int] {
                                        assert(distances@[dest as int] <= distance);
                                    }
                                }
                                distances.set(dest as usize, new_distance);
                                queue.push(Vertex { id: dest, distance: new_distance });
                                proof {
                                    assert(queue@ == dq.push(Vertex { id: dest, distance: new_distance }));
                                    assert forall|v: int| 0 <= v < n && #[trigger] distances@[v] < u32::MAX implies exists|p: Seq<Edge>|
                                        graph.is_walk(start as int, v, p) && path_weight(p) == distances@[v] by {
                                        if v == dest {
                                            assert(graph.is_walk(start as int, v, pu.push(e)));
                                        } else {
                                            assert(distances@[v] == dd[v]);
                                        }
                                    }
                                    assert forall|i: int| 0 <= i < queue.len() implies {
                                        &&& (#[trigger] queue@[i]).id < n
                                        &&& distances@[queue@[i].id as int] <= queue@[i].distance < u32::MAX
                                        &&& exists|p: Seq<Edge>| graph.is_walk(start as int, queue@[i].id as int, p) && path_weight(p) == queue@[i].distance
                                    } by {
                                        if i < dq.len() {
                                            assert(queue@[i] == dq[i]);
                                        } else {
                                            assert(graph.is_walk(start as int, dest as int, pu.push(e)));
                                        }
                                    }
                                    assert forall|v: int| 0 <= v < n && !done[v] && #[trigger] distances@[v] < u32::MAX implies exists|i: int|
                                        0 <= i < queue.len() && (#[trigger] queue@[i]).id == v && queue@[i].distance == distances@[v] by {
                                        if v == dest {
                                            assert(queue@[dq.len() as int].id == v);
                                        } else {
                                            assert(dd[v] == distances@[v]);
                                            let i = choose|i: int| 0 <= i < dq.len() && (#[trigger] dq[i]).id == v && dq[i].distance == dd[v];
                                            assert(queue@[i] == dq[i]);
                                        }
                                    }
                                    assert forall|u: int, i: int| #![trigger done[u], queue@[i]] 0 <= u < n && done[u] && 0 <= i < queue.len() implies distances@[u] <= queue@[i].distance by {
                                        if i < dq.len() {
                                            assert(queue@[i] == dq[i]);
                                        }
                                    }
                                }
                            }
                        },
                        None => {},
                    }
                    k = k + 1;
                }
            }
        }
        proof {
            assert forall|u: int, k: int|
                0 <= u < n && distances@[u] < u32::MAX && 0 <= k < graph.edge_lists()[u].len() implies distances@[(#[trigger] graph.edge_lists()[u][k]).destination as int]
                    <= distances@[u] + graph.edge_lists()[u][k].weight by {
                if !done[u] {
                    let i = choose|i: int| 0 <= i < queue.len() && (#[trigger] queue@[i]).id == u && queue@[i].distance == distances@[u];
                }
            }
            assert forall|v: int| 0 <= v < distances.len() implies graph.is_distance(start as int, v, #[trigger] distances@[v] as int) by {
                assert forall|p: Seq<Edge>| #[trigger] graph.is_walk(start as int, v, p) implies distances@[v] <= path_weight(p) by {
                    graph.lemma_table_optimal(start as int, distances@, p, v);
                }
            }
        }
        distances
    }
}

/// Shortest distances are unique: two tables that both meet the contract of
/// `Graph::dijkstra` for one graph and one start are equal, so running it
/// again on unchanged input gives the same table.
pub proof fn lemma_distances_unique(g: &Graph, start: int, a: Seq<u32>, b: Seq<u32>)
    requires
        a.len() == g.num_vertices(),
        b.len() == g.num_vertices(),
        forall|v: int| 0 <= v < a.len() ==> g.is_distance(start, v, #[trigger] a[v] as int),
        forall|v: int| 0 <= v < b.len() ==> g.is_distance(start, v, #[trigger] b[v] as int),
    ensures
        a == b,
{
    assert forall|v: int| 0 <= v < a.len() implies a[v] == b[v] by {
        assert(g.is_distance(start, v, a[v] as int));
        assert(g.is_distance(start, v, b[v] as int));
        if a[v] < u32::MAX {
            let p = choose|p: Seq<Edge>| g.is_walk(start, v, p) && path_weight(p) == a[v];
            assert(b[v] <= path_weight(p));
        }
        if b[v] < u32::MAX {
            let p = choose|p: Seq<Edge>| g.is_walk(start, v, p) && path_weight(p) == b[v];
            assert(a[v] <= path_weight(p));
        }
    }
    assert(a =~= b);
}

} // verus!
