use vstd::prelude::*;
use crate::max_flow::{num_false, lemma_num_false_all, lemma_num_false_set};

verus! {

/// A directed graph whose vertices are named by distinct `u64` labels. The
/// vertex at position `i` has label `vertices[i]`; its `k`-th outgoing edge
/// ends at position `targets[i][k]` and carries weight `weights[i][k]`.
pub struct Graph {
    vertices: Vec<u64>,
    targets: Vec<Vec<usize>>,
    weights: Vec<Vec<u64>>,
}

/// Occurrences of `v` in `s`.
pub open spec fn count(s: Seq<usize>, v: int) -> nat
    decreases s.len(),
{
    if s.len() == 0 {
        0
    } else {
        count(s.drop_last(), v) + if s.last() == v {
            1nat
        } else {
            0nat
        }
    }
}

/// Total number of edges.
pub open spec fn total_edges(succ: Seq<Seq<usize>>) -> nat
    decreases succ.len(),
{
    if succ.len() == 0 {
        0
    } else {
        total_edges(succ.drop_last()) + succ.last().len()
    }
}

/// `labels` with `v` appended unless it is already there.
pub open spec fn add_label(labels: Seq<u64>, v: u64) -> Seq<u64> {
    if labels.contains(v) {
        labels
    } else {
        labels.push(v)
    }
}

/// `succ` extended with vertices without edges up to `n` vertices.
pub open spec fn pad(succ: Seq<Seq<usize>>, n: nat) -> Seq<Seq<usize>> {
    Seq::new(n, |i: int| if i < succ.len() { succ[i] } else { Seq::<usize>::empty() })
}

/// `w` extended with vertices without edges up to `n` vertices.
pub open spec fn pad_weights(w: Seq<Seq<u64>>, n: nat) -> Seq<Seq<u64>> {
    Seq::new(n, |i: int| if i < w.len() { w[i] } else { Seq::<u64>::empty() })
}

proof fn lemma_total_edges_push(s: Seq<Seq<usize>>, i: int, j: usize)
    requires
        0 <= i < s.len(),
    ensures
        total_edges(s.update(i, s[i].push(j))) == total_edges(s) + 1,
    decreases s.len(),
{
    if i < s.len() - 1 {
        lemma_total_edges_push(s.drop_last(), i, j);
        assert(s.update(i, s[i].push(j)).drop_last() =~= s.drop_last().update(i, s[i].push(j)));
    } else {
        assert(s.update(i, s[i].push(j)).drop_last() =~= s.drop_last());
    }
}

impl Graph {
    /// The vertex labels, by position.
    pub closed spec fn labels(&self) -> Seq<u64> {
        self.vertices@
    }

    /// For each vertex, the positions of its edges' targets, in insertion order.
    pub closed spec fn succ(&self) -> Seq<Seq<usize>> {
        self.targets@.map_values(|row: Vec<usize>| row@)
    }

    /// For each vertex, the weights of its edges, in insertion order.
    pub closed spec fn weights(&self) -> Seq<Seq<u64>> {
        self.weights@.map_values(|row: Vec<u64>| row@)
    }

    /// Labels are distinct, every vertex has an edge list, every edge ends at
    /// a vertex, and the edges can be counted in a `usize`.
    pub open spec fn wf(&self) -> bool {
        &&& self.labels().no_duplicates()
        &&& self.succ().len() == self.labels().len()
        &&& self.weights().len() == self.labels().len()
        &&& forall|u: int| 0 <= u < self.succ().len() ==> (#[trigger] self.succ()[u]).len() == self.weights()[u].len()
        &&& forall|u: int, k: int|
            0 <= u < self.succ().len() && 0 <= k < self.succ()[u].len() ==> #[trigger] self.succ()[u][k] < self.labels().len()
        &&& total_edges(self.succ()) <= usize::MAX
    }

    /// There is an edge from the vertex labelled `a` to the vertex labelled `b`.
    pub open spec fn has_edge(&self, a: u64, b: u64) -> bool {
        exists|u: int, k: int|
            0 <= u < self.succ().len() && 0 <= k < self.succ()[u].len() && self.labels()[u] == a
                && self.labels()[#[trigger] self.succ()[u][k] as int] == b
    }

    /// An empty graph.
    pub fn new() -> (g: Graph)
        ensures
            g.wf(),
            g.labels() == Seq::<u64>::empty(),
    {
        let g = Graph { vertices: Vec::new(), targets: Vec::new(), weights: Vec::new() };
        assert(g.succ() =~= Seq::<Seq<usize>>::empty());
        g
    }

    /// The position of the vertex labelled `v`, if there is one.
    pub fn position(&self, v: u64) -> (r: Option<usize>)
        requires
            self.wf(),
        ensures
            r is None ==> !self.labels().contains(v),
            r matches Some(i) ==> i < self.labels().len() && self.labels()[i as int] == v,
    {
        let mut i: usize = 0;
        while i < self.vertices.len()
            invariant
                i <= self.vertices@.len(),
                forall|j: int| 0 <= j < i ==> self.vertices@[j] != v,
            decreases self.vertices@.len() - i,
        {
            if self.vertices[i] == v {
                return Some(i);
            }
            i = i + 1;
        }
        None
    }

    /// The position of the vertex labelled `v`, added first if absent.
    fn vertex(&mut self, v: u64) -> (i: usize)
        requires
            old(self).wf(),
        ensures
            final(self).wf(),
            final(self).labels() == add_label(old(self).labels(), v),
            final(self).succ() == pad(old(self).succ(), final(self).labels().len()),
            final(self).weights() == pad_weights(old(self).weights(), final(self).labels().len()),
            total_edges(final(self).succ()) == total_edges(old(self).succ()),
            i < final(self).labels().len(),
            final(self).labels()[i as int] == v,
    {
        match self.position(v) {
            Some(i) => {
                assert(self.labels().contains(v));
                assert(self.succ() =~= pad(self.succ(), self.labels().len()));
                assert(self.weights() =~= pad_weights(self.weights(), self.labels().len()));
                i
            },
            None => {
                let ghost old_succ = self.succ();
                let ghost n = self.labels().len();
                let i = self.vertices.len();
                self.vertices.push(v);
                self.targets.push(Vec::new());
                self.weights.push(Vec::new());
                assert(self.succ() =~= old_succ.push(Seq::<usize>::empty()));
                assert(self.succ() =~= pad(old_succ, self.labels().len()));
                assert(self.weights() =~= pad_weights(old(self).weights(), self.labels().len()));
                assert(old_succ.push(Seq::<usize>::empty()).drop_last() =~= old_succ);
                assert(self.labels().no_duplicates());
                assert forall|u: int, k: int|
                    0 <= u < self.succ().len() && 0 <= k < self.succ()[u].len() implies #[trigger] self.succ()[u][k] < self.labels().len() by {
                    assert(u < n);
                    assert(self.succ()[u] == old_succ[u]);
                }
                i
            },
        }
    }

    /// Adds a vertex labelled `v`, unless there is one already.
    pub fn add_vertex(&mut self, v: u64)
        requires
            old(self).wf(),
        ensures
            final(self).wf(),
            final(self).labels() == add_label(old(self).labels(), v),
            final(self).succ() == pad(old(self).succ(), final(self).labels().len()),
            final(self).weights() == pad_weights(old(self).weights(), final(self).labels().len()),
    {
        self.vertex(v);
    }

    /// Adds an edge of weight `weight` from the vertex labelled `source` to the
    /// vertex labelled `destination`, adding either vertex first if absent.
    /// Parallel edges are kept apart.
    pub fn add_edge(&mut self, source: u64, destination: u64, weight: u64)
        requires
            old(self).wf(),
            total_edges(old(self).succ()) < usize::MAX,
        ensures
            final(self).wf(),
            final(self).labels() == add_label(add_label(old(self).labels(), source), destination),
            ({
                let l = final(self).labels();
                let i = l.index_of(source);
                let j = l.index_of(destination);
                let succ = pad(old(self).succ(), l.len());
                let w = pad_weights(old(self).weights(), l.len());
                &&& final(self).succ() == succ.update(i, succ[i].push(j as usize))
                &&& final(self).weights() == w.update(i, w[i].push(weight))
            }),
    {
        let i = self.vertex(source);
        let ghost l1 = self.labels();
        let j = self.vertex(destination);
        let ghost l = self.labels();
        proof {
            assert(l[i as int] == l1[i as int]);
            assert(l.contains(source));
            assert(l.contains(destination));
            assert(l.index_of(source) == i) by {
                let x = l.index_of(source);
                assert(l[x] == l[i as int]);
            }
            assert(l.index_of(destination) == j) by {
                let x = l.index_of(destination);
                assert(l[x] == l[j as int]);
            }
        }
        let ghost succ = self.succ();
        let ghost w = self.weights();
        assert(pad(old(self).succ(), l.len()) =~= succ);
        assert(pad_weights(old(self).weights(), l.len()) =~= w);
        let mut row = self.targets[i].clone();
        assert(row@ =~= succ[i as int]);
        row.push(j);
        self.targets.set(i, row);
        let mut wrow = self.weights[i].clone();
        assert(wrow@ =~= w[i as int]);
        wrow.push(weight);
        self.weights.set(i, wrow);
        assert(self.succ() =~= succ.update(i as int, succ[i as int].push(j)));
        assert(self.weights() =~= w.update(i as int, w[i as int].push(weight)));
        proof {
            lemma_total_edges_push(succ, i as int, j);
            assert forall|u: int| 0 <= u < self.succ().len() implies (#[trigger] self.succ()[u]).len() == self.weights()[u].len() by {
                assert(succ[u].len() == w[u].len());
            }
            assert forall|u: int, k: int|
                0 <= u < self.succ().len() && 0 <= k < self.succ()[u].len() implies #[trigger] self.succ()[u][k] < self.labels().len() by {
                if u == i {
                    if k < succ[u].len() {
                        assert(self.succ()[u][k] == succ[u][k]);
                    }
                } else {
                    assert(self.succ()[u] == succ[u]);
                }
            }
        }
    }
}


impl Graph {
    /// `order` lists every vertex label once, and each edge goes from a label
    /// to one that comes later.
    pub open spec fn is_topo_order(&self, order: Seq<u64>) -> bool {
        &&& order.no_duplicates()
        &&& forall|x: u64| order.contains(x) <==> self.labels().contains(x)
        &&& forall|i: int, j: int|
            0 <= i < order.len() && 0 <= j < order.len() && #[trigger] self.has_edge(order[i], order[j]) ==> i < j
    }

    /// Some order of the vertices puts every edge forwards.
    pub open spec fn has_topo_order(&self) -> bool {
        exists|order: Seq<u64>| self.is_topo_order(order)
    }

    /// `c` is a closed walk of at least one edge.
    pub open spec fn is_cycle(&self, c: Seq<u64>) -> bool {
        &&& c.len() >= 2
        &&& c[0] == c.last()
        &&& forall|i: int| 0 <= i < c.len() - 1 ==> #[trigger] self.has_edge(c[i], c[i + 1])
    }
}

/// Incoming edges of `v` from the vertices below `m` that are not marked in `e`.
pub open spec fn count_in(succ: Seq<Seq<usize>>, e: Seq<bool>, v: int, m: int) -> nat
    decreases m,
{
    if m <= 0 {
        0
    } else {
        count_in(succ, e, v, m - 1) + if e[m - 1] {
            0nat
        } else {
            count(succ[m - 1], v)
        }
    }
}

proof fn lemma_count_take(s: Seq<usize>, k: int, v: int)
    requires
        0 <= k < s.len(),
    ensures
        count(s.take(k + 1), v) == count(s.take(k), v) + if s[k] == v {
            1nat
        } else {
            0nat
        },
{
    assert(s.take(k + 1).drop_last() =~= s.take(k));
}

proof fn lemma_count_take_le(s: Seq<usize>, k: int, v: int)
    requires
        0 <= k <= s.len(),
    ensures
        count(s.take(k), v) <= count(s, v),
    decreases s.len(),
{
    if k == s.len() {
        assert(s.take(k) =~= s);
    } else {
        lemma_count_take_le(s.drop_last(), k, v);
        assert(s.drop_last().take(k) =~= s.take(k));
    }
}

proof fn lemma_count_le_len(s: Seq<usize>, v: int)
    ensures
        count(s, v) <= s.len(),
    decreases s.len(),
{
    if s.len() > 0 {
        lemma_count_le_len(s.drop_last(), v);
    }
}

proof fn lemma_count_pos(s: Seq<usize>, v: int)
    requires
        count(s, v) > 0,
    ensures
        exists|k: int| 0 <= k < s.len() && s[k] == v,
    decreases s.len(),
{
    if s.last() != v {
        lemma_count_pos(s.drop_last(), v);
        let k = choose|k: int| 0 <= k < s.drop_last().len() && s.drop_last()[k] == v;
        assert(s[k] == v);
    } else {
        assert(s[s.len() - 1] == v);
    }
}

proof fn lemma_count_in_mark(succ: Seq<Seq<usize>>, e: Seq<bool>, u: int, v: int, m: int)
    requires
        0 <= u < e.len(),
        !e[u],
        m <= e.len(),
    ensures
        count_in(succ, e.update(u, true), v, m) + (if u < m {
            count(succ[u], v)
        } else {
            0
        }) == count_in(succ, e, v, m),
    decreases m,
{
    if m > 0 {
        lemma_count_in_mark(succ, e, u, v, m - 1);
    }
}

proof fn lemma_count_in_ge(succ: Seq<Seq<usize>>, e: Seq<bool>, u: int, v: int, m: int)
    requires
        0 <= u < m,
        !e[u],
    ensures
        count_in(succ, e, v, m) >= count(succ[u], v),
    decreases m,
{
    if u < m - 1 {
        lemma_count_in_ge(succ, e, u, v, m - 1);
    }
}

proof fn lemma_count_in_pos(succ: Seq<Seq<usize>>, e: Seq<bool>, v: int, m: int)
    requires
        count_in(succ, e, v, m) > 0,
    ensures
        exists|u: int, k: int| 0 <= u < m && !e[u] && 0 <= k < succ[u].len() && succ[u][k] == v,
    decreases m,
{
    if count_in(succ, e, v, m - 1) > 0 {
        lemma_count_in_pos(succ, e, v, m - 1);
        let (u, k) = choose|u: int, k: int| 0 <= u < m - 1 && !e[u] && 0 <= k < succ[u].len() && succ[u][k] == v;
        assert(0 <= u < m && !e[u] && 0 <= k < succ[u].len() && succ[u][k] == v);
    } else {
        lemma_count_pos(succ[m - 1], v);
    }
}

proof fn lemma_count_in_le(succ: Seq<Seq<usize>>, e: Seq<bool>, v: int, m: int)
    requires
        0 <= m <= succ.len(),
    ensures
        count_in(succ, e, v, m) <= total_edges(succ.take(m)),
    decreases m,
{
    if m > 0 {
        lemma_count_in_le(succ, e, v, m - 1);
        lemma_count_le_len(succ[m - 1], v);
        assert(succ.take(m).drop_last() =~= succ.take(m - 1));
    }
}


proof fn lemma_total_edges_take(succ: Seq<Seq<usize>>, m: int)
    requires
        0 <= m <= succ.len(),
    ensures
        total_edges(succ.take(m)) <= total_edges(succ),
    decreases succ.len(),
{
    if m == succ.len() {
        assert(succ.take(m) =~= succ);
    } else {
        lemma_total_edges_take(succ.drop_last(), m);
        assert(succ.drop_last().take(m) =~= succ.take(m));
    }
}

proof fn lemma_num_false_zero(s: Seq<bool>)
    ensures
        num_false(s) == 0 ==> forall|i: int| 0 <= i < s.len() ==> s[i],
        num_false(s) > 0 ==> exists|i: int| 0 <= i < s.len() && !s[i],
    decreases s.len(),
{
    if s.len() > 0 {
        lemma_num_false_zero(s.drop_last());
        if num_false(s) == 0 {
            assert forall|i: int| 0 <= i < s.len() implies s[i] by {
                if i < s.len() - 1 {
                    assert(s.drop_last()[i] == s[i]);
                }
            }
        }
        if num_false(s) > 0 {
            if s.last() {
                let i = choose|i: int| 0 <= i < s.drop_last().len() && !s.drop_last()[i];
                assert(!s[i]);
            } else {
                assert(!s[s.len() - 1]);
            }
        }
    }
}

/// Where every vertex not marked in `e` has an incoming edge from another
/// such vertex, none of them can take a position in a topological order.
#[verifier::rlimit(30)]
proof fn lemma_stuck_positions(g: &Graph, e: Seq<bool>, o: Seq<u64>, p: int)
    requires
        g.wf(),
        e.len() == g.labels().len(),
        g.is_topo_order(o),
        0 <= p <= o.len(),
        forall|x: int|
            0 <= x < e.len() && !e[x] ==> exists|u: int, k: int|
                0 <= u < e.len() && !e[u] && 0 <= k < g.succ()[u].len() && #[trigger] g.succ()[u][k] == x,
    ensures
        forall|x: int, i: int| 0 <= x < e.len() && !e[x] && 0 <= i < o.len() && o[i] == g.labels()[x] ==> i >= p,
    decreases p,
{
    if p > 0 {
        lemma_stuck_positions(g, e, o, p - 1);
        assert forall|x: int, i: int| 0 <= x < e.len() && !e[x] && 0 <= i < o.len() && o[i] == g.labels()[x] implies i >= p by {
            if i == p - 1 {
                let (u, k) = choose|u: int, k: int|
                    0 <= u < e.len() && !e[u] && 0 <= k < g.succ()[u].len() && #[trigger] g.succ()[u][k] == x;
                let lu = g.labels()[u];
                assert(g.has_edge(lu, g.labels()[x])) by {
                    assert(g.labels()[g.succ()[u][k] as int] == g.labels()[x]);
                }
                assert(g.labels().contains(lu)) by {
                    assert(g.labels()[u] == lu);
                }
                assert(o.contains(lu));
                let j = choose|j: int| 0 <= j < o.len() && o[j] == lu;
                assert(g.has_edge(o[j], o[i]));
                assert(j < i);
                assert(j >= p - 1);
            }
        }
    }
}

proof fn lemma_stuck_no_order(g: &Graph, e: Seq<bool>, r: int)
    requires
        g.wf(),
        e.len() == g.labels().len(),
        0 <= r < e.len(),
        !e[r],
        forall|x: int|
            0 <= x < e.len() && !e[x] ==> exists|u: int, k: int|
                0 <= u < e.len() && !e[u] && 0 <= k < g.succ()[u].len() && #[trigger] g.succ()[u][k] == x,
    ensures
        !g.has_topo_order(),
{
    if g.has_topo_order() {
        let o = choose|o: Seq<u64>| g.is_topo_order(o);
        lemma_stuck_positions(g, e, o, o.len() as int);
        assert(g.labels().contains(g.labels()[r]));
        assert(o.contains(g.labels()[r]));
    }
}

/// Orders the vertices of `graph` so that every edge goes forwards (Kahn's
/// algorithm). Returns `None` exactly when no such order exists, that is when
/// the graph has a cycle. Which of several ready vertices comes first is not
/// promised.
pub fn topological_sort(graph: &Graph) -> (r: Option<Vec<u64>>)
    requires
        graph.wf(),
    ensures
        r is Some <==> graph.has_topo_order(),
        r matches Some(order) ==> graph.is_topo_order(order@),
{
    let ghost succ = graph.succ();
    let n = graph.vertices.len();
    let ghost none = Seq::new(n as nat, |i: int| false);
    let mut incoming: Vec<usize> = vec![0; n];
    let mut u: usize = 0;
    while u < n
        invariant
            graph.wf(),
            succ == graph.succ(),
            n == succ.len(),
            none == Seq::new(n as nat, |i: int| false),
            u <= n,
            incoming@.len() == n,
            forall|v: int| 0 <= v < n ==> #[trigger] incoming@[v] == count_in(succ, none, v, u as int),
        decreases n - u,
    {
        let targets = &graph.targets[u];
        assert(targets@ == succ[u as int]);
        let mut k: usize = 0;
        while k < targets.len()
            invariant
                graph.wf(),
                succ == graph.succ(),
                n == succ.len(),
                none == Seq::new(n as nat, |i: int| false),
                u < n,
                targets@ == succ[u as int],
                k <= targets@.len(),
                incoming@.len() == n,
                forall|v: int|
                    0 <= v < n ==> #[trigger] incoming@[v] == count_in(succ, none, v, u as int) + count(
                        succ[u as int].take(k as int),
                        v,
                    ),
            decreases targets@.len() - k,
        {
            let w = targets[k];
            assert(succ[u as int][k as int] < n);
            proof {
                lemma_count_take(succ[u as int], k as int, w as int);
                lemma_count_take_le(succ[u as int], k + 1, w as int);
                lemma_count_in_le(succ, none, w as int, u + 1);
                lemma_total_edges_take(succ, u + 1);
            }
            incoming.set(w, incoming[w] + 1);
            proof {
                assert forall|v: int| 0 <= v < n implies #[trigger] incoming@[v] == count_in(succ, none, v, u as int) + count(
                    succ[u as int].take(k + 1),
                    v,
                ) by {
                    lemma_count_take(succ[u as int], k as int, v);
                }
            }
            k = k + 1;
        }
        assert(succ[u as int].take(targets@.len() as int) =~= succ[u as int]);
        u = u + 1;
    }
    let mut queue: Vec<usize> = Vec::new();
    let mut v: usize = 0;
    while v < n
        invariant
            v <= n,
            incoming@.len() == n,
            queue@.no_duplicates(),
            forall|i: int| 0 <= i < queue.len() ==> #[trigger] queue@[i] < v,
            forall|x: int| 0 <= x < n ==> (queue@.contains(x as usize) <==> x < v && #[trigger] incoming@[x] == 0),
        decreases n - v,
    {
        let ghost q0 = queue@;
        if incoming[v] == 0 {
            queue.push(v);
            proof {
                assert(queue@ == q0.push(v));
                assert forall|x: int| 0 <= x < n implies (queue@.contains(x as usize) <==> x < v + 1 && #[trigger] incoming@[x] == 0) by {
                    if x == v {
                        assert(queue@[q0.len() as int] == v);
                    } else {
                        if queue@.contains(x as usize) {
                            let i = choose|i: int| 0 <= i < queue.len() && queue@[i] == x as usize;
                            assert(q0[i] == x as usize);
                        }
                        if q0.contains(x as usize) {
                            let i = choose|i: int| 0 <= i < q0.len() && q0[i] == x as usize;
                            assert(queue@[i] == x as usize);
                        }
                    }
                }
            }
        } else {
            assert forall|x: int| 0 <= x < n implies (queue@.contains(x as usize) <==> x < v + 1 && #[trigger] incoming@[x] == 0) by {
                if x == v && queue@.contains(x as usize) {
                    let i = choose|i: int| 0 <= i < queue.len() && queue@[i] == x as usize;
                }
            }
        }
        v = v + 1;
    }
    let ghost mut emitted = none;
    proof {
        lemma_num_false_all(none);
    }
    let mut head: usize = 0;
    while head < queue.len()
        invariant
            graph.wf(),
            succ == graph.succ(),
            n == succ.len(),
            incoming@.len() == n,
            emitted.len() == n,
            head <= queue.len(),
            head + num_false(emitted) == n,
            queue@.no_duplicates(),
            forall|i: int| 0 <= i < queue.len() ==> #[trigger] queue@[i] < n,
            forall|x: int| 0 <= x < n ==> (#[trigger] emitted[x] <==> queue@.take(head as int).contains(x as usize)),
            forall|x: int| 0 <= x < n ==> #[trigger] incoming@[x] == count_in(succ, emitted, x, n as int),
            forall|x: int| 0 <= x < n ==> (queue@.contains(x as usize) <==> #[trigger] incoming@[x] == 0),
            forall|i: int, kk: int, j: int|
                #![trigger queue@[j], succ[queue@[i] as int][kk]]
                0 <= i < head && 0 <= kk < succ[queue@[i] as int].len() && 0 <= j < queue.len() && queue@[j]
                    == succ[queue@[i] as int][kk] ==> i < j,
        decreases n - head,
    {
        let u = queue[head];
        let ghost before = emitted;
        proof {
            if before[u as int] {
                let i = choose|i: int| 0 <= i < head && queue@.take(head as int)[i] == u;
                assert(queue@[i] == queue@[head as int]);
            }
            lemma_num_false_set(emitted, u as int);
            emitted = emitted.update(u as int, true);
            let h1 = head + 1;
            assert forall|x: int| 0 <= x < n implies (#[trigger] emitted[x] <==> queue@.take(h1).contains(x as usize)) by {
                if queue@.take(head as int).contains(x as usize) {
                    let i = choose|i: int| 0 <= i < head && queue@.take(head as int)[i] == x as usize;
                    assert(queue@.take(h1)[i] == x as usize);
                }
                if queue@.take(h1).contains(x as usize) {
                    let i = choose|i: int| 0 <= i < h1 && queue@.take(h1)[i] == x as usize;
                    if i < head {
                        assert(queue@.take(head as int)[i] == x as usize);
                    }
                }
                if x == u {
                    assert(queue@.take(h1)[head as int] == u);
                }
            }
        }
        head = head + 1;
        let targets = &graph.targets[u];
        assert(targets@ == succ[u as int]);
        let mut k: usize = 0;
        while k < targets.len()
            invariant
                graph.wf(),
                succ == graph.succ(),
                n == succ.len(),
                u < n,
                targets@ == succ[u as int],
                k <= targets@.len(),
                incoming@.len() == n,
                emitted.len() == n,
                before.len() == n,
                !before[u as int],
                forall|x: int| 0 <= x < n ==> (#[trigger] emitted[x] <==> queue@.take(head as int).contains(x as usize)),
                emitted == before.update(u as int, true),
                0 < head <= queue.len(),
                u == queue@[head - 1],
                queue@.no_duplicates(),
                forall|i: int| 0 <= i < queue.len() ==> #[trigger] queue@[i] < n,
                forall|x: int|
                    0 <= x < n ==> #[trigger] incoming@[x] + count(succ[u as int].take(k as int), x) == count_in(
                        succ,
                        before,
                        x,
                        n as int,
                    ),
                forall|x: int| 0 <= x < n ==> (queue@.contains(x as usize) <==> #[trigger] incoming@[x] == 0),
                forall|i: int, kk: int, j: int|
                    #![trigger queue@[j], succ[queue@[i] as int][kk]]
                    0 <= i < head && 0 <= kk < succ[queue@[i] as int].len() && (i < head - 1 || kk < k) && 0 <= j
                        < queue.len() && queue@[j] == succ[queue@[i] as int][kk] ==> i < j,
            decreases targets@.len() - k,
        {
            let w = targets[k];
            assert(succ[u as int][k as int] < n);
            proof {
                lemma_count_take(succ[u as int], k as int, w as int);
                lemma_count_take_le(succ[u as int], k + 1, w as int);
                lemma_count_in_ge(succ, before, u as int, w as int, n as int);
            }
            let ghost q0 = queue@;
            incoming.set(w, incoming[w] - 1);
            if incoming[w] == 0 {
                queue.push(w);
                proof {
                    assert(queue@ == q0.push(w));
                    assert(queue@.take(head as int) =~= q0.take(head as int));
                    assert forall|x: int| 0 <= x < n implies (queue@.contains(x as usize) <==> #[trigger] incoming@[x] == 0) by {
                        if x == w {
                            assert(queue@[q0.len() as int] == w);
                        } else {
                            if queue@.contains(x as usize) {
                                let i = choose|i: int| 0 <= i < queue.len() && queue@[i] == x as usize;
                                assert(q0[i] == x as usize);
                            }
                            if q0.contains(x as usize) {
                                let i = choose|i: int| 0 <= i < q0.len() && q0[i] == x as usize;
                                assert(queue@[i] == x as usize);
                            }
                        }
                    }
                }
            }
            proof {
                assert forall|x: int| 0 <= x < n implies #[trigger] incoming@[x] + count(succ[u as int].take(k + 1), x) == count_in(
                    succ,
                    before,
                    x,
                    n as int,
                ) by {
                    lemma_count_take(succ[u as int], k as int, x);
                }
                assert forall|i: int, kk: int, j: int|
                    #![trigger queue@[j], succ[queue@[i] as int][kk]]
                    0 <= i < head && 0 <= kk < succ[queue@[i] as int].len() && (i < head - 1 || kk < k + 1) && 0 <= j
                        < queue.len() && queue@[j] == succ[queue@[i] as int][kk] implies i < j by {
                    if j < q0.len() {
                        assert(q0[j] == queue@[j]);
                        if i == head - 1 && kk == k {
                            assert(q0.contains(w));
                        }
                    }
                }
            }
            k = k + 1;
        }
        proof {
            assert(succ[u as int].take(targets@.len() as int) =~= succ[u as int]);
            assert forall|x: int| 0 <= x < n implies #[trigger] incoming@[x] == count_in(succ, emitted, x, n as int) by {
                lemma_count_in_mark(succ, before, u as int, x, n as int);
            }
        }
    }
    proof {
        lemma_num_false_zero(emitted);
        assert(queue@.take(head as int) =~= queue@);
    }
    if queue.len() == n {
        let mut order: Vec<u64> = Vec::new();
        let mut i: usize = 0;
        while i < queue.len()
            invariant
                graph.wf(),
                i <= queue.len(),
                forall|j: int| 0 <= j < queue.len() ==> #[trigger] queue@[j] < n,
                n == graph.labels().len(),
                order@.len() == i,
                forall|j: int| 0 <= j < i ==> #[trigger] order@[j] == graph.labels()[queue@[j] as int],
            decreases queue.len() - i,
        {
            order.push(graph.vertices[queue[i]]);
            i = i + 1;
        }
        proof {
            let l = graph.labels();
            let o = order@;
            assert forall|a: int, b: int| 0 <= a < o.len() && 0 <= b < o.len() && a != b implies o[a] != o[b] by {
                assert(queue@[a] != queue@[b]);
            }
            assert forall|x: u64| o.contains(x) <==> l.contains(x) by {
                if o.contains(x) {
                    let a = choose|a: int| 0 <= a < o.len() && o[a] == x;
                    assert(l[queue@[a] as int] == x);
                }
                if l.contains(x) {
                    let y = choose|y: int| 0 <= y < l.len() && l[y] == x;
                    assert(emitted[y]);
                    let a = choose|a: int| 0 <= a < queue.len() && queue@[a] == y as usize;
                    assert(o[a] == x);
                }
            }
            assert forall|a: int, b: int| 0 <= a < o.len() && 0 <= b < o.len() && #[trigger] graph.has_edge(o[a], o[b]) implies a < b by {
                let (uu, kk) = choose|uu: int, kk: int|
                    0 <= uu < succ.len() && 0 <= kk < succ[uu].len() && l[uu] == o[a] && l[#[trigger] succ[uu][kk] as int] == o[b];
                assert(uu == queue@[a] as int);
                assert(succ[uu][kk] < n);
                assert(succ[uu][kk] == queue@[b]);
                assert(succ[queue@[a] as int][kk] == queue@[b]);
            }
        }
        assert(graph.is_topo_order(order@));
        Some(order)
    } else {
        proof {
            let r = choose|r: int| 0 <= r < emitted.len() && !emitted[r];
            assert forall|x: int|
                0 <= x < emitted.len() && !emitted[x] implies exists|uu: int, k: int|
                    0 <= uu < emitted.len() && !emitted[uu] && 0 <= k < graph.succ()[uu].len() && #[trigger] graph.succ()[uu][k] == x by {
                assert(!queue@.take(head as int).contains(x as usize));
                assert(!queue@.contains(x as usize));
                assert(incoming@[x] != 0);
                lemma_count_in_pos(succ, emitted, x, n as int);
            }
            lemma_stuck_no_order(graph, emitted, r);
        }
        None
    }
}

proof fn lemma_cycle_positions(g: &Graph, o: Seq<u64>, c: Seq<u64>, m: int, i0: int)
    requires
        g.wf(),
        g.is_topo_order(o),
        g.is_cycle(c),
        1 <= m < c.len(),
        0 <= i0 < o.len(),
        o[i0] == c[0],
    ensures
        exists|i: int| 0 <= i < o.len() && o[i] == c[m] && i0 < i,
    decreases m,
{
    let a = c[m - 1];
    let b = c[m];
    assert(g.has_edge(c[m - 1], c[(m - 1) + 1]));
    let (u, k) = choose|u: int, k: int|
        0 <= u < g.succ().len() && 0 <= k < g.succ()[u].len() && g.labels()[u] == a
            && g.labels()[#[trigger] g.succ()[u][k] as int] == b;
    assert(g.labels()[u] == a);
    assert(g.labels().contains(b)) by {
        assert(g.succ()[u][k] < g.labels().len());
    }
    assert(o.contains(b));
    let j = choose|j: int| 0 <= j < o.len() && o[j] == b;
    if m == 1 {
        assert(g.has_edge(o[i0], o[j]));
    } else {
        lemma_cycle_positions(g, o, c, m - 1, i0);
        let i = choose|i: int| 0 <= i < o.len() && o[i] == c[m - 1] && i0 < i;
        assert(g.has_edge(o[i], o[j]));
    }
}

/// A graph that has a cycle has no topological order, so `topological_sort`
/// returns `None` on it.
pub proof fn lemma_cycle_has_no_order(g: &Graph, c: Seq<u64>)
    requires
        g.wf(),
        g.is_cycle(c),
    ensures
        !g.has_topo_order(),
{
    if g.has_topo_order() {
        let o = choose|o: Seq<u64>| g.is_topo_order(o);
        assert(g.has_edge(c[0], c[0int + 1]));
        let (u, k) = choose|u: int, k: int|
            0 <= u < g.succ().len() && 0 <= k < g.succ()[u].len() && g.labels()[u] == c[0]
                && g.labels()[#[trigger] g.succ()[u][k] as int] == c[1];
        assert(g.labels().contains(c[0]));
        assert(o.contains(c[0]));
        let i0 = choose|i: int| 0 <= i < o.len() && o[i] == c[0];
        lemma_cycle_positions(g, o, c, c.len() - 1, i0);
        let i = choose|i: int| 0 <= i < o.len() && o[i] == c[c.len() - 1] && i0 < i;
        assert(o[i] == o[i0]);
    }
}

/// Any two results of `topological_sort` on one graph agree on whether an
/// order exists and, when one does, list the same vertices; they may differ
/// only in how ties between ready vertices were broken.
pub proof fn lemma_sort_results_agree(g: &Graph, a: Option<Seq<u64>>, b: Option<Seq<u64>>)
    requires
        g.wf(),
        a is Some <==> g.has_topo_order(),
        a matches Some(o) ==> g.is_topo_order(o),
        b is Some <==> g.has_topo_order(),
        b matches Some(o) ==> g.is_topo_order(o),
    ensures
        a is Some <==> b is Some,
        a matches Some(x) ==> b matches Some(y) && x.to_set() == y.to_set() && x.len() == y.len(),
{
    if let Some(x) = a {
        if let Some(y) = b {
            assert(x.to_set() =~= y.to_set());
            x.unique_seq_to_set();
            y.unique_seq_to_set();
        }
    }
}

} // verus!
