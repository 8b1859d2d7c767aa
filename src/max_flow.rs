use vstd::prelude::*;

verus! {

/// The matrix as a sequence of rows.
pub open spec fn mat(g: &Vec<Vec<i32>>) -> Seq<Seq<i32>> {
    g@.map_values(|row: Vec<i32>| row@)
}

/// Every row has `n` entries, where `n` is the number of rows.
pub open spec fn is_square(m: Seq<Seq<i32>>) -> bool {
    forall|u: int| 0 <= u < m.len() ==> (#[trigger] m[u]).len() == m.len()
}

/// Writes `x` at row `u`, column `v`.
fn set_entry(m: &mut Vec<Vec<i32>>, u: usize, v: usize, x: i32)
    requires
        u < old(m)@.len(),
        v < old(m)@[u as int]@.len(),
    ensures
        mat(final(m)) == mat(old(m)).update(u as int, mat(old(m))[u as int].update(v as int, x)),
{
    let mut row = m[u].clone();
    assert(row@ =~= m@[u as int]@);
    row.set(v, x);
    m.set(u, row);
    assert(mat(m) =~= mat(old(m)).update(u as int, mat(old(m))[u as int].update(v as int, x)));
}


/// `p` is a walk in `m` along positive entries, from `p[0]` to `p.last()`.
pub open spec fn is_path(m: Seq<Seq<i32>>, p: Seq<int>) -> bool {
    &&& p.len() >= 1
    &&& forall|i: int| 0 <= i < p.len() ==> 0 <= #[trigger] p[i] < m.len()
    &&& forall|i: int| 0 <= i < p.len() - 1 ==> #[trigger] m[p[i]][p[i + 1]] > 0
}

/// `t` can be reached from `s` along positive entries of `m`.
pub open spec fn reachable(m: Seq<Seq<i32>>, s: int, t: int) -> bool {
    exists|p: Seq<int>| is_path(m, p) && p[0] == s && p.last() == t
}

/// `p` is a path without repeated vertices from `s` to `t`, and `parent`
/// records it backwards: each vertex after the first names its predecessor.
pub open spec fn parent_path(
    m: Seq<Seq<i32>>,
    parent: Seq<Option<usize>>,
    p: Seq<int>,
    s: int,
    t: int,
) -> bool {
    &&& is_path(m, p)
    &&& p.no_duplicates()
    &&& p[0] == s
    &&& p.last() == t
    &&& forall|i: int| 1 <= i < p.len() ==> #[trigger] parent[p[i]] == Some(p[i - 1] as usize)
}

/// Number of `false` entries.
pub open spec fn num_false(s: Seq<bool>) -> nat
    decreases s.len(),
{
    if s.len() == 0 {
        0
    } else {
        num_false(s.drop_last()) + if s.last() {
            0nat
        } else {
            1nat
        }
    }
}

pub(crate) proof fn lemma_num_false_set(s: Seq<bool>, i: int)
    requires
        0 <= i < s.len(),
        !s[i],
    ensures
        num_false(s.update(i, true)) + 1 == num_false(s),
    decreases s.len(),
{
    if i < s.len() - 1 {
        lemma_num_false_set(s.drop_last(), i);
        assert(s.update(i, true).drop_last() =~= s.drop_last().update(i, true));
    } else {
        assert(s.update(i, true).drop_last() =~= s.drop_last());
    }
}

pub(crate) proof fn lemma_num_false_all(s: Seq<bool>)
    requires
        forall|i: int| 0 <= i < s.len() ==> !s[i],
    ensures
        num_false(s) == s.len(),
    decreases s.len(),
{
    if s.len() > 0 {
        lemma_num_false_all(s.drop_last());
    }
}

/// Some path from `s` to `v` along positive entries has exactly `k` edges.
pub open spec fn has_path_len(m: Seq<Seq<i32>>, s: int, v: int, k: nat) -> bool {
    exists|p: Seq<int>| is_path(m, p) && p[0] == s && p.last() == v && p.len() == k + 1
}

/// `k` is the fewest edges on a path from `s` to `v` along positive entries.
pub open spec fn is_hops(m: Seq<Seq<i32>>, s: int, v: int, k: nat) -> bool {
    &&& has_path_len(m, s, v, k)
    &&& forall|j: nat| j < k ==> !#[trigger] has_path_len(m, s, v, j)
}

/// A path from `source` to `order[i]` built from the parent links of the
/// search tree; it has one edge per level.
proof fn tree_path(
    m: Seq<Seq<i32>>,
    parent: Seq<Option<usize>>,
    order: Seq<usize>,
    lv: Seq<nat>,
    source: int,
    i: int,
) -> (p: Seq<int>)
    requires
        0 <= i < order.len(),
        order[0] == source,
        order.no_duplicates(),
        lv.len() == m.len(),
        lv[source] == 0,
        forall|k: int| 0 <= k < order.len() ==> #[trigger] order[k] < m.len(),
        forall|k: int|
            1 <= k < order.len() ==> exists|j: int|
                0 <= j < k && #[trigger] parent[order[k] as int] == Some(order[j]) && m[order[j] as int][order[k] as int] > 0
                    && lv[order[j] as int] + 1 == lv[order[k] as int],
    ensures
        parent_path(m, parent, p, source, order[i] as int),
        p.len() == lv[order[i] as int] + 1,
        forall|k: int| 0 <= k < p.len() ==> exists|j: int| 0 <= j <= i && order[j] == #[trigger] p[k],
    decreases i,
{
    if i == 0 {
        seq![source]
    } else {
        let j = choose|j: int|
            0 <= j < i && #[trigger] parent[order[i] as int] == Some(order[j]) && m[order[j] as int][order[i] as int] > 0
                && lv[order[j] as int] + 1 == lv[order[i] as int];
        let q = tree_path(m, parent, order, lv, source, j);
        let p = q.push(order[i] as int);
        assert forall|k: int| 0 <= k < q.len() implies q[k] != order[i] as int by {
            let jj = choose|jj: int| 0 <= jj <= j && order[jj] == q[k];
        }
        assert forall|k: int| 0 <= k < p.len() implies exists|jj: int| 0 <= jj <= i && order[jj] == #[trigger] p[k] by {
            if k < q.len() {
                assert(p[k] == q[k]);
            } else {
                assert(order[i] == p[k]);
            }
        }
        assert forall|k: int| 1 <= k < p.len() implies #[trigger] parent[p[k]] == Some(p[k - 1] as usize) by {
            if k < q.len() {
                assert(p[k] == q[k] && p[k - 1] == q[k - 1]);
            } else {
                assert(p[k - 1] == q.last());
            }
        }
        assert forall|k: int| 0 <= k < p.len() - 1 implies #[trigger] m[p[k]][p[k + 1]] > 0 by {
            if k < q.len() - 1 {
                assert(p[k] == q[k] && p[k + 1] == q[k + 1]);
            }
        }
        p
    }
}

/// In a set closed under positive edges, where an edge raises the level by at
/// most one, every walk from the level-0 start ends inside the set at a level
/// no higher than its number of edges.
proof fn lemma_levels_bound(m: Seq<Seq<i32>>, visited: Seq<bool>, lv: Seq<nat>, p: Seq<int>)
    requires
        is_path(m, p),
        visited.len() == m.len(),
        lv.len() == m.len(),
        visited[p[0]],
        lv[p[0]] == 0,
        forall|u: int, v: int|
            0 <= u < m.len() && 0 <= v < m.len() && visited[u] && #[trigger] m[u][v] > 0 ==> visited[v] && lv[v]
                <= lv[u] + 1,
    ensures
        visited[p.last()],
        lv[p.last()] <= p.len() - 1,
    decreases p.len(),
{
    if p.len() > 1 {
        let q = p.drop_last();
        assert(is_path(m, q));
        lemma_levels_bound(m, visited, lv, q);
        let i = p.len() - 2;
        assert(q.last() == p[i]);
        assert(m[p[i]][p[i + 1]] > 0);
    }
}

/// In the search tree that `parent` records, `a` leaves the queue before `b`,
/// both lying `k` edges from the start: vertices with one parent leave in
/// increasing order, and otherwise in the order their parents left.
pub open spec fn dequeued_before(parent: Seq<Option<usize>>, a: int, b: int, k: nat) -> bool
    decreases k,
{
    if k == 0 {
        false
    } else {
        let pa = parent[a]->Some_0 as int;
        let pb = parent[b]->Some_0 as int;
        if pa == pb {
            a < b
        } else {
            dequeued_before(parent, pa, pb, (k - 1) as nat)
        }
    }
}

/// Changing the parent of a vertex outside the tree leaves the order of the
/// tree's vertices as it was.
proof fn lemma_before_frame(
    parent: Seq<Option<usize>>,
    x: int,
    val: Option<usize>,
    lv: Seq<nat>,
    vis: Seq<bool>,
    a: int,
    b: int,
    k: nat,
)
    requires
        vis.len() == lv.len(),
        parent.len() >= vis.len(),
        0 <= x < vis.len(),
        !vis[x],
        0 <= a < vis.len(),
        0 <= b < vis.len(),
        vis[a],
        vis[b],
        lv[a] == k,
        lv[b] == k,
        forall|y: int|
            0 <= y < vis.len() && #[trigger] vis[y] && lv[y] >= 1 ==> parent[y] is Some && (parent[y]->Some_0 as int)
                < vis.len() && vis[parent[y]->Some_0 as int] && lv[parent[y]->Some_0 as int] + 1 == lv[y],
    ensures
        dequeued_before(parent.update(x, val), a, b, k) == dequeued_before(parent, a, b, k),
    decreases k,
{
    if k > 0 {
        assert(a != x && b != x);
        let pa = parent[a]->Some_0 as int;
        let pb = parent[b]->Some_0 as int;
        lemma_before_frame(parent, x, val, lv, vis, pa, pb, (k - 1) as nat);
    }
}

/// Breadth-first search from `source` along entries of `graph` that are
/// positive. Returns whether `sink` was reached. Every vertex reached other
/// than `source` gets as parent a vertex one level closer to `source`, so the
/// parent links from `sink` lead back along a shortest path; the entries of
/// the vertices not reached are left as they were. Of the vertices one level
/// closer that could serve as parent, the one taken out of the queue first is
/// chosen.
#[verifier::rlimit(80)]
pub fn bfs(graph: &Vec<Vec<i32>>, source: usize, sink: usize, parent: &mut Vec<Option<usize>>) -> (r: bool)
    requires
        is_square(mat(graph)),
        source < graph.len(),
        sink < graph.len(),
        old(parent).len() >= graph.len(),
    ensures
        final(parent).len() == old(parent).len(),
        final(parent)[source as int] == None::<usize>,
        r == reachable(mat(graph), source as int, sink as int),
        forall|v: int|
            0 <= v < graph.len() && v != source && #[trigger] reachable(mat(graph), source as int, v) ==> exists|u: int, k: nat|
                0 <= u < graph.len() && final(parent)[v] == Some(u as usize) && mat(graph)[u][v] > 0
                    && #[trigger] is_hops(mat(graph), source as int, u, k) && is_hops(mat(graph), source as int, v, k + 1),
        forall|v: int|
            0 <= v < old(parent).len() && v != source && !(v < graph.len() && reachable(mat(graph), source as int, v))
                ==> #[trigger] final(parent)[v] == old(parent)[v],
        forall|v: int, w: int, k: nat|
            0 <= v < graph.len() && 0 <= w < graph.len() && v != source && mat(graph)[w][v] > 0 && #[trigger] is_hops(
                mat(graph),
                source as int,
                w,
                k,
            ) && #[trigger] is_hops(mat(graph), source as int, v, k + 1) && final(parent)[v] != Some(w as usize)
                ==> dequeued_before(final(parent)@, final(parent)[v]->Some_0 as int, w, k),
        r ==> exists|p: Seq<int>| parent_path(mat(graph), final(parent)@, p, source as int, sink as int),
        r ==> exists|p: Seq<int>, k: nat|
            #[trigger] parent_path(mat(graph), final(parent)@, p, source as int, sink as int) && #[trigger] is_hops(
                mat(graph),
                source as int,
                sink as int,
                k,
            ) && p.len() == k + 1,
{
    let ghost m = mat(graph);
    let ghost parent0 = parent@;
    let num_vertices = graph.len();
    let mut visited = vec![false; num_vertices];
    proof {
        lemma_num_false_all(visited@);
    }
    let ghost mut lv: Seq<nat> = Seq::new(num_vertices as nat, |i: int| 0nat);
    let mut order: Vec<usize> = Vec::new();
    order.push(source);
    proof {
        lemma_num_false_set(visited@, source as int);
    }
    visited.set(source, true);
    parent.set(source, None);
    let mut head: usize = 0;
    assert(order@ == seq![source]);
    assert forall|x: int| 0 <= x < num_vertices implies (visited[x] <==> order@.contains(x as usize)) by {
        if x == source {
            assert(order@[0] == source);
        }
    }
    while head < order.len()
        invariant
            m == mat(graph),
            is_square(m),
            num_vertices == m.len(),
            source < num_vertices,
            sink < num_vertices,
            visited.len() == num_vertices,
            parent.len() == parent0.len(),
            parent0.len() >= num_vertices,
            lv.len() == num_vertices,
            lv[source as int] == 0,
            head <= order.len(),
            order.len() >= 1,
            order.len() + num_false(visited@) == num_vertices,
            order@.no_duplicates(),
            order[0] == source,
            parent[source as int] == None::<usize>,
            forall|k: int| 0 <= k < order.len() ==> #[trigger] order[k] < num_vertices,
            forall|x: int| 0 <= x < num_vertices ==> (visited[x] <==> order@.contains(x as usize)),
            forall|x: int|
                0 <= x < parent0.len() && x != source && (x >= num_vertices || !visited[x]) ==> #[trigger] parent@[x]
                    == parent0[x],
            forall|k: int|
                1 <= k < order.len() ==> exists|j: int|
                    0 <= j < k && #[trigger] parent@[order[k] as int] == Some(order[j]) && m[order[j] as int][order[k] as int] > 0
                        && lv[order[j] as int] + 1 == lv[order[k] as int],
            forall|i: int, j: int| 0 <= i < j < order.len() ==> lv[#[trigger] order[i] as int] <= lv[#[trigger] order[j] as int],
            head < order.len() ==> forall|j: int| 0 <= j < order.len() ==> lv[#[trigger] order[j] as int] <= lv[order[head as int] as int] + 1,
            forall|i: int, j: int|
                1 <= i < order.len() && head <= j < order.len() ==> #[trigger] parent@[order[i] as int] != Some(#[trigger] order[j]),
            forall|i: int, j: int, kk: int|
                #![trigger parent@[order[i] as int], order[j], m[order[kk] as int][order[i] as int]]
                1 <= i < order.len() && 0 <= kk < j < order.len() && parent@[order[i] as int] == Some(order[j]) ==> m[order[kk] as int][order[i] as int] <= 0,
            forall|i: int, j: int|
                0 <= i < j < order.len() && lv[#[trigger] order[i] as int] == lv[#[trigger] order[j] as int] ==> dequeued_before(
                    parent@,
                    order[i] as int,
                    order[j] as int,
                    lv[order[i] as int],
                ),
            forall|k: int, v: int|
                0 <= k < head && 0 <= v < num_vertices && #[trigger] m[order[k] as int][v] > 0 ==> visited[v] && lv[v]
                    <= lv[order[k] as int] + 1,
        decreases num_false(visited@), order.len() - head,
    {
        let u = order[head];
        let ghost lu = lv[u as int];
        assert(m[u as int].len() == num_vertices);
        let mut v: usize = 0;
        let ghost false_before = num_false(visited@);
        let ghost len_before = order.len();
        while v < num_vertices
            invariant
                m == mat(graph),
                is_square(m),
                num_vertices == m.len(),
                source < num_vertices,
                visited.len() == num_vertices,
                parent.len() == parent0.len(),
                parent0.len() >= num_vertices,
                lv.len() == num_vertices,
                lv[source as int] == 0,
                head < len_before <= order.len(),
                u == order[head as int],
                lu == lv[u as int],
                graph@[u as int]@.len() == num_vertices,
                v <= num_vertices,
                order.len() + num_false(visited@) == num_vertices,
                num_false(visited@) + order.len() == false_before + len_before,
                order@.no_duplicates(),
                order[0] == source,
                parent[source as int] == None::<usize>,
                forall|k: int| 0 <= k < order.len() ==> #[trigger] order[k] < num_vertices,
                forall|x: int| 0 <= x < num_vertices ==> (visited[x] <==> order@.contains(x as usize)),
                forall|x: int|
                    0 <= x < parent0.len() && x != source && (x >= num_vertices || !visited[x]) ==> #[trigger] parent@[x]
                        == parent0[x],
                forall|k: int|
                    1 <= k < order.len() ==> exists|j: int|
                        0 <= j < k && #[trigger] parent@[order[k] as int] == Some(order[j]) && m[order[j] as int][order[k] as int] > 0
                            && lv[order[j] as int] + 1 == lv[order[k] as int],
                forall|i: int, j: int| 0 <= i < j < order.len() ==> lv[#[trigger] order[i] as int] <= lv[#[trigger] order[j] as int],
                forall|j: int| 0 <= j < order.len() ==> lv[#[trigger] order[j] as int] <= lu + 1,
                forall|i: int, j: int|
                    1 <= i < order.len() && head < j < order.len() ==> #[trigger] parent@[order[i] as int] != Some(#[trigger] order[j]),
                forall|i: int| 1 <= i < order.len() && #[trigger] parent@[order[i] as int] == Some(u) ==> order[i] < v,
                forall|i: int, j: int, kk: int|
                    #![trigger parent@[order[i] as int], order[j], m[order[kk] as int][order[i] as int]]
                    1 <= i < order.len() && 0 <= kk < j < order.len() && parent@[order[i] as int] == Some(order[j]) ==> m[order[kk] as int][order[i] as int] <= 0,
                forall|i: int, j: int|
                    0 <= i < j < order.len() && lv[#[trigger] order[i] as int] == lv[#[trigger] order[j] as int] ==> dequeued_before(
                        parent@,
                        order[i] as int,
                        order[j] as int,
                        lv[order[i] as int],
                    ),
                forall|k: int, w: int|
                    0 <= k < head && 0 <= w < num_vertices && #[trigger] m[order[k] as int][w] > 0 ==> visited[w] && lv[w]
                        <= lv[order[k] as int] + 1,
                forall|w: int| 0 <= w < v && #[trigger] m[u as int][w] > 0 ==> visited[w] && lv[w] <= lu + 1,
            decreases num_vertices - v,
        {
            if !visited[v] && graph[u][v] > 0 {
                proof {
                    lemma_num_false_set(visited@, v as int);
                }
                let ghost old_order = order@;
                let ghost old_parent = parent@;
                let ghost old_lv = lv;
                proof {
                    assert forall|j: int| 0 <= j < old_order.len() implies #[trigger] old_order[j] != v by {
                        if old_order[j] == v {
                            assert(old_order.contains(v));
                        }
                    }
                    lv = lv.update(v as int, lu + 1);
                }
                visited.set(v, true);
                parent.set(v, Some(u));
                order.push(v);
                proof {
                    assert(order@ == old_order.push(v));
                    assert forall|j: int| 0 <= j < old_order.len() implies lv[#[trigger] order@[j] as int] == old_lv[order@[j] as int] by {
                        assert(order@[j] == old_order[j]);
                    }
                    assert forall|k: int|
                        1 <= k < order.len() implies exists|j: int|
                            0 <= j < k && #[trigger] parent@[order[k] as int] == Some(order[j]) && m[order[j] as int][order[k] as int] > 0
                                && lv[order[j] as int] + 1 == lv[order[k] as int] by {
                        if k < old_order.len() {
                            let j = choose|j: int|
                                0 <= j < k && #[trigger] old_parent[old_order[k] as int] == Some(old_order[j]) && m[old_order[j] as int][old_order[k] as int] > 0
                                    && old_lv[old_order[j] as int] + 1 == old_lv[old_order[k] as int];
                            assert(old_order[k] != v);
                            assert(parent@[order[k] as int] == Some(order[j]));
                            assert(lv[order[j] as int] == old_lv[order[j] as int]);
                        } else {
                            assert(parent@[order[k] as int] == Some(order[head as int]));
                            assert(lv[order[head as int] as int] == old_lv[order[head as int] as int]);
                        }
                    }
                    assert forall|i: int, j: int| 0 <= i < j < order.len() implies lv[#[trigger] order@[i] as int] <= lv[#[trigger] order@[j] as int] by {
                        assert(order@[i] == old_order[i]);
                        if j < old_order.len() {
                            assert(order@[j] == old_order[j]);
                        } else {
                            assert(old_lv[old_order[i] as int] <= lu + 1);
                        }
                    }
                    assert forall|j: int| 0 <= j < order.len() implies lv[#[trigger] order@[j] as int] <= lu + 1 by {
                        if j < old_order.len() {
                            assert(order@[j] == old_order[j]);
                        }
                    }
                    assert forall|x: int| 0 <= x < num_vertices implies (visited[x] <==> order@.contains(x as usize)) by {
                        if x == v {
                            assert(order@[order.len() - 1] == v);
                        } else {
                            if order@.contains(x as usize) {
                                let k = choose|k: int| 0 <= k < order.len() && order@[k] == x as usize;
                                assert(k < old_order.len());
                                assert(old_order.contains(x as usize));
                            }
                            if old_order.contains(x as usize) {
                                let k = choose|k: int| 0 <= k < old_order.len() && old_order[k] == x as usize;
                                assert(order@[k] == x as usize);
                            }
                        }
                    }
                    assert forall|k: int, w: int|
                        0 <= k < head && 0 <= w < num_vertices && #[trigger] m[order[k] as int][w] > 0 implies visited[w] && lv[w]
                            <= lv[order[k] as int] + 1 by {
                        assert(order@[k] == old_order[k]);
                        assert(old_lv[w] <= old_lv[old_order[k] as int] + 1);
                    }
                    let ov = Seq::new(num_vertices as nat, |x: int| old_order.contains(x as usize));
                    assert forall|y: int|
                        0 <= y < ov.len() && #[trigger] ov[y] && old_lv[y] >= 1 implies old_parent[y] is Some && (old_parent[y]->Some_0 as int)
                            < ov.len() && ov[old_parent[y]->Some_0 as int] && old_lv[old_parent[y]->Some_0 as int] + 1 == old_lv[y] by {
                        let kk = choose|kk: int| 0 <= kk < old_order.len() && old_order[kk] == y as usize;
                        if kk == 0 {
                            assert(y == source);
                        } else {
                            let j = choose|j: int|
                                0 <= j < kk && #[trigger] old_parent[old_order[kk] as int] == Some(old_order[j]) && m[old_order[j] as int][old_order[kk] as int] > 0
                                    && old_lv[old_order[j] as int] + 1 == old_lv[old_order[kk] as int];
                            assert(old_order.contains(old_order[j]));
                        }
                    }
                    assert(!ov[v as int]);
                    assert forall|i: int, j: int|
                        0 <= i < j < order.len() && lv[#[trigger] order@[i] as int] == lv[#[trigger] order@[j] as int] implies dequeued_before(
                            parent@,
                            order@[i] as int,
                            order@[j] as int,
                            lv[order@[i] as int],
                        ) by {
                        let oi = old_order[i] as int;
                        assert(order@[i] == old_order[i]);
                        assert(old_order.contains(old_order[i]));
                        if j < old_order.len() {
                            assert(order@[j] == old_order[j]);
                            assert(old_order.contains(old_order[j]));
                            lemma_before_frame(old_parent, v as int, Some(u), old_lv, ov, oi, old_order[j] as int, old_lv[oi]);
                        } else {
                            assert(lv[oi] == lu + 1);
                            assert(i != 0);
                            let ji = choose|ji: int|
                                0 <= ji < i && #[trigger] old_parent[old_order[i] as int] == Some(old_order[ji]) && m[old_order[ji] as int][old_order[i] as int] > 0
                                    && old_lv[old_order[ji] as int] + 1 == old_lv[old_order[i] as int];
                            assert(parent@[oi] == Some(old_order[ji]));
                            assert(parent@[v as int] == Some(u));
                            if old_order[ji] == u {
                                assert(old_order[i] < v);
                            } else {
                                assert(ji != head);
                                assert(ji < head);
                                assert(old_lv[old_order[ji] as int] == lu);
                                assert(old_order.contains(old_order[ji]));
                                assert(old_order.contains(u));
                                lemma_before_frame(old_parent, v as int, Some(u), old_lv, ov, old_order[ji] as int, u as int, lu);
                            }
                        }
                    }
                    assert forall|i: int, j: int, kk: int|
                        #![trigger parent@[order[i] as int], order[j], m[order[kk] as int][order[i] as int]]
                        1 <= i < order.len() && 0 <= kk < j < order.len() && parent@[order[i] as int] == Some(order[j]) implies m[order[kk] as int][order[i] as int] <= 0 by {
                        if i < old_order.len() {
                            assert(order@[i] == old_order[i]);
                            assert(old_parent[old_order[i] as int] != Some(v));
                            assert(j < old_order.len());
                            assert(order@[j] == old_order[j]);
                            assert(order@[kk] == old_order[kk]);
                        } else {
                            assert(order@[j] == u);
                            assert(j == head);
                            assert(order@[kk] == old_order[kk]);
                        }
                    }
                    assert forall|i: int, j: int|
                        1 <= i < order.len() && head < j < order.len() implies #[trigger] parent@[order[i] as int] != Some(#[trigger] order[j]) by {
                        if i < old_order.len() {
                            assert(order@[i] == old_order[i]);
                            if j < old_order.len() {
                                assert(order@[j] == old_order[j]);
                            }
                        }
                    }
                }
            }
            v = v + 1;
        }
        assert(forall|k: int|
                1 <= k < order.len() ==> exists|j: int|
                    0 <= j < k && #[trigger] parent@[order[k] as int] == Some(order[j]) && m[order[j] as int][order[k] as int] > 0
                        && lv[order[j] as int] + 1 == lv[order[k] as int]);
        proof {
            if head + 1 < order.len() {
                assert(lv[order[head as int] as int] <= lv[order[head + 1] as int]);
            }
        }
        head = head + 1;
    }
    proof {
        assert forall|u: int, v: int|
            0 <= u < m.len() && 0 <= v < m.len() && visited[u] && #[trigger] m[u][v] > 0 implies visited[v] && lv[v]
                <= lv[u] + 1 by {
            let k = choose|k: int| 0 <= k < order.len() && order@[k] == u as usize;
            assert(m[order[k] as int][v] > 0);
        }
        assert(order@[0] == source);
        assert forall|x: int| 0 <= x < num_vertices implies (#[trigger] reachable(m, source as int, x) <==> visited[x]) by {
            if visited[x] {
                let k = choose|k: int| 0 <= k < order.len() && order@[k] == x as usize;
                let p = tree_path(m, parent@, order@, lv, source as int, k);
            }
            if reachable(m, source as int, x) {
                let p = choose|p: Seq<int>| is_path(m, p) && p[0] == source as int && p.last() == x;
                lemma_levels_bound(m, visited@, lv, p);
            }
        }
        assert forall|x: int| 0 <= x < num_vertices && visited[x] implies #[trigger] is_hops(m, source as int, x, lv[x]) by {
            let k = choose|k: int| 0 <= k < order.len() && order@[k] == x as usize;
            let p = tree_path(m, parent@, order@, lv, source as int, k);
            assert(has_path_len(m, source as int, x, lv[x]));
            assert forall|j: nat| j < lv[x] implies !#[trigger] has_path_len(m, source as int, x, j) by {
                if has_path_len(m, source as int, x, j) {
                    let q = choose|q: Seq<int>| is_path(m, q) && q[0] == source as int && q.last() == x && q.len() == j + 1;
                    lemma_levels_bound(m, visited@, lv, q);
                }
            }
        }
        assert forall|v: int|
            0 <= v < num_vertices && v != source && #[trigger] reachable(m, source as int, v) implies exists|u: int, k: nat|
                0 <= u < num_vertices && parent@[v] == Some(u as usize) && m[u][v] > 0
                    && #[trigger] is_hops(m, source as int, u, k) && is_hops(m, source as int, v, k + 1) by {
            let kk = choose|kk: int| 0 <= kk < order.len() && order@[kk] == v as usize;
            assert(kk != 0);
            let j = choose|j: int|
                0 <= j < kk && #[trigger] parent@[order[kk] as int] == Some(order[j]) && m[order[j] as int][order[kk] as int] > 0
                    && lv[order[j] as int] + 1 == lv[order[kk] as int];
            let u = order@[j] as int;
            assert(visited[u]);
            assert(is_hops(m, source as int, u, lv[u]));
            assert(is_hops(m, source as int, v, lv[v]));
        }
        assert forall|v: int, w: int, k: nat|
            0 <= v < num_vertices && 0 <= w < num_vertices && v != source && m[w][v] > 0 && #[trigger] is_hops(
                m,
                source as int,
                w,
                k,
            ) && #[trigger] is_hops(m, source as int, v, k + 1) && parent@[v] != Some(w as usize)
                implies dequeued_before(parent@, parent@[v]->Some_0 as int, w, k) by {
            let pw = choose|p: Seq<int>| is_path(m, p) && p[0] == source as int && p.last() == w && p.len() == k + 1;
            assert(reachable(m, source as int, w));
            let pv = choose|p: Seq<int>| is_path(m, p) && p[0] == source as int && p.last() == v && p.len() == k + 2;
            assert(reachable(m, source as int, v));
            assert(visited[w] && visited[v]);
            assert(is_hops(m, source as int, w, lv[w]));
            assert(is_hops(m, source as int, v, lv[v]));
            if lv[w] < k {
                assert(has_path_len(m, source as int, w, lv[w]));
            }
            if lv[w] > k {
                assert(has_path_len(m, source as int, w, k));
            }
            if lv[v] < k + 1 {
                assert(has_path_len(m, source as int, v, lv[v]));
            }
            if lv[v] > k + 1 {
                assert(has_path_len(m, source as int, v, k + 1));
            }
            assert(lv[w] == k && lv[v] == k + 1);
            let iv = choose|iv: int| 0 <= iv < order.len() && order@[iv] == v as usize;
            let iw = choose|iw: int| 0 <= iw < order.len() && order@[iw] == w as usize;
            assert(iv != 0);
            let ip = choose|j: int|
                0 <= j < iv && #[trigger] parent@[order[iv] as int] == Some(order[j]) && m[order[j] as int][order[iv] as int] > 0
                    && lv[order[j] as int] + 1 == lv[order[iv] as int];
            assert(iw != ip);
            if iw < ip {
                assert(m[order[iw] as int][order[iv] as int] <= 0);
            }
            assert(lv[order@[ip] as int] == lv[order@[iw] as int]);
            assert(dequeued_before(parent@, order@[ip] as int, order@[iw] as int, lv[order@[ip] as int]));
        }
        if visited[sink as int] {
            let k = choose|k: int| 0 <= k < order.len() && order@[k] == sink;
            let p = tree_path(m, parent@, order@, lv, source as int, k);
            assert(parent_path(m, parent@, p, source as int, sink as int));
            assert(is_hops(m, source as int, sink as int, lv[sink as int]));
        }
    }
    visited[sink]
}

/// Sum of a row.
pub open spec fn row_sum(row: Seq<i32>) -> int
    decreases row.len(),
{
    if row.len() == 0 {
        0
    } else {
        row_sum(row.drop_last()) + row.last()
    }
}

/// All entries of `m` are at least zero.
pub open spec fn non_negative(m: Seq<Seq<i32>>) -> bool {
    forall|u: int, v: int| 0 <= u < m.len() && 0 <= v < m.len() ==> #[trigger] m[u][v] >= 0
}

/// Capacities that a residual matrix can hold in `i32`: each pair of opposite
/// entries sums to at most `i32::MAX`.
pub open spec fn pairs_fit(m: Seq<Seq<i32>>) -> bool {
    forall|u: int, v: int| 0 <= u < m.len() && 0 <= v < m.len() ==> #[trigger] m[u][v] + m[v][u] <= i32::MAX
}

/// `r` is a residual matrix of capacities `c` after sending `value` units of
/// flow from `s` to `t`: the net flow on `u -> v` is `c[u][v] - r[u][v]`.
/// No entry is negative, what leaves `u -> v` comes back on `v -> u`, and
/// every vertex but `s` and `t` passes on all that it receives.
pub open spec fn residual_of(c: Seq<Seq<i32>>, r: Seq<Seq<i32>>, s: int, t: int, value: int) -> bool {
    &&& r.len() == c.len()
    &&& is_square(r)
    &&& non_negative(r)
    &&& forall|u: int, v: int|
        0 <= u < c.len() && 0 <= v < c.len() ==> #[trigger] r[u][v] + r[v][u] == c[u][v] + c[v][u]
    &&& forall|x: int| 0 <= x < c.len() && x != s && x != t ==> #[trigger] row_sum(r[x]) == row_sum(c[x])
    &&& value == row_sum(c[s]) - row_sum(r[s])
}

/// Sends `b` units along `u -> v` in residual matrix `r`.
pub open spec fn push_flow(r: Seq<Seq<i32>>, u: int, v: int, b: i32) -> Seq<Seq<i32>> {
    let r1 = r.update(u, r[u].update(v, (r[u][v] - b) as i32));
    r1.update(v, r1[v].update(u, (r1[v][u] + b) as i32))
}

/// Sends `b` units along the edges of `p` from position `k` to its end.
pub open spec fn augmented(r: Seq<Seq<i32>>, p: Seq<int>, b: i32, k: int) -> Seq<Seq<i32>>
    decreases p.len() - k,
{
    if k < 0 || k + 1 >= p.len() {
        r
    } else {
        push_flow(augmented(r, p, b, k + 1), p[k], p[k + 1], b)
    }
}

proof fn lemma_row_sum_update(row: Seq<i32>, j: int, x: i32)
    requires
        0 <= j < row.len(),
    ensures
        row_sum(row.update(j, x)) == row_sum(row) - row[j] + x,
    decreases row.len(),
{
    if j < row.len() - 1 {
        lemma_row_sum_update(row.drop_last(), j, x);
        assert(row.update(j, x).drop_last() =~= row.drop_last().update(j, x));
    } else {
        assert(row.update(j, x).drop_last() =~= row.drop_last());
    }
}

proof fn lemma_row_sum_non_negative(row: Seq<i32>)
    requires
        forall|j: int| 0 <= j < row.len() ==> row[j] >= 0,
    ensures
        row_sum(row) >= 0,
    decreases row.len(),
{
    if row.len() > 0 {
        lemma_row_sum_non_negative(row.drop_last());
    }
}

/// What sending flow along the tail of a path does to the residual matrix.
proof fn lemma_augmented(r: Seq<Seq<i32>>, p: Seq<int>, b: i32, k: int)
    requires
        is_square(r),
        non_negative(r),
        pairs_fit(r),
        is_path(r, p),
        p.no_duplicates(),
        b > 0,
        forall|j: int| 0 <= j < p.len() - 1 ==> b <= #[trigger] r[p[j]][p[j + 1]],
        0 <= k < p.len(),
    ensures
        ({
            let a = augmented(r, p, b, k);
            &&& a.len() == r.len()
            &&& is_square(a)
            &&& non_negative(a)
            &&& forall|u: int, v: int|
                0 <= u < r.len() && 0 <= v < r.len() ==> #[trigger] a[u][v] + a[v][u] == r[u][v] + r[v][u]
            &&& forall|j: int| 0 <= j < k ==> #[trigger] a[p[j]][p[j + 1]] == r[p[j]][p[j + 1]]
            &&& forall|x: int|
                0 <= x < r.len() ==> #[trigger] row_sum(a[x]) == row_sum(r[x]) - (if x == p[k] {
                    b as int
                } else {
                    0
                }) + (if x == p.last() {
                    b as int
                } else {
                    0
                })
        }),
    decreases p.len() - k,
{
    if k + 1 < p.len() {
        lemma_augmented(r, p, b, k + 1);
        let a0 = augmented(r, p, b, k + 1);
        let u = p[k];
        let v = p[k + 1];
        assert(a0[u][v] == r[u][v]);
        assert(r[u][v] >= b);
        assert(u != v);
        let r1 = a0.update(u, a0[u].update(v, (a0[u][v] - b) as i32));
        let a = r1.update(v, r1[v].update(u, (r1[v][u] + b) as i32));
        assert(a == augmented(r, p, b, k));
        assert(a0[v][u] + a0[u][v] == r[u][v] + r[v][u]);
        assert(r[u][v] + r[v][u] <= i32::MAX);
        assert forall|j: int| 0 <= j < k implies #[trigger] a[p[j]][p[j + 1]] == r[p[j]][p[j + 1]] by {
            assert(p[j] != u);
            assert(p[j] != v);
            assert(a0[p[j]][p[j + 1]] == r[p[j]][p[j + 1]]);
        }
        assert forall|x: int| 0 <= x < r.len() implies #[trigger] row_sum(a[x]) == row_sum(r[x]) - (if x == p[k] {
            b as int
        } else {
            0
        }) + (if x == p.last() {
            b as int
        } else {
            0
        }) by {
            lemma_row_sum_update(a0[u], v, (a0[u][v] - b) as i32);
            lemma_row_sum_update(r1[v], u, (r1[v][u] + b) as i32);
        }
        assert forall|x: int, y: int| 0 <= x < r.len() && 0 <= y < r.len() implies #[trigger] a[x][y] >= 0 by {
            assert(a0[x][y] >= 0);
        }
        assert forall|x: int, y: int| 0 <= x < r.len() && 0 <= y < r.len() implies #[trigger] a[x][y] + a[y][x] == r[x][y] + r[y][x] by {
            assert(a0[x][y] + a0[y][x] == r[x][y] + r[y][x]);
        }
    }
}


/// Sends along the path that `parent` records from `sink` back to `source`
/// as much as its smallest residual entry allows: each forward entry loses
/// that amount and each reverse entry gains it. No entry goes below zero,
/// each pair of opposite entries keeps its sum, and only the rows of `source`
/// and `sink` change their sums, by the amount sent.
pub fn augment(residual: &mut Vec<Vec<i32>>, parent: &Vec<Option<usize>>, source: usize, sink: usize) -> (pushed: i32)
    requires
        is_square(mat(old(residual))),
        source < old(residual).len(),
        sink < old(residual).len(),
        source != sink,
        non_negative(mat(old(residual))),
        pairs_fit(mat(old(residual))),
        parent.len() >= old(residual).len(),
        exists|p: Seq<int>| parent_path(mat(old(residual)), parent@, p, source as int, sink as int),
    ensures
        pushed > 0,
        ({
            let r0 = mat(old(residual));
            let a = mat(final(residual));
            &&& a.len() == r0.len()
            &&& is_square(a)
            &&& non_negative(a)
            &&& forall|u: int, v: int|
                0 <= u < r0.len() && 0 <= v < r0.len() ==> #[trigger] a[u][v] + a[v][u] == r0[u][v] + r0[v][u]
            &&& forall|x: int| 0 <= x < r0.len() && x != source && x != sink ==> #[trigger] row_sum(a[x]) == row_sum(r0[x])
            &&& row_sum(a[source as int]) == row_sum(r0[source as int]) - pushed
            &&& row_sum(a[sink as int]) == row_sum(r0[sink as int]) + pushed
            &&& exists|p: Seq<int>|
                #[trigger] parent_path(r0, parent@, p, source as int, sink as int) && a == augmented(r0, p, pushed, 0) && (forall|j: int|
                    0 <= j < p.len() - 1 ==> pushed <= #[trigger] r0[p[j]][p[j + 1]]) && (exists|j: int|
                    0 <= j < p.len() - 1 && pushed == #[trigger] r0[p[j]][p[j + 1]])
        }),
{
    let ghost r0 = mat(residual);
    let ghost p = choose|p: Seq<int>| parent_path(r0, parent@, p, source as int, sink as int);
    let mut path_flow: i32 = i32::MAX;
    let mut v: usize = sink;
    let ghost mut k: int = p.len() - 1;
    while v != source
        invariant
            r0 == mat(residual),
            is_square(r0),
            parent_path(r0, parent@, p, source as int, sink as int),
            0 <= k < p.len(),
            v == p[k],
            v < r0.len(),
            parent.len() >= r0.len(),
            path_flow > 0,
            forall|j: int| k <= j < p.len() - 1 ==> path_flow <= #[trigger] r0[p[j]][p[j + 1]],
            k == p.len() - 1 ==> path_flow == i32::MAX,
            k == p.len() - 1 || exists|j: int| k <= j < p.len() - 1 && path_flow == #[trigger] r0[p[j]][p[j + 1]],
        decreases k,
    {
        assert(k > 0);
        assert(parent@[p[k]] == Some(p[k - 1] as usize));
        let u = parent[v].unwrap();
        assert(r0[p[k - 1]][p[(k - 1) + 1]] > 0);
        assert(r0[u as int].len() == r0.len());
        let cap = residual[u][v];
        if cap < path_flow {
            path_flow = cap;
        }
        assert(path_flow == r0[p[k - 1]][p[(k - 1) + 1]] || exists|j: int| k <= j < p.len() - 1 && path_flow == #[trigger] r0[p[j]][p[j + 1]]);
        v = u;
        proof {
            k = k - 1;
        }
    }
    proof {
        if k != 0 {
            assert(p[k] == p[0]);
        }
    }
    let ghost b = path_flow;
    proof {
        lemma_augmented(r0, p, b, p.len() - 1);
    }
    v = sink;
    proof {
        k = p.len() - 1;
    }
    while v != source
        invariant
            is_square(r0),
            non_negative(r0),
            pairs_fit(r0),
            parent_path(r0, parent@, p, source as int, sink as int),
            b == path_flow,
            b > 0,
            forall|j: int| 0 <= j < p.len() - 1 ==> b <= #[trigger] r0[p[j]][p[j + 1]],
            0 <= k < p.len(),
            v == p[k],
            parent.len() >= r0.len(),
            mat(residual) == augmented(r0, p, b, k),
        decreases k,
    {
        assert(k > 0);
        assert(parent@[p[k]] == Some(p[k - 1] as usize));
        let u = parent[v].unwrap();
        proof {
            lemma_augmented(r0, p, b, k);
            lemma_augmented(r0, p, b, k - 1);
        }
        let ghost a = mat(residual);
        assert(a[u as int][v as int] == r0[p[k - 1]][p[k]]);
        assert(a[u as int].len() == r0.len());
        assert(a[v as int].len() == r0.len());
        let forward = residual[u][v] - path_flow;
        set_entry(residual, u, v, forward);
        assert(a[v as int][u as int] + a[u as int][v as int] == r0[u as int][v as int] + r0[v as int][u as int]);
        let backward = residual[v][u] + path_flow;
        set_entry(residual, v, u, backward);
        v = u;
        proof {
            k = k - 1;
        }
    }
    proof {
        if k != 0 {
            assert(p[k] == p[0]);
        }
        lemma_augmented(r0, p, b, 0);
    }
    path_flow
}

/// Maximum flow from `source` to `sink` in the network whose capacities are
/// `graph[u][v]`, by repeated breadth-first augmenting paths. The caller's
/// matrix is left as it is; the search runs on a copy of it. The result comes
/// with a residual matrix in which `sink` cannot be reached from `source`,
/// which is what makes the flow maximum.
pub fn edmonds_karp(graph: &Vec<Vec<i32>>, source: usize, sink: usize) -> (max_flow: i32)
    requires
        is_square(mat(graph)),
        source < graph.len(),
        sink < graph.len(),
        source != sink,
        non_negative(mat(graph)),
        pairs_fit(mat(graph)),
        row_sum(mat(graph)[source as int]) <= i32::MAX,
    ensures
        max_flow >= 0,
        exists|r: Seq<Seq<i32>>|
            residual_of(mat(graph), r, source as int, sink as int, max_flow as int)
                && !reachable(r, source as int, sink as int),
{
    let ghost c = mat(graph);
    let num_vertices = graph.len();
    let mut residual_graph: Vec<Vec<i32>> = Vec::new();
    let mut i: usize = 0;
    while i < num_vertices
        invariant
            c == mat(graph),
            num_vertices == c.len(),
            i <= num_vertices,
            residual_graph@.len() == i,
            forall|k: int| 0 <= k < i ==> #[trigger] residual_graph@[k]@ == c[k],
        decreases num_vertices - i,
    {
        let row = graph[i].clone();
        assert(row@ =~= c[i as int]);
        residual_graph.push(row);
        i = i + 1;
    }
    assert(mat(&residual_graph) =~= c);
    let mut parent: Vec<Option<usize>> = vec![None; num_vertices];
    let mut max_flow: i32 = 0;
    let mut found = bfs(&residual_graph, source, sink, &mut parent);
    while found
        invariant
            c == mat(graph),
            num_vertices == c.len(),
            is_square(c),
            non_negative(c),
            pairs_fit(c),
            row_sum(c[source as int]) <= i32::MAX,
            source < num_vertices,
            sink < num_vertices,
            source != sink,
            parent.len() == num_vertices,
            residual_of(c, mat(&residual_graph), source as int, sink as int, max_flow as int),
            max_flow >= 0,
            found == reachable(mat(&residual_graph), source as int, sink as int),
            found ==> exists|p: Seq<int>| parent_path(mat(&residual_graph), parent@, p, source as int, sink as int),
        decreases row_sum(c[source as int]) - max_flow,
    {
        let ghost r0 = mat(&residual_graph);
        assert(pairs_fit(r0)) by {
            assert forall|u: int, v: int| 0 <= u < r0.len() && 0 <= v < r0.len() implies #[trigger] r0[u][v] + r0[v][u] <= i32::MAX by {
                assert(c[u][v] + c[v][u] <= i32::MAX);
            }
        }
        let path_flow = augment(&mut residual_graph, &parent, source, sink);
        proof {
            let a = mat(&residual_graph);
            lemma_row_sum_non_negative(a[source as int]);
            assert forall|u: int, w: int| 0 <= u < c.len() && 0 <= w < c.len() implies #[trigger] a[u][w] + a[w][u] == c[u][w] + c[w][u] by {
                assert(r0[u][w] + r0[w][u] == c[u][w] + c[w][u]);
            }
            assert forall|x: int| 0 <= x < c.len() && x != source && x != sink implies #[trigger] row_sum(a[x]) == row_sum(c[x]) by {
                assert(row_sum(r0[x]) == row_sum(c[x]));
            }
        }
        max_flow = max_flow + path_flow;
        found = bfs(&residual_graph, source, sink, &mut parent);
    }
    max_flow
}

/// `f(0) + ... + f(n - 1)`.
pub open spec fn sum_to(n: int, f: spec_fn(int) -> int) -> int
    decreases n,
{
    if n <= 0 {
        0
    } else {
        sum_to(n - 1, f) + f(n - 1)
    }
}

/// `cut` marks a set of vertices that holds `s` and not `t`.
pub open spec fn is_cut(n: int, cut: Seq<bool>, s: int, t: int) -> bool {
    cut.len() == n && cut[s] && !cut[t]
}

/// Total capacity of the edges that leave the marked set.
pub open spec fn cut_capacity(c: Seq<Seq<i32>>, cut: Seq<bool>) -> int {
    sum_to(
        c.len() as int,
        |x: int|
            if cut[x] {
                sum_to(c.len() as int, |y: int| if !cut[y] { c[x][y] as int } else { 0 })
            } else {
                0
            },
    )
}

/// Net flow, by residual `r`, on the edges that leave the marked set.
pub open spec fn cut_flow(c: Seq<Seq<i32>>, r: Seq<Seq<i32>>, cut: Seq<bool>) -> int {
    sum_to(
        c.len() as int,
        |x: int|
            if cut[x] {
                sum_to(c.len() as int, |y: int| if !cut[y] { c[x][y] - r[x][y] } else { 0 })
            } else {
                0
            },
    )
}

proof fn lemma_sum_ext(n: int, f: spec_fn(int) -> int, g: spec_fn(int) -> int)
    requires
        forall|i: int| 0 <= i < n ==> #[trigger] f(i) == g(i),
    ensures
        sum_to(n, f) == sum_to(n, g),
    decreases n,
{
    if n > 0 {
        lemma_sum_ext(n - 1, f, g);
    }
}

proof fn lemma_sum_le(n: int, f: spec_fn(int) -> int, g: spec_fn(int) -> int)
    requires
        forall|i: int| 0 <= i < n ==> #[trigger] f(i) <= g(i),
    ensures
        sum_to(n, f) <= sum_to(n, g),
    decreases n,
{
    if n > 0 {
        lemma_sum_le(n - 1, f, g);
    }
}

proof fn lemma_sum_add(n: int, f: spec_fn(int) -> int, g: spec_fn(int) -> int, h: spec_fn(int) -> int)
    requires
        forall|i: int| 0 <= i < n ==> #[trigger] h(i) == f(i) + g(i),
    ensures
        sum_to(n, h) == sum_to(n, f) + sum_to(n, g),
    decreases n,
{
    if n > 0 {
        lemma_sum_add(n - 1, f, g, h);
    }
}

proof fn lemma_sum_neg(n: int, f: spec_fn(int) -> int, g: spec_fn(int) -> int)
    requires
        forall|i: int| 0 <= i < n ==> #[trigger] g(i) == -f(i),
    ensures
        sum_to(n, g) == -sum_to(n, f),
    decreases n,
{
    if n > 0 {
        lemma_sum_neg(n - 1, f, g);
    }
}

proof fn lemma_sum_single(n: int, f: spec_fn(int) -> int, s: int)
    requires
        0 <= s < n,
        forall|i: int| 0 <= i < n && i != s ==> #[trigger] f(i) == 0,
    ensures
        sum_to(n, f) == f(s),
    decreases n,
{
    if n - 1 > s {
        lemma_sum_single(n - 1, f, s);
    } else {
        lemma_sum_zero(n - 1, f);
    }
}

proof fn lemma_sum_zero(n: int, f: spec_fn(int) -> int)
    requires
        forall|i: int| 0 <= i < n ==> #[trigger] f(i) == 0,
    ensures
        sum_to(n, f) == 0,
    decreases n,
{
    if n > 0 {
        lemma_sum_zero(n - 1, f);
    }
}

/// The order of summation of a finite double sum does not matter.
proof fn lemma_sum_swap(n: int, m: int, g: spec_fn(int, int) -> int)
    requires
        0 <= n,
        0 <= m,
    ensures
        sum_to(n, |x: int| sum_to(m, |y: int| g(x, y))) == sum_to(m, |y: int| sum_to(n, |x: int| g(x, y))),
    decreases n,
{
    if n > 0 {
        lemma_sum_swap(n - 1, m, g);
        let a = |y: int| sum_to(n - 1, |x: int| g(x, y));
        let b = |y: int| g(n - 1, y);
        let h = |y: int| sum_to(n, |x: int| g(x, y));
        lemma_sum_add(m, a, b, h);
        let outer = |x: int| sum_to(m, |y: int| g(x, y));
        assert(sum_to(n, outer) == sum_to(n - 1, outer) + outer(n - 1));
        assert(outer(n - 1) == sum_to(m, b));
    } else {
        lemma_sum_zero(m, |y: int| sum_to(n, |x: int| g(x, y)));
    }
}

proof fn lemma_row_diff(cx: Seq<i32>, rx: Seq<i32>, k: int)
    requires
        0 <= k <= cx.len(),
        cx.len() == rx.len(),
    ensures
        row_sum(cx.take(k)) - row_sum(rx.take(k)) == sum_to(k, |y: int| cx[y] - rx[y]),
    decreases k,
{
    if k > 0 {
        lemma_row_diff(cx, rx, k - 1);
        assert(cx.take(k).drop_last() =~= cx.take(k - 1));
        assert(rx.take(k).drop_last() =~= rx.take(k - 1));
    }
}

/// For every cut, the value of a flow equals its net flow across the cut.
proof fn lemma_cut_identity(c: Seq<Seq<i32>>, r: Seq<Seq<i32>>, s: int, t: int, value: int, cut: Seq<bool>)
    requires
        is_square(c),
        0 <= s < c.len(),
        0 <= t < c.len(),
        residual_of(c, r, s, t, value),
        is_cut(c.len() as int, cut, s, t),
    ensures
        value == cut_flow(c, r, cut),
{
    let n = c.len() as int;
    let f = |x: int, y: int| c[x][y] - r[x][y];
    let g = |x: int, y: int| if cut[x] && cut[y] { f(x, y) } else { 0 };
    let net = |x: int| sum_to(n, |y: int| f(x, y));
    let ins = |x: int| if cut[x] { sum_to(n, |y: int| if cut[y] { f(x, y) } else { 0 }) } else { 0 };
    let outs = |x: int| if cut[x] { sum_to(n, |y: int| if !cut[y] { c[x][y] - r[x][y] } else { 0 }) } else { 0 };
    let mnet = |x: int| if cut[x] { net(x) } else { 0 };
    assert forall|x: int| 0 <= x < n implies row_sum(c[x]) - row_sum(r[x]) == #[trigger] net(x) by {
        lemma_row_diff(c[x], r[x], n);
        assert(c[x].take(n) =~= c[x]);
        assert(r[x].take(n) =~= r[x]);
        lemma_sum_ext(n, |y: int| c[x][y] - r[x][y], |y: int| f(x, y));
    }
    lemma_sum_single(n, mnet, s);
    assert forall|x: int| 0 <= x < n implies #[trigger] mnet(x) == ins(x) + outs(x) by {
        if cut[x] {
            lemma_sum_add(
                n,
                |y: int| if cut[y] { f(x, y) } else { 0 },
                |y: int| if !cut[y] { c[x][y] - r[x][y] } else { 0 },
                |y: int| f(x, y),
            );
        }
    }
    lemma_sum_add(n, ins, outs, mnet);
    assert forall|x: int| 0 <= x < n implies #[trigger] ins(x) == sum_to(n, |y: int| g(x, y)) by {
        if cut[x] {
            lemma_sum_ext(n, |y: int| if cut[y] { f(x, y) } else { 0 }, |y: int| g(x, y));
        } else {
            lemma_sum_zero(n, |y: int| g(x, y));
        }
    }
    lemma_sum_ext(n, ins, |x: int| sum_to(n, |y: int| g(x, y)));
    assert forall|x: int, y: int| 0 <= x < n && 0 <= y < n implies #[trigger] g(x, y) == -g(y, x) by {
        assert(r[x][y] + r[y][x] == c[x][y] + c[y][x]);
    }
    lemma_antisymmetric_sum(n, g);
    assert(sum_to(n, ins) == 0);
}

/// The vertices that can be reached from `s` in `r`.
pub open spec fn reach_set(r: Seq<Seq<i32>>, s: int) -> Seq<bool> {
    Seq::new(r.len(), |x: int| reachable(r, s, x))
}

proof fn lemma_reach_step(r: Seq<Seq<i32>>, s: int, x: int, y: int)
    requires
        reachable(r, s, x),
        0 <= y < r.len(),
        r[x][y] > 0,
    ensures
        reachable(r, s, y),
{
    let p = choose|p: Seq<int>| is_path(r, p) && p[0] == s && p.last() == x;
    let q = p.push(y);
    assert(q[q.len() - 2] == x);
    assert forall|i: int| 0 <= i < q.len() - 1 implies #[trigger] r[q[i]][q[i + 1]] > 0 by {
        if i < p.len() - 1 {
            assert(q[i] == p[i] && q[i + 1] == p[i + 1]);
        }
    }
    assert forall|i: int| 0 <= i < q.len() implies 0 <= #[trigger] q[i] < r.len() by {
        if i < p.len() {
            assert(q[i] == p[i]);
        }
    }
    assert(is_path(r, q));
    assert(q[0] == s);
    assert(q.last() == y);
}

/// Max-flow min-cut. A flow whose residual matrix leaves `t` unreachable from
/// `s` carries at most the capacity of every cut, and exactly the capacity of
/// the cut formed by the vertices still reachable from `s`. Its value is
/// therefore the largest that any flow can have, which is what
/// `edmonds_karp` returns.
pub proof fn lemma_flow_is_min_cut(c: Seq<Seq<i32>>, r: Seq<Seq<i32>>, s: int, t: int, value: int)
    requires
        is_square(c),
        non_negative(c),
        0 <= s < c.len(),
        0 <= t < c.len(),
        s != t,
        residual_of(c, r, s, t, value),
        !reachable(r, s, t),
    ensures
        forall|cut: Seq<bool>| is_cut(c.len() as int, cut, s, t) ==> value <= #[trigger] cut_capacity(c, cut),
        is_cut(c.len() as int, reach_set(r, s), s, t),
        cut_capacity(c, reach_set(r, s)) == value,
{
    let n = c.len() as int;
    assert forall|cut: Seq<bool>| is_cut(n, cut, s, t) implies value <= #[trigger] cut_capacity(c, cut) by {
        lemma_cut_identity(c, r, s, t, value, cut);
        assert forall|x: int| 0 <= x < n implies (if cut[x] {
            sum_to(n, |y: int| if !cut[y] { c[x][y] - r[x][y] } else { 0 })
        } else {
            0
        }) <= (if cut[x] {
            sum_to(n, |y: int| if !cut[y] { c[x][y] as int } else { 0 })
        } else {
            0
        }) by {
            assert forall|y: int| 0 <= y < n implies (if !cut[y] { c[x][y] - r[x][y] } else { 0 }) <= (if !cut[y] {
                c[x][y] as int
            } else {
                0
            }) by {
                assert(r[x][y] >= 0);
            }
            lemma_sum_le(
                n,
                |y: int| if !cut[y] { c[x][y] - r[x][y] } else { 0 },
                |y: int| if !cut[y] { c[x][y] as int } else { 0 },
            );
        }
        lemma_sum_le(
            n,
            |x: int|
                if cut[x] {
                    sum_to(n, |y: int| if !cut[y] { c[x][y] - r[x][y] } else { 0 })
                } else {
                    0
                },
            |x: int|
                if cut[x] {
                    sum_to(n, |y: int| if !cut[y] { c[x][y] as int } else { 0 })
                } else {
                    0
                },
        );
    }
    let cut = reach_set(r, s);
    assert(reachable(r, s, s)) by {
        let p = seq![s];
        assert(p[0] == s);
        assert(is_path(r, p));
        assert(p.last() == s);
    }
    lemma_cut_identity(c, r, s, t, value, cut);
    assert forall|x: int| 0 <= x < n implies (if cut[x] {
        sum_to(n, |y: int| if !cut[y] { c[x][y] - r[x][y] } else { 0 })
    } else {
        0
    }) == (if cut[x] {
        sum_to(n, |y: int| if !cut[y] { c[x][y] as int } else { 0 })
    } else {
        0
    }) by {
        if cut[x] {
            assert forall|y: int| 0 <= y < n implies (if !cut[y] { c[x][y] - r[x][y] } else { 0 }) == (if !cut[y] {
                c[x][y] as int
            } else {
                0
            }) by {
                if !cut[y] && r[x][y] != 0 {
                    assert(r[x][y] >= 0);
                    lemma_reach_step(r, s, x, y);
                }
            }
            lemma_sum_ext(
                n,
                |y: int| if !cut[y] { c[x][y] - r[x][y] } else { 0 },
                |y: int| if !cut[y] { c[x][y] as int } else { 0 },
            );
        }
    }
    lemma_sum_ext(
        n,
        |x: int|
            if cut[x] {
                sum_to(n, |y: int| if !cut[y] { c[x][y] - r[x][y] } else { 0 })
            } else {
                0
            },
        |x: int|
            if cut[x] {
                sum_to(n, |y: int| if !cut[y] { c[x][y] as int } else { 0 })
            } else {
                0
            },
    );
}

/// The maximum flow value is unique: any two results that meet the contract
/// of `edmonds_karp` on one network are equal, so running it again on
/// unchanged input gives the same value.
pub proof fn lemma_max_flow_unique(
    c: Seq<Seq<i32>>,
    s: int,
    t: int,
    r1: Seq<Seq<i32>>,
    v1: int,
    r2: Seq<Seq<i32>>,
    v2: int,
)
    requires
        is_square(c),
        non_negative(c),
        0 <= s < c.len(),
        0 <= t < c.len(),
        s != t,
        residual_of(c, r1, s, t, v1),
        !reachable(r1, s, t),
        residual_of(c, r2, s, t, v2),
        !reachable(r2, s, t),
    ensures
        v1 == v2,
{
    lemma_flow_is_min_cut(c, r1, s, t, v1);
    lemma_flow_is_min_cut(c, r2, s, t, v2);
    assert(is_cut(c.len() as int, reach_set(r1, s), s, t));
    assert(is_cut(c.len() as int, reach_set(r2, s), s, t));
    assert(v1 <= cut_capacity(c, reach_set(r2, s)));
    assert(v2 <= cut_capacity(c, reach_set(r1, s)));
}

/// Conservation seen from the sink: the net flow that enters `t`, summed over
/// all its incoming entries, equals the value that leaves `s`.
pub proof fn lemma_sink_receives_value(c: Seq<Seq<i32>>, r: Seq<Seq<i32>>, s: int, t: int, value: int)
    requires
        is_square(c),
        0 <= s < c.len(),
        0 <= t < c.len(),
        s != t,
        residual_of(c, r, s, t, value),
    ensures
        sum_to(c.len() as int, |u: int| c[u][t] - r[u][t]) == value,
{
    let n = c.len() as int;
    let cut = Seq::new(n as nat, |x: int| x != t);
    lemma_cut_identity(c, r, s, t, value, cut);
    let outer = |x: int|
        if cut[x] {
            sum_to(n, |y: int| if !cut[y] { c[x][y] - r[x][y] } else { 0 })
        } else {
            0
        };
    assert forall|x: int| 0 <= x < n implies #[trigger] outer(x) == c[x][t] - r[x][t] by {
        if x != t {
            lemma_sum_single(n, |y: int| if !cut[y] { c[x][y] - r[x][y] } else { 0 }, t);
        } else {
            assert(r[t][t] + r[t][t] == c[t][t] + c[t][t]);
        }
    }
    lemma_sum_ext(n, outer, |u: int| c[u][t] - r[u][t]);
}

/// A double sum of an antisymmetric function is zero.
proof fn lemma_antisymmetric_sum(n: int, g: spec_fn(int, int) -> int)
    requires
        0 <= n,
        forall|x: int, y: int| 0 <= x < n && 0 <= y < n ==> #[trigger] g(x, y) == -g(y, x),
    ensures
        sum_to(n, |x: int| sum_to(n, |y: int| g(x, y))) == 0,
{
    lemma_sum_swap(n, n, g);
    let col = |y: int| sum_to(n, |x: int| g(x, y));
    let row = |y: int| sum_to(n, |x: int| g(y, x));
    assert forall|y: int| 0 <= y < n implies #[trigger] col(y) == -row(y) by {
        assert forall|x: int| 0 <= x < n implies #[trigger] g(x, y) == -g(y, x) by {}
        lemma_sum_neg(n, |x: int| g(y, x), |x: int| g(x, y));
    }
    lemma_sum_neg(n, row, col);
    assert(sum_to(n, row) == sum_to(n, |x: int| sum_to(n, |y: int| g(x, y))));
}

/// `f` is a flow from `s` to `t` within capacities `c`: every entry lies
/// between zero and its capacity, and every vertex but `s` and `t` sends out
/// what it receives.
pub open spec fn is_flow(c: Seq<Seq<i32>>, f: Seq<Seq<int>>, s: int, t: int) -> bool {
    &&& f.len() == c.len()
    &&& forall|u: int| 0 <= u < c.len() ==> (#[trigger] f[u]).len() == c.len()
    &&& forall|u: int, v: int| 0 <= u < c.len() && 0 <= v < c.len() ==> 0 <= #[trigger] f[u][v] <= c[u][v]
    &&& forall|w: int|
        0 <= w < c.len() && w != s && w != t ==> #[trigger] flow_out(f, w) == flow_in(f, w)
}

/// What flow `f` sends out of `w`.
pub open spec fn flow_out(f: Seq<Seq<int>>, w: int) -> int {
    sum_to(f.len() as int, |v: int| f[w][v])
}

/// What flow `f` sends into `w`.
pub open spec fn flow_in(f: Seq<Seq<int>>, w: int) -> int {
    sum_to(f.len() as int, |u: int| f[u][w])
}

/// What flow `f` sends out of `s`, less what comes back into it.
pub open spec fn flow_value(f: Seq<Seq<int>>, s: int) -> int {
    flow_out(f, s) - flow_in(f, s)
}

/// The value of `edmonds_karp` is at least that of every flow: a flow
/// carries no more than the capacity of the cut that the final residual
/// matrix leaves, and that capacity is the value found.
pub proof fn lemma_no_flow_exceeds(
    c: Seq<Seq<i32>>,
    r: Seq<Seq<i32>>,
    s: int,
    t: int,
    value: int,
    f: Seq<Seq<int>>,
)
    requires
        is_square(c),
        non_negative(c),
        0 <= s < c.len(),
        0 <= t < c.len(),
        s != t,
        residual_of(c, r, s, t, value),
        !reachable(r, s, t),
        is_flow(c, f, s, t),
    ensures
        flow_value(f, s) <= value,
{
    let n = c.len() as int;
    lemma_flow_is_min_cut(c, r, s, t, value);
    let cut = reach_set(r, s);
    let d = |x: int, y: int| f[x][y] - f[y][x];
    let net = |x: int| sum_to(n, |y: int| d(x, y));
    let mnet = |x: int| if cut[x] { net(x) } else { 0 };
    let g = |x: int, y: int| if cut[x] && cut[y] { d(x, y) } else { 0 };
    let ins = |x: int| sum_to(n, |y: int| g(x, y));
    let outs = |x: int| if cut[x] { sum_to(n, |y: int| if !cut[y] { d(x, y) } else { 0 }) } else { 0 };
    let caps = |x: int| if cut[x] { sum_to(n, |y: int| if !cut[y] { c[x][y] as int } else { 0 }) } else { 0 };
    assert forall|x: int| 0 <= x < n implies #[trigger] net(x) == sum_to(n, |y: int| f[x][y]) - sum_to(n, |y: int| f[y][x]) by {
        lemma_sum_add(n, |y: int| d(x, y), |y: int| f[y][x], |y: int| f[x][y]);
    }
    assert forall|x: int| 0 <= x < n && x != s implies #[trigger] mnet(x) == 0 by {
        if cut[x] {
            assert(x != t);
            assert(flow_out(f, x) == flow_in(f, x));
        }
    }
    lemma_sum_single(n, mnet, s);
    assert(mnet(s) == flow_value(f, s));
    assert forall|x: int| 0 <= x < n implies #[trigger] mnet(x) == ins(x) + outs(x) by {
        if cut[x] {
            lemma_sum_add(
                n,
                |y: int| g(x, y),
                |y: int| if !cut[y] { d(x, y) } else { 0 },
                |y: int| d(x, y),
            );
        } else {
            lemma_sum_zero(n, |y: int| g(x, y));
        }
    }
    lemma_sum_add(n, ins, outs, mnet);
    lemma_antisymmetric_sum(n, g);
    assert forall|x: int| 0 <= x < n implies #[trigger] outs(x) <= caps(x) by {
        if cut[x] {
            let lo = |y: int| if !cut[y] { d(x, y) } else { 0 };
            let hi = |y: int| if !cut[y] { c[x][y] as int } else { 0 };
            assert forall|y: int| 0 <= y < n implies #[trigger] lo(y) <= hi(y) by {
                assert(0 <= f[y][x]);
                assert(f[x][y] <= c[x][y]);
            }
            lemma_sum_le(
                n,
                |y: int| if !cut[y] { d(x, y) } else { 0 },
                |y: int| if !cut[y] { c[x][y] as int } else { 0 },
            );
        }
    }
    lemma_sum_le(n, outs, caps);
    assert(sum_to(n, caps) == cut_capacity(c, cut));
}

} // verus!
