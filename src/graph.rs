//! The adjacency model of a weighted graph, walks over it and their costs.
use std::collections::HashMap;
use vstd::prelude::*;

verus! {

/// The distance reported for a vertex that cannot be reached.
pub const NO_PATH: usize = usize::MAX;

/// An arc out of some vertex: the neighbour it leads to and what it costs.
#[derive(Clone, Copy, Debug, PartialEq, Eq)]
pub struct Edge {
    pub id: usize,
    pub cost: usize,
}

/// The adjacency lists of a map from vertex to edges, as sequences.
pub open spec fn adj_of(m: Map<usize, Vec<Edge>>) -> Map<usize, Seq<Edge>> {
    m.map_values(|v: Vec<Edge>| v@)
}

/// Every arc leads to a vertex that has an entry of its own.
pub open spec fn is_closed(g: Map<usize, Seq<Edge>>) -> bool {
    forall|u: usize, j: int|
        #![trigger g[u][j]]
        g.contains_key(u) && 0 <= j < g[u].len() ==> g.contains_key(g[u][j].id)
}

/// Every arc `u -> v` of cost `w` is matched by an arc `v -> u` of cost `w`.
pub open spec fn is_undirected(g: Map<usize, Seq<Edge>>) -> bool {
    forall|u: usize, j: int|
        #![trigger g[u][j]]
        g.contains_key(u) && 0 <= j < g[u].len() ==> g.contains_key(g[u][j].id)
            && g[g[u][j].id].contains(Edge { id: u, cost: g[u][j].cost })
}

/// A graph as the loader leaves it: closed and undirected.
pub open spec fn is_valid_graph(g: Map<usize, Seq<Edge>>) -> bool {
    is_closed(g) && is_undirected(g)
}

/// The vertex that step `i` of walk `e` from `s` leaves.
pub open spec fn step_source(s: usize, e: Seq<Edge>, i: int) -> usize {
    if i == 0 {
        s
    } else {
        e[i - 1].id
    }
}

/// `e` lists the arcs of a walk in `g` that starts at `s`.
pub open spec fn is_walk(g: Map<usize, Seq<Edge>>, s: usize, e: Seq<Edge>) -> bool {
    forall|i: int|
        #![trigger step_source(s, e, i)]
        0 <= i < e.len() ==> g.contains_key(step_source(s, e, i)) && g[step_source(
            s,
            e,
            i,
        )].contains(e[i])
}

/// The vertex where walk `e` from `s` ends.
pub open spec fn walk_end(s: usize, e: Seq<Edge>) -> usize {
    if e.len() == 0 {
        s
    } else {
        e.last().id
    }
}

/// The total cost of the arcs of a walk.
pub open spec fn walk_cost(e: Seq<Edge>) -> int
    decreases e.len(),
{
    if e.len() == 0 {
        0
    } else {
        walk_cost(e.drop_last()) + e.last().cost
    }
}

/// `e` is a walk in `g` from `s` to `t`.
pub open spec fn is_walk_between(g: Map<usize, Seq<Edge>>, s: usize, t: usize, e: Seq<Edge>) -> bool {
    is_walk(g, s, e) && walk_end(s, e) == t
}

/// Some walk from `s` to `t` costs exactly `c`.
pub open spec fn reaches_at(g: Map<usize, Seq<Edge>>, s: usize, t: usize, c: int) -> bool {
    exists|e: Seq<Edge>| #[trigger] is_walk_between(g, s, t, e) && walk_cost(e) == c
}

/// `d` is the least cost of a walk from `s` to `t`, or `NO_PATH` where no walk
/// costs less than `NO_PATH`.
pub open spec fn is_shortest(g: Map<usize, Seq<Edge>>, s: usize, t: usize, d: usize) -> bool {
    &&& (d == NO_PATH || reaches_at(g, s, t, d as int))
    &&& forall|e: Seq<Edge>| #[trigger] is_walk_between(g, s, t, e) ==> d <= walk_cost(e)
}

pub proof fn lemma_walk_cost_nonneg(e: Seq<Edge>)
    ensures
        walk_cost(e) >= 0,
    decreases e.len(),
{
    if e.len() > 0 {
        lemma_walk_cost_nonneg(e.drop_last());
    }
}

/// A walk stays a walk when its last arc is taken off.
pub proof fn lemma_walk_drop_last(g: Map<usize, Seq<Edge>>, s: usize, e: Seq<Edge>)
    requires
        is_walk(g, s, e),
        e.len() > 0,
    ensures
        is_walk(g, s, e.drop_last()),
        walk_end(s, e.drop_last()) == step_source(s, e, e.len() - 1),
        g.contains_key(walk_end(s, e.drop_last())),
        g[walk_end(s, e.drop_last())].contains(e.last()),
{
    let p = e.drop_last();
    assert forall|i: int| 0 <= i < p.len() implies g.contains_key(#[trigger] step_source(s, p, i))
        && g[step_source(s, p, i)].contains(p[i]) by {
        assert(e[i] == p[i]);
        assert(step_source(s, p, i) == step_source(s, e, i));
    }
    assert(e[e.len() - 1] == e.last());
}

/// A walk followed by an arc out of its end is a walk.
pub proof fn lemma_walk_push(g: Map<usize, Seq<Edge>>, s: usize, e: Seq<Edge>, a: Edge)
    requires
        is_walk(g, s, e),
        g.contains_key(walk_end(s, e)),
        g[walk_end(s, e)].contains(a),
    ensures
        is_walk(g, s, e.push(a)),
        walk_end(s, e.push(a)) == a.id,
        walk_cost(e.push(a)) == walk_cost(e) + a.cost,
{
    let q = e.push(a);
    assert(q.drop_last() =~= e);
    assert forall|i: int| 0 <= i < q.len() implies g.contains_key(#[trigger] step_source(s, q, i))
        && g[step_source(s, q, i)].contains(q[i]) by {
        if i < e.len() {
            assert(q[i] == e[i]);
            assert(step_source(s, q, i) == step_source(s, e, i));
        } else {
            assert(q[i] == a);
        }
    }
}

/// The cost of two walks put end to end is the sum of their costs.
pub proof fn lemma_walk_cost_concat(e1: Seq<Edge>, e2: Seq<Edge>)
    ensures
        walk_cost(e1 + e2) == walk_cost(e1) + walk_cost(e2),
    decreases e2.len(),
{
    if e2.len() == 0 {
        assert(e1 + e2 =~= e1);
    } else {
        lemma_walk_cost_concat(e1, e2.drop_last());
        assert((e1 + e2).drop_last() =~= e1 + e2.drop_last());
    }
}

/// A walk from `s` to `m` followed by a walk from `m` is a walk from `s`.
pub proof fn lemma_walk_concat(g: Map<usize, Seq<Edge>>, s: usize, e1: Seq<Edge>, e2: Seq<Edge>)
    requires
        is_walk(g, s, e1),
        is_walk(g, walk_end(s, e1), e2),
    ensures
        is_walk(g, s, e1 + e2),
        walk_end(s, e1 + e2) == walk_end(walk_end(s, e1), e2),
        walk_cost(e1 + e2) == walk_cost(e1) + walk_cost(e2),
{
    let m = walk_end(s, e1);
    let q = e1 + e2;
    lemma_walk_cost_concat(e1, e2);
    assert forall|i: int| 0 <= i < q.len() implies g.contains_key(#[trigger] step_source(s, q, i))
        && g[step_source(s, q, i)].contains(q[i]) by {
        if i < e1.len() {
            assert(q[i] == e1[i]);
            assert(step_source(s, q, i) == step_source(s, e1, i));
        } else {
            assert(q[i] == e2[i - e1.len()]);
            assert(step_source(s, q, i) == step_source(m, e2, i - e1.len()));
        }
    }
    if e2.len() > 0 {
        assert(q.last() == e2.last());
    } else {
        assert(q =~= e1);
    }
}

} // verus!

verus! {

/// What a sequence holds after a push: what it held, and the pushed item.
pub proof fn lemma_push_contains(q: Seq<Edge>, a: Edge, e: Edge)
    ensures
        q.push(a).contains(e) <==> (q.contains(e) || e == a),
{
    let r = q.push(a);
    if q.contains(e) {
        let i = choose|i: int| 0 <= i < q.len() && q[i] == e;
        assert(r[i] == e);
    }
    if e == a {
        assert(r[q.len() as int] == a);
    }
    if r.contains(e) {
        let i = choose|i: int| 0 <= i < r.len() && r[i] == e;
        if i < q.len() {
            assert(q[i] == e);
        }
    }
}

/// The graph after an undirected edge `u - v` of cost `w` is added: each end
/// gains an arc to the other.
pub open spec fn with_edge(g: Map<usize, Seq<Edge>>, u: usize, v: usize, w: usize) -> Map<
    usize,
    Seq<Edge>,
> {
    let g1 = g.insert(u, g[u].push(Edge { id: v, cost: w }));
    g1.insert(v, g1[v].push(Edge { id: u, cost: w }))
}

/// An arc of the graph is still an arc once an edge is added.
pub proof fn lemma_with_edge_keeps(g: Map<usize, Seq<Edge>>, u: usize, v: usize, w: usize, x: usize, a: Edge)
    requires
        g.contains_key(u),
        g.contains_key(v),
        g.contains_key(x),
        g[x].contains(a),
    ensures
        with_edge(g, u, v, w).contains_key(x),
        with_edge(g, u, v, w)[x].contains(a),
{
    let g1 = g.insert(u, g[u].push(Edge { id: v, cost: w }));
    lemma_push_contains(g[u], Edge { id: v, cost: w }, a);
    lemma_push_contains(g1[v], Edge { id: u, cost: w }, a);
}

/// An arc of the graph with an added edge is an arc of the graph, or one of the
/// two new arcs.
pub proof fn lemma_with_edge_arcs(g: Map<usize, Seq<Edge>>, u: usize, v: usize, w: usize, x: usize, a: Edge)
    requires
        g.contains_key(u),
        g.contains_key(v),
        with_edge(g, u, v, w).contains_key(x),
        with_edge(g, u, v, w)[x].contains(a),
    ensures
        g.contains_key(x),
        g[x].contains(a) || (x == u && a == Edge { id: v, cost: w }) || (x == v && a == Edge {
            id: u,
            cost: w,
        }),
{
    let g1 = g.insert(u, g[u].push(Edge { id: v, cost: w }));
    lemma_push_contains(g[u], Edge { id: v, cost: w }, a);
    lemma_push_contains(g1[v], Edge { id: u, cost: w }, a);
}

/// Adding an edge between two vertices of a valid graph leaves it valid.
pub proof fn lemma_with_edge_valid(g: Map<usize, Seq<Edge>>, u: usize, v: usize, w: usize)
    requires
        is_valid_graph(g),
        g.contains_key(u),
        g.contains_key(v),
    ensures
        is_valid_graph(with_edge(g, u, v, w)),
{
    let g2 = with_edge(g, u, v, w);
    assert forall|x: usize, j: int|
        g2.contains_key(x) && 0 <= j < g2[x].len() implies g2.contains_key(#[trigger] g2[x][j].id)
        && g2[g2[x][j].id].contains(Edge { id: x, cost: g2[x][j].cost }) by {
        let a = g2[x][j];
        assert(g2[x].contains(a));
        lemma_with_edge_arcs(g, u, v, w, x, a);
        if g[x].contains(a) {
            let k = choose|k: int| 0 <= k < g[x].len() && g[x][k] == a;
            assert(g[x][k] == a);
            lemma_with_edge_keeps(g, u, v, w, a.id, Edge { id: x, cost: a.cost });
        } else if x == u && a == (Edge { id: v, cost: w }) {
            let g1 = g.insert(u, g[u].push(Edge { id: v, cost: w }));
            lemma_push_contains(g1[v], Edge { id: u, cost: w }, Edge { id: u, cost: w });
        } else {
            let g1 = g.insert(u, g[u].push(Edge { id: v, cost: w }));
            lemma_push_contains(g[u], Edge { id: v, cost: w }, Edge { id: v, cost: w });
            lemma_push_contains(g1[v], Edge { id: u, cost: w }, Edge { id: v, cost: w });
        }
    }
}

} // verus!
