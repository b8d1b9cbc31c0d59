//! Laws of least walk costs, stated over the contract of the search.
use crate::graph::{
    is_shortest, is_undirected, is_walk, is_walk_between, lemma_walk_concat,
    lemma_walk_drop_last, lemma_walk_push, lemma_with_edge_arcs, lemma_with_edge_keeps,
    reaches_at, step_source, walk_cost, walk_end, with_edge, Edge, NO_PATH,
};
use vstd::prelude::*;

verus! {

/// In an undirected graph every walk can be walked back, at the same cost.
pub proof fn lemma_reverse_walk(g: Map<usize, Seq<Edge>>, s: usize, e: Seq<Edge>) -> (r: Seq<Edge>)
    requires
        is_undirected(g),
        is_walk(g, s, e),
    ensures
        is_walk_between(g, walk_end(s, e), s, r),
        walk_cost(r) == walk_cost(e),
    decreases e.len(),
{
    if e.len() == 0 {
        let r = Seq::<Edge>::empty();
        assert(is_walk(g, s, r));
        r
    } else {
        let p = e.drop_last();
        lemma_walk_drop_last(g, s, e);
        let m = walk_end(s, p);
        let a = e.last();
        let t = a.id;
        let j = choose|j: int| 0 <= j < g[m].len() && g[m][j] == a;
        assert(g[m][j] == a);
        let b = Edge { id: m, cost: a.cost };
        let rp = lemma_reverse_walk(g, s, p);
        let first = Seq::<Edge>::empty().push(b);
        assert(is_walk(g, t, Seq::<Edge>::empty()));
        lemma_walk_push(g, t, Seq::<Edge>::empty(), b);
        assert(walk_cost(Seq::<Edge>::empty()) == 0);
        lemma_walk_concat(g, t, first, rp);
        let r = first + rp;
        r
    }
}

/// In an undirected graph the least cost from `s` to `t` is the least cost
/// from `t` to `s`.
pub proof fn lemma_distance_symmetric(
    g: Map<usize, Seq<Edge>>,
    s: usize,
    t: usize,
    d_st: usize,
    d_ts: usize,
)
    requires
        is_undirected(g),
        is_shortest(g, s, t, d_st),
        is_shortest(g, t, s, d_ts),
    ensures
        d_st == d_ts,
{
    if d_ts < NO_PATH {
        let e = choose|e: Seq<Edge>| #[trigger] is_walk_between(g, t, s, e) && walk_cost(e) == d_ts;
        let r = lemma_reverse_walk(g, t, e);
        assert(is_walk_between(g, s, t, r));
    }
    if d_st < NO_PATH {
        let e = choose|e: Seq<Edge>| #[trigger] is_walk_between(g, s, t, e) && walk_cost(e) == d_st;
        let r = lemma_reverse_walk(g, s, e);
        assert(is_walk_between(g, t, s, r));
    }
}

/// Where no walk leads from `s` to `t`, the least cost is `NO_PATH`.
pub proof fn lemma_unreachable_is_no_path(g: Map<usize, Seq<Edge>>, s: usize, t: usize, d: usize)
    requires
        is_shortest(g, s, t, d),
        forall|e: Seq<Edge>| !is_walk_between(g, s, t, e),
    ensures
        d == NO_PATH,
{
    if d != NO_PATH {
        let e = choose|e: Seq<Edge>| #[trigger] is_walk_between(g, s, t, e) && walk_cost(e) == d;
    }
}

/// The least cost from `s` to `t` is at most the least cost from `s` to `m`
/// plus the least cost from `m` to `t`.
pub proof fn lemma_triangle(
    g: Map<usize, Seq<Edge>>,
    s: usize,
    m: usize,
    t: usize,
    d_st: usize,
    d_sm: usize,
    d_mt: usize,
)
    requires
        is_shortest(g, s, t, d_st),
        is_shortest(g, s, m, d_sm),
        is_shortest(g, m, t, d_mt),
    ensures
        d_st <= d_sm + d_mt,
{
    if d_sm < NO_PATH && d_mt < NO_PATH {
        let e1 = choose|e: Seq<Edge>| #[trigger] is_walk_between(g, s, m, e) && walk_cost(e) == d_sm;
        let e2 = choose|e: Seq<Edge>| #[trigger] is_walk_between(g, m, t, e) && walk_cost(e) == d_mt;
        lemma_walk_concat(g, s, e1, e2);
        assert(is_walk_between(g, s, t, e1 + e2));
    }
}

/// A walk of the graph is a walk of the graph with an added edge.
proof fn lemma_walk_in_larger(g: Map<usize, Seq<Edge>>, u: usize, v: usize, w: usize, s: usize, e: Seq<Edge>)
    requires
        g.contains_key(u),
        g.contains_key(v),
        is_walk(g, s, e),
    ensures
        is_walk(with_edge(g, u, v, w), s, e),
{
    let g2 = with_edge(g, u, v, w);
    assert forall|i: int| 0 <= i < e.len() implies g2.contains_key(#[trigger] step_source(s, e, i))
        && g2[step_source(s, e, i)].contains(e[i]) by {
        lemma_with_edge_keeps(g, u, v, w, step_source(s, e, i), e[i]);
    }
}

/// A walk of the graph with an added edge, whose ends a walk of the graph of
/// no greater cost already joins, gives a walk of the graph between the same
/// vertices that costs no more.
proof fn lemma_walk_in_smaller(
    g: Map<usize, Seq<Edge>>,
    u: usize,
    v: usize,
    c: int,
    w: usize,
    s: usize,
    e: Seq<Edge>,
) -> (r: Seq<Edge>)
    requires
        is_undirected(g),
        g.contains_key(u),
        g.contains_key(v),
        reaches_at(g, u, v, c),
        c <= w,
        is_walk(with_edge(g, u, v, w), s, e),
    ensures
        is_walk_between(g, s, walk_end(s, e), r),
        walk_cost(r) <= walk_cost(e),
    decreases e.len(),
{
    let g2 = with_edge(g, u, v, w);
    if e.len() == 0 {
        let r = Seq::<Edge>::empty();
        assert(is_walk(g, s, r));
        r
    } else {
        let p = e.drop_last();
        lemma_walk_drop_last(g2, s, e);
        let m = walk_end(s, p);
        let a = e.last();
        let rp = lemma_walk_in_smaller(g, u, v, c, w, s, p);
        lemma_with_edge_arcs(g, u, v, w, m, a);
        if g[m].contains(a) {
            lemma_walk_push(g, s, rp, a);
            rp.push(a)
        } else {
            let uv = choose|x: Seq<Edge>| #[trigger] is_walk_between(g, u, v, x) && walk_cost(x) == c;
            let link = if m == u && a == (Edge { id: v, cost: w }) {
                uv
            } else {
                lemma_reverse_walk(g, u, uv)
            };
            lemma_walk_concat(g, s, rp, link);
            rp + link
        }
    }
}

/// Adding an edge between two vertices that a walk of no greater cost already
/// joins changes no least cost.
pub proof fn lemma_redundant_edge(
    g: Map<usize, Seq<Edge>>,
    u: usize,
    v: usize,
    c: int,
    w: usize,
    s: usize,
    t: usize,
    d: usize,
    d2: usize,
)
    requires
        is_undirected(g),
        g.contains_key(u),
        g.contains_key(v),
        reaches_at(g, u, v, c),
        c <= w,
        is_shortest(g, s, t, d),
        is_shortest(with_edge(g, u, v, w), s, t, d2),
    ensures
        d == d2,
{
    let g2 = with_edge(g, u, v, w);
    if d < NO_PATH {
        let e = choose|e: Seq<Edge>| #[trigger] is_walk_between(g, s, t, e) && walk_cost(e) == d;
        lemma_walk_in_larger(g, u, v, w, s, e);
        assert(is_walk_between(g2, s, t, e));
    }
    if d2 < NO_PATH {
        let e = choose|e: Seq<Edge>| #[trigger] is_walk_between(g2, s, t, e) && walk_cost(e) == d2;
        let r = lemma_walk_in_smaller(g, u, v, c, w, s, e);
        assert(is_walk_between(g, s, t, r));
    }
}

} // verus!
