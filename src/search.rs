//! The label-setting search for the least cost between two vertices.
use crate::graph::{
    adj_of, is_closed, is_shortest, is_walk, is_walk_between, lemma_push_contains,
    lemma_walk_cost_nonneg, lemma_walk_drop_last, lemma_walk_push, reaches_at, walk_cost,
    walk_end, Edge, NO_PATH,
};
use std::collections::HashMap;
use vstd::prelude::*;

verus! {

broadcast use vstd::std_specs::hash::group_hash_axioms;

/// The best known distance of `v` in a distance table; a vertex without an
/// entry is not reached yet.
pub open spec fn dist_of(d: Map<usize, usize>, v: usize) -> int {
    if d.contains_key(v) {
        d[v] as int
    } else {
        NO_PATH as int
    }
}

/// Every arc out of `u` is relaxed: it offers no shorter distance.
pub open spec fn is_relaxed(g: Map<usize, Seq<Edge>>, d: Map<usize, usize>, u: usize) -> bool {
    forall|j: int|
        #![trigger g[u][j]]
        0 <= j < g[u].len() ==> dist_of(d, g[u][j].id) <= dist_of(d, u) + g[u][j].cost
}

/// A queue entry: a walk from `s` reaches its vertex at its cost, and the table
/// holds no more than that cost.
pub open spec fn entry_ok(g: Map<usize, Seq<Edge>>, s: usize, d: Map<usize, usize>, q: Edge) -> bool {
    dist_of(d, q.id) <= q.cost && reaches_at(g, s, q.id, q.cost as int)
}

/// Every finite table entry is the cost of some walk from `s`.
pub open spec fn table_sound(g: Map<usize, Seq<Edge>>, s: usize, d: Map<usize, usize>) -> bool {
    &&& dist_of(d, s) == 0
    &&& forall|v: usize| #[trigger] dist_of(d, v) < NO_PATH ==> reaches_at(g, s, v, dist_of(d, v))
}

/// The state of the search between two extractions.
pub open spec fn search_inv(
    g: Map<usize, Seq<Edge>>,
    s: usize,
    d: Map<usize, usize>,
    q: Seq<Edge>,
) -> bool {
    &&& table_sound(g, s, d)
    &&& forall|i: int| 0 <= i < q.len() ==> entry_ok(g, s, d, #[trigger] q[i])
    &&& forall|u: usize|
        #![trigger dist_of(d, u)]
        g.contains_key(u) ==> q.contains(Edge { id: u, cost: dist_of(d, u) as usize })
            || is_relaxed(g, d, u)
}

/// The sum of the table's distances over `ks`; it falls with each improvement.
pub open spec fn potential(d: Map<usize, usize>, ks: Seq<usize>) -> int
    decreases ks.len(),
{
    if ks.len() == 0 {
        0
    } else {
        potential(d, ks.drop_last()) + dist_of(d, ks.last())
    }
}

proof fn lemma_potential_nonneg(d: Map<usize, usize>, ks: Seq<usize>)
    ensures
        potential(d, ks) >= 0,
    decreases ks.len(),
{
    if ks.len() > 0 {
        lemma_potential_nonneg(d, ks.drop_last());
    }
}

/// Lowering one entry of the table lowers the potential over a sequence that
/// holds that vertex.
proof fn lemma_potential_lower(d: Map<usize, usize>, x: usize, c: usize, ks: Seq<usize>)
    requires
        c < dist_of(d, x),
    ensures
        potential(d.insert(x, c), ks) <= potential(d, ks),
        ks.contains(x) ==> potential(d.insert(x, c), ks) < potential(d, ks),
    decreases ks.len(),
{
    if ks.len() > 0 {
        let p = ks.drop_last();
        lemma_potential_lower(d, x, c, p);
        if ks.contains(x) && ks.last() != x {
            let i = choose|i: int| 0 <= i < ks.len() && ks[i] == x;
            assert(p[i] == x);
        }
    }
}

proof fn lemma_remove_keeps(q: Seq<Edge>, k: int, e: Edge)
    requires
        0 <= k < q.len(),
        q.contains(e),
        e != q[k],
    ensures
        q.remove(k).contains(e),
{
    let i = choose|i: int| 0 <= i < q.len() && q[i] == e;
    let r = q.remove(k);
    if i < k {
        assert(r[i] == e);
    } else {
        assert(r[i - 1] == e);
    }
}

/// Lowering the entry of another vertex keeps the arcs of `u` relaxed.
proof fn lemma_relaxed_lower(g: Map<usize, Seq<Edge>>, d: Map<usize, usize>, x: usize, c: usize, u: usize)
    requires
        c < dist_of(d, x),
        u != x,
    ensures
        is_relaxed(g, d, u) ==> is_relaxed(g, d.insert(x, c), u),
{
    let d2 = d.insert(x, c);
    if is_relaxed(g, d, u) {
        assert forall|j: int| 0 <= j < g[u].len() implies dist_of(d2, #[trigger] g[u][j].id)
            <= dist_of(d2, u) + g[u][j].cost by {
            assert(dist_of(d, g[u][j].id) <= dist_of(d, u) + g[u][j].cost);
        }
    }
}

/// An arc out of a vertex reached at `c` reaches its end at `c` plus its cost.
proof fn lemma_relax(g: Map<usize, Seq<Edge>>, s: usize, id: usize, c: usize, j: int)
    requires
        reaches_at(g, s, id, c as int),
        g.contains_key(id),
        0 <= j < g[id].len(),
    ensures
        reaches_at(g, s, g[id][j].id, c + g[id][j].cost),
{
    let e = choose|e: Seq<Edge>| #[trigger] is_walk_between(g, s, id, e) && walk_cost(e) == c;
    let a = g[id][j];
    assert(g[id].contains(a));
    lemma_walk_push(g, s, e, a);
    assert(is_walk_between(g, s, a.id, e.push(a)));
}

/// The table's entry for `t` is the least cost once `t` leaves the queue as its
/// least entry, or once the queue is empty.
proof fn lemma_search_done(
    g: Map<usize, Seq<Edge>>,
    s: usize,
    t: usize,
    d: Map<usize, usize>,
    q: Seq<Edge>,
    k: int,
)
    requires
        search_inv(g, s, d, q),
        (k == -1 && q.len() == 0) || (0 <= k < q.len() && q[k].id == t && forall|i: int|
            0 <= i < q.len() ==> q[k].cost <= #[trigger] q[i].cost),
    ensures
        is_shortest(g, s, t, dist_of(d, t) as usize),
{
    assert forall|e: Seq<Edge>| #[trigger] is_walk_between(g, s, t, e) implies dist_of(d, t)
        <= walk_cost(e) by {
        lemma_walk_bound(g, s, d, q, e);
        if k >= 0 {
            assert(entry_ok(g, s, d, q[k]));
        }
    }
}

/// Once the search stops, no walk from `s` costs less than the table's entry for
/// its end, unless the queue still holds an entry that costs no more than the walk.
proof fn lemma_walk_bound(
    g: Map<usize, Seq<Edge>>,
    s: usize,
    d: Map<usize, usize>,
    q: Seq<Edge>,
    e: Seq<Edge>,
)
    requires
        search_inv(g, s, d, q),
        is_walk(g, s, e),
    ensures
        dist_of(d, walk_end(s, e)) <= walk_cost(e) || exists|i: int|
            0 <= i < q.len() && #[trigger] q[i].cost <= walk_cost(e),
    decreases e.len(),
{
    if e.len() > 0 {
        let p = e.drop_last();
        lemma_walk_drop_last(g, s, e);
        lemma_walk_bound(g, s, d, q, p);
        lemma_walk_cost_nonneg(p);
        let u = walk_end(s, p);
        let a = e.last();
        assert(walk_cost(e) == walk_cost(p) + a.cost);
        if dist_of(d, u) <= walk_cost(p) {
            let cu = dist_of(d, u);
            if q.contains(Edge { id: u, cost: cu as usize }) {
                let i = choose|i: int| 0 <= i < q.len() && q[i] == Edge { id: u, cost: cu as usize };
                assert(q[i].cost <= walk_cost(e));
            } else {
                assert(is_relaxed(g, d, u));
                let j = choose|j: int| 0 <= j < g[u].len() && g[u][j] == a;
                assert(g[u][j] == a);
            }
        }
    }
}

/// The least cost of a walk from `start_id` to `end_id` in a graph, or
/// `NO_PATH` where there is none.
///
/// The distance table starts with `start_id` at 0; a vertex without an entry
/// counts as not reached. Entries leave the queue by least cost, ties by least
/// vertex; an entry whose vertex has been improved since is not discarded, and
/// the search stops as soon as `end_id` leaves the queue. A sum that would pass
/// `NO_PATH` is no improvement.
pub fn get_shortest_path(
    adjacencies: &HashMap<usize, Vec<Edge>>,
    start_id: usize,
    end_id: usize,
) -> (r: usize)
    requires
        is_closed(adj_of(adjacencies@)),
    ensures
        is_shortest(adj_of(adjacencies@), start_id, end_id, r),
        start_id == end_id ==> r == 0,
{
    let ghost g = adj_of(adjacencies@);
    if start_id == end_id {
        proof {
            assert(is_walk_between(g, start_id, end_id, Seq::<Edge>::empty()));
            assert forall|e: Seq<Edge>| #[trigger] is_walk_between(g, start_id, end_id, e)
                implies 0 <= walk_cost(e) by {
                lemma_walk_cost_nonneg(e);
            }
        }
        return 0;
    }
    let mut min_queue: Vec<Edge> = Vec::new();
    let mut distances: HashMap<usize, usize> = HashMap::new();
    distances.insert(start_id, 0);
    min_queue.push(Edge { id: start_id, cost: 0 });
    proof {
        assert(g.dom() =~= adjacencies@.dom());
    }
    let ghost ks = g.dom().to_seq();
    proof {
        assert(is_walk_between(g, start_id, start_id, Seq::<Edge>::empty()));
        assert(walk_cost(Seq::<Edge>::empty()) == 0);
        assert(min_queue@[0] == Edge { id: start_id, cost: 0 });
        assert forall|u: usize| #[trigger] g.contains_key(u) implies min_queue@.contains(
            Edge { id: u, cost: dist_of(distances@, u) as usize },
        ) || is_relaxed(g, distances@, u) by {
            if u != start_id {
                assert forall|j: int| 0 <= j < g[u].len() implies dist_of(
                    distances@,
                    #[trigger] g[u][j].id,
                ) <= dist_of(distances@, u) + g[u][j].cost by {}
            }
        }
        assert(g.dom() =~= adjacencies@.dom());
        g.dom().lemma_to_seq_to_set_id();
        lemma_potential_nonneg(distances@, ks);
    }
    while min_queue.len() > 0
        invariant
            g == adj_of(adjacencies@),
            is_closed(g),
            ks.to_set() == g.dom(),
            search_inv(g, start_id, distances@, min_queue@),
        decreases potential(distances@, ks), min_queue.len(),
    {
        let k = least_entry(&min_queue);
        let ghost pot0 = potential(distances@, ks);
        let ghost q0 = min_queue@;
        let top = min_queue.remove(k);
        let id = top.id;
        let cost = top.cost;
        proof {
            assert(q0[k as int] == top);
            assert(entry_ok(g, start_id, distances@, top));
        }
        if id == end_id {
            proof {
                lemma_search_done(g, start_id, end_id, distances@, q0, k as int);
            }
            return table_entry(&distances, end_id);
        }
        let ghost len1 = min_queue.len();
        proof {
            assert forall|u: usize| #[trigger] g.contains_key(u) && u != id implies min_queue@.contains(
                Edge { id: u, cost: dist_of(distances@, u) as usize },
            ) || is_relaxed(g, distances@, u) by {
                if !is_relaxed(g, distances@, u) {
                    lemma_remove_keeps(q0, k as int, Edge { id: u, cost: dist_of(distances@, u) as usize });
                }
            }
            if g.contains_key(id) && dist_of(distances@, id) < cost && !is_relaxed(g, distances@, id) {
                lemma_remove_keeps(q0, k as int, Edge { id: id, cost: dist_of(distances@, id) as usize });
            }
        }
        match adjacencies.get(&id) {
            None => {},
            Some(edges) => {
                let mut j: usize = 0;
                while j < edges.len()
                    invariant
                        g == adj_of(adjacencies@),
                        is_closed(g),
                        ks.to_set() == g.dom(),
                        g.contains_key(id),
                        edges@ == g[id],
                        j <= edges.len(),
                        table_sound(g, start_id, distances@),
                        forall|i: int| 0 <= i < min_queue@.len() ==> entry_ok(g, start_id, distances@, #[trigger] min_queue@[i]),
                        reaches_at(g, start_id, id, cost as int),
                        dist_of(distances@, id) <= cost,
                        forall|u: usize|
                            #![trigger dist_of(distances@, u)]
                            g.contains_key(u) && u != id ==> min_queue@.contains(Edge { id: u, cost: dist_of(distances@, u) as usize })
                                || is_relaxed(g, distances@, u),
                        min_queue@.contains(Edge { id: id, cost: dist_of(distances@, id) as usize })
                            || is_relaxed(g, distances@, id)
                            || (dist_of(distances@, id) == cost && forall|i: int|
                                #![trigger g[id][i]]
                                0 <= i < j ==> dist_of(distances@, g[id][i].id) <= cost + g[id][i].cost),
                        potential(distances@, ks) <= pot0,
                        potential(distances@, ks) == pot0 ==> min_queue.len() == len1,
                    decreases edges.len() - j,
                {
                    let edge = edges[j];
                    let next_id = edge.id;
                    proof {
                        assert(g[id][j as int] == edge);
                    }
                    match cost.checked_add(edge.cost) {
                        None => {},
                        Some(candidate) => {
                            let current = match distances.get(&next_id) {
                                Some(v) => *v,
                                None => NO_PATH,
                            };
                            if candidate < current {
                                let ghost d1 = distances@;
                                let ghost q1 = min_queue@;
                                proof {
                                    lemma_relax(g, start_id, id, cost, j as int);
                                    assert(ks.contains(next_id));
                                    lemma_potential_lower(d1, next_id, candidate, ks);
                                }
                                distances.insert(next_id, candidate);
                                min_queue.push(Edge { id: next_id, cost: candidate });
                                proof {
                                    let d2 = distances@;
                                    let q2 = min_queue@;
                                    assert(d2 == d1.insert(next_id, candidate));
                                    assert(q2[q1.len() as int] == Edge { id: next_id, cost: candidate });
                                    assert forall|v: usize| #[trigger] dist_of(d2, v) < NO_PATH implies reaches_at(
                                        g,
                                        start_id,
                                        v,
                                        dist_of(d2, v),
                                    ) by {
                                        if v != next_id {
                                            assert(dist_of(d2, v) == dist_of(d1, v));
                                        }
                                    }
                                    assert forall|i: int| 0 <= i < q2.len() implies entry_ok(g, start_id, d2, #[trigger] q2[i]) by {
                                        if i < q1.len() {
                                            assert(q2[i] == q1[i]);
                                            assert(entry_ok(g, start_id, d1, q1[i]));
                                        }
                                    }
                                    assert forall|u: usize|
                                        #![trigger dist_of(d2, u)]
                                        g.contains_key(u) && u != id implies q2.contains(Edge { id: u, cost: dist_of(d2, u) as usize })
                                            || is_relaxed(g, d2, u) by {
                                        if u != next_id {
                                            assert(dist_of(d2, u) == dist_of(d1, u));
                                            lemma_push_contains(q1, Edge { id: next_id, cost: candidate }, Edge { id: u, cost: dist_of(d1, u) as usize });
                                            lemma_relaxed_lower(g, d1, next_id, candidate, u);
                                        }
                                    }
                                    assert(dist_of(d2, id) == dist_of(d1, id));
                                    lemma_push_contains(q1, Edge { id: next_id, cost: candidate }, Edge { id: id, cost: dist_of(d1, id) as usize });
                                    lemma_relaxed_lower(g, d1, next_id, candidate, id);
                                }
                            }
                        },
                    }
                    j += 1;
                }
                proof {
                    assert(is_relaxed(g, distances@, id) || min_queue@.contains(
                        Edge { id: id, cost: dist_of(distances@, id) as usize },
                    ));
                }
            },
        }
        proof {
            assert(search_inv(g, start_id, distances@, min_queue@));
            lemma_potential_nonneg(distances@, ks);
            assert(potential(distances@, ks) < pot0 || min_queue.len() < q0.len());
        }
    }
    proof {
        lemma_search_done(g, start_id, end_id, distances@, min_queue@, -1);
    }
    table_entry(&distances, end_id)
}

fn table_entry(distances: &HashMap<usize, usize>, v: usize) -> (r: usize)
    ensures
        r == dist_of(distances@, v),
{
    match distances.get(&v) {
        Some(c) => *c,
        None => NO_PATH,
    }
}

/// The position of the least entry of a non-empty queue: least cost first, and
/// among equal costs the least vertex.
fn least_entry(q: &Vec<Edge>) -> (k: usize)
    requires
        q.len() > 0,
    ensures
        k < q.len(),
        forall|i: int| 0 <= i < q.len() ==> q[k as int].cost <= #[trigger] q[i].cost,
        forall|i: int|
            0 <= i < q.len() && q[i].cost == q[k as int].cost ==> q[k as int].id <= #[trigger] q[i].id,
{
    let mut k: usize = 0;
    let mut i: usize = 1;
    while i < q.len()
        invariant
            k < i <= q.len(),
            forall|m: int| 0 <= m < i ==> q[k as int].cost <= #[trigger] q[m].cost,
            forall|m: int|
                0 <= m < i && q[m].cost == q[k as int].cost ==> q[k as int].id <= #[trigger] q[m].id,
        decreases q.len() - i,
    {
        if q[i].cost < q[k].cost || (q[i].cost == q[k].cost && q[i].id < q[k].id) {
            k = i;
        }
        i += 1;
    }
    k
}

/// The least cost between two declared vertices; `None` where the graph does
/// not declare one of them.
pub fn shortest_distance(adjacencies: &HashMap<usize, Vec<Edge>>, start_id: usize, end_id: usize) -> (r:
    Option<usize>)
    requires
        is_closed(adj_of(adjacencies@)),
    ensures
        r is Some <==> adjacencies@.contains_key(start_id) && adjacencies@.contains_key(end_id),
        r matches Some(d) ==> is_shortest(adj_of(adjacencies@), start_id, end_id, d),
        r matches Some(d) ==> (start_id == end_id ==> d == 0),
{
    if adjacencies.contains_key(&start_id) && adjacencies.contains_key(&end_id) {
        Some(get_shortest_path(adjacencies, start_id, end_id))
    } else {
        None
    }
}

} // verus!
