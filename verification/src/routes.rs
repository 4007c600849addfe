//! What the distance oracle promises, stated over plain sequences: walks on
//! the map, what they cost, and the routes that a next-hop table spells out.

use vstd::prelude::*;
use crate::graph::{valid_map, MAX_INT, NUM_FACTORIES};

verus! {

/// Entry of the next-hop table that stands for "no route".
pub const NO_HOP: usize = 32767;

/// The oracle's two routing tables as mathematical sequences.
pub ghost struct RouteModel {
    /// `dist[a][b]`: cost of the cheapest route from `a` to `b`, or `MAX_INT`.
    pub dist: Seq<Seq<int>>,
    /// `next[a][b]`: the factory to move to first on the way from `a` to `b`,
    /// or `NO_HOP`.
    pub next: Seq<Seq<int>>,
}

/// All that the oracle holds: the routing tables and the centrality scores.
pub ghost struct OracleModel {
    /// The distances and the next hops.
    pub routes: RouteModel,
    /// `centrality[x]`: the chokepoint score of factory `x`.
    pub centrality: Seq<int>,
}

/// The map `w` links factories `a` and `b` directly.
pub open spec fn linked(w: Seq<Seq<int>>, a: int, b: int) -> bool {
    0 <= a < w.len() && 0 <= b < w.len() && w[a][b] > 0
}

/// Step `t` of the sequence `p` follows a link of the map `w`.
pub open spec fn step_linked(w: Seq<Seq<int>>, p: Seq<int>, t: int) -> bool {
    linked(w, p[t], p[t + 1])
}

/// `p` lists the factories of a walk on the map `w`: at least one factory,
/// and a link between each factory and the one after it.
pub open spec fn is_walk(w: Seq<Seq<int>>, p: Seq<int>) -> bool {
    &&& p.len() >= 1
    &&& 0 <= p[0] < w.len()
    &&& forall|t: int| 0 <= t < p.len() - 1 ==> #[trigger] step_linked(w, p, t)
}

/// The sum of the link distances along `p`.
pub open spec fn links_total(w: Seq<Seq<int>>, p: Seq<int>) -> int
    decreases p.len(),
{
    if p.len() <= 1 {
        0
    } else {
        w[p[0]][p[1]] + links_total(w, p.drop_first())
    }
}

/// How many factories `p` passes strictly between its two ends.
pub open spec fn interior_len(p: Seq<int>) -> int {
    if p.len() >= 2 {
        p.len() - 2
    } else {
        0
    }
}

/// What travelling along `p` costs: the link distances, and one more turn
/// for every factory passed on the way.
pub open spec fn walk_cost(w: Seq<Seq<int>>, p: Seq<int>) -> int {
    links_total(w, p) + interior_len(p)
}

/// The model covers the factories `a` and `b`: both are rows of its tables.
pub open spec fn covers(o: RouteModel, a: int, b: int) -> bool {
    0 <= a < o.dist.len() && 0 <= b < o.dist.len()
}

/// The distance from `a` to `b` that the model records; `MAX_INT` for
/// factories that it does not cover.
pub open spec fn distance_between(o: RouteModel, a: int, b: int) -> int {
    if covers(o, a, b) {
        o.dist[a][b]
    } else {
        MAX_INT as int
    }
}

/// The route from `from` to `to` that the next-hop table spells out: both
/// ends included, `[from]` alone where they are the same factory, and empty
/// where the model records no route.
pub open spec fn route(o: RouteModel, from: int, to: int) -> Seq<int>
    decreases distance_between(o, from, to),
{
    if !covers(o, from, to) || o.dist[from][to] >= MAX_INT {
        Seq::empty()
    } else if from == to {
        seq![from]
    } else {
        let hop = o.next[from][to];
        if covers(o, hop, to) && 0 <= o.dist[hop][to] < o.dist[from][to] {
            seq![from] + route(o, hop, to)
        } else {
            Seq::empty()
        }
    }
}

/// The routing tables fit together: square and of one size, distances
/// within `0..=MAX_INT` and 0 from a factory to itself, and wherever a route
/// is recorded the next hop is a factory strictly closer to the goal.
pub open spec fn coherent_routes(o: RouteModel) -> bool {
    &&& o.dist.len() <= NUM_FACTORIES
    &&& o.next.len() == o.dist.len()
    &&& forall|a: int| 0 <= a < o.dist.len() ==> (#[trigger] o.dist[a]).len() == o.dist.len()
    &&& forall|a: int| 0 <= a < o.dist.len() ==> (#[trigger] o.next[a]).len() == o.dist.len()
    &&& forall|a: int| 0 <= a < o.dist.len() ==> (#[trigger] o.dist[a])[a] == 0
    &&& forall|a: int| 0 <= a < o.dist.len() ==> (#[trigger] o.next[a])[a] == a
    &&& forall|a: int, b: int| covers(o, a, b) ==> 0 <= #[trigger] o.dist[a][b] <= MAX_INT
    &&& forall|a: int, b: int|
        covers(o, a, b) ==> 0 <= #[trigger] o.next[a][b] < o.dist.len() || o.next[a][b] == NO_HOP
    &&& forall|a: int, b: int|
        covers(o, a, b) && a != b && o.dist[a][b] < MAX_INT ==> 0 <= #[trigger] o.next[a][b]
            < o.dist.len() && o.dist[o.next[a][b]][b] < o.dist[a][b]
    &&& forall|a: int, b: int|
        covers(o, a, b) && o.dist[a][b] == MAX_INT ==> #[trigger] o.next[a][b] == NO_HOP
}

/// The oracle's tables fit together, and it has one centrality score for
/// every factory, none of them negative.
pub open spec fn coherent(o: OracleModel) -> bool {
    &&& coherent_routes(o.routes)
    &&& o.centrality.len() == o.routes.dist.len()
    &&& forall|x: int| 0 <= x < o.centrality.len() ==> 0 <= #[trigger] o.centrality[x] <= i32::MAX
}

/// The model's distances and routes are the shortest ones of the map `w`:
/// distances are symmetric; no walk is cheaper than the recorded distance;
/// where the distance is below `MAX_INT` the spelled-out route is a walk
/// between the two factories that costs exactly that distance; and where it
/// is `MAX_INT` there is no route.
pub open spec fn shortest_routes(w: Seq<Seq<int>>, o: RouteModel) -> bool {
    &&& o.dist.len() == w.len()
    &&& forall|a: int, b: int| covers(o, a, b) ==> #[trigger] o.dist[a][b] == o.dist[b][a]
    &&& forall|p: Seq<int>| #[trigger]
        is_walk(w, p) ==> o.dist[p.first()][p.last()] <= walk_cost(w, p)
    &&& forall|a: int, b: int|
        covers(o, a, b) && o.dist[a][b] < MAX_INT ==> {
            let r = #[trigger] route(o, a, b);
            &&& is_walk(w, r)
            &&& r.first() == a
            &&& r.last() == b
            &&& walk_cost(w, r) == o.dist[a][b]
        }
    &&& forall|a: int, b: int|
        covers(o, a, b) && o.dist[a][b] >= MAX_INT ==> (#[trigger] route(o, a, b)).len() == 0
}

/// The tables before any relaxation: 0 from a factory to itself, the link
/// distance between linked factories, and `MAX_INT` elsewhere.
pub open spec fn direct_routes(w: Seq<Seq<int>>) -> RouteModel {
    RouteModel {
        dist: Seq::new(
            w.len(),
            |a: int|
                Seq::new(
                    w.len(),
                    |b: int|
                        if a == b {
                            0
                        } else if w[a][b] > 0 {
                            w[a][b]
                        } else {
                            MAX_INT as int
                        },
                ),
        ),
        next: Seq::new(
            w.len(),
            |a: int|
                Seq::new(
                    w.len(),
                    |b: int|
                        if a == b {
                            a
                        } else if w[a][b] > 0 {
                            b
                        } else {
                            NO_HOP as int
                        },
                ),
        ),
    }
}

/// Going from `a` to `b` by way of `k` is cheaper than what `o` records.
pub open spec fn improves(o: RouteModel, k: int, a: int, b: int) -> bool {
    o.dist[a][k] < MAX_INT && o.dist[k][b] < MAX_INT && o.dist[a][k] + o.dist[k][b] + 1
        < o.dist[a][b]
}

/// The distance from `a` to `b` after the round for `k`.
pub open spec fn relaxed_dist(o: RouteModel, k: int, a: int, b: int) -> int {
    if improves(o, k, a, b) {
        o.dist[a][k] + o.dist[k][b] + 1
    } else {
        o.dist[a][b]
    }
}

/// The next hop from `a` to `b` after the round for `k`.
pub open spec fn relaxed_next(o: RouteModel, k: int, a: int, b: int) -> int {
    if improves(o, k, a, b) {
        o.next[a][k]
    } else {
        o.next[a][b]
    }
}

/// The tables after the round for `k`: every pair that is cheaper by way
/// of `k`, with one turn for the stop there, now goes that way. A pair that
/// is only as cheap by way of `k` stays as it was.
pub open spec fn relax_round(o: RouteModel, k: int) -> RouteModel {
    RouteModel {
        dist: Seq::new(
            o.dist.len(),
            |a: int| Seq::new(o.dist.len(), |b: int| relaxed_dist(o, k, a, b)),
        ),
        next: Seq::new(
            o.dist.len(),
            |a: int| Seq::new(o.dist.len(), |b: int| relaxed_next(o, k, a, b)),
        ),
    }
}

/// The tables after the rounds for the factories `0..k`, in ascending
/// order.
pub open spec fn rounds(w: Seq<Seq<int>>, k: int) -> RouteModel
    decreases k,
{
    if k <= 0 {
        direct_routes(w)
    } else {
        relax_round(rounds(w, k - 1), k - 1)
    }
}

/// How often `x` stands at the positions `1..upto` of `r`.
pub open spec fn hits_before(r: Seq<int>, x: int, upto: int) -> int
    decreases upto,
{
    if upto <= 1 {
        0
    } else {
        hits_before(r, x, upto - 1) + if r[upto - 1] == x {
            1int
        } else {
            0int
        }
    }
}

/// How often the route `r` passes `x` strictly between its two ends.
pub open spec fn interior_hits(r: Seq<int>, x: int) -> int {
    hits_before(r, x, r.len() - 1)
}

/// Interior passes through `x` on the routes from `u` to the factories
/// `u + 1 .. v_end`.
pub open spec fn row_hits(o: RouteModel, x: int, u: int, v_end: int) -> int
    decreases v_end - u,
{
    if v_end <= u + 1 {
        0
    } else {
        row_hits(o, x, u, v_end - 1) + interior_hits(route(o, u, v_end - 1), x)
    }
}

/// Interior passes through `x` on the routes of all pairs `u < v` with
/// `u < u_end`.
pub open spec fn pair_hits(o: RouteModel, x: int, u_end: int) -> int
    decreases u_end,
{
    if u_end <= 0 {
        0
    } else {
        pair_hits(o, x, u_end - 1) + row_hits(o, x, u_end - 1, o.dist.len() as int)
    }
}

/// Interior factories on the routes from `u` to the factories `u + 1 .. v_end`.
pub open spec fn row_interior(o: RouteModel, u: int, v_end: int) -> int
    decreases v_end - u,
{
    if v_end <= u + 1 {
        0
    } else {
        row_interior(o, u, v_end - 1) + interior_len(route(o, u, v_end - 1))
    }
}

/// Interior factories on the routes of all pairs `u < v` with `u < u_end`,
/// each counted once for every route it lies on.
pub open spec fn pair_interior(o: RouteModel, u_end: int) -> int
    decreases u_end,
{
    if u_end <= 0 {
        0
    } else {
        pair_interior(o, u_end - 1) + row_interior(o, u_end - 1, o.dist.len() as int)
    }
}

/// The sum of the first `upto` entries of `s`.
pub open spec fn sum_before(s: Seq<int>, upto: int) -> int
    decreases upto,
{
    if upto <= 0 {
        0
    } else {
        sum_before(s, upto - 1) + s[upto - 1]
    }
}

/// Every factory's centrality is twice the number of unordered pairs whose
/// route passes it strictly between the ends.
pub open spec fn counts_interior_hops(o: OracleModel) -> bool {
    forall|x: int|
        0 <= x < o.centrality.len() ==> #[trigger] o.centrality[x] == 2 * pair_hits(
            o.routes,
            x,
            o.routes.dist.len() as int,
        )
}

/// The model is the oracle of the map `w`: its tables are those that the
/// rounds for all factories of `w` leave, they hold the shortest routes,
/// and the centrality scores count the interior hops of those routes.
pub open spec fn charts(o: OracleModel, w: Seq<Seq<int>>) -> bool {
    &&& valid_map(w)
    &&& coherent(o)
    &&& o.routes == rounds(w, w.len() as int)
    &&& shortest_routes(w, o.routes)
    &&& counts_interior_hops(o)
}

} // verus!
