//! What holds of every oracle and of every choice of targets, proved from
//! the contracts of the functions that compute them.

use vstd::prelude::*;
use vstd::set_lib::{lemma_int_range, lemma_len_subset, set_int_range};
use crate::graph::{valid_map, MAX_INT, MAX_LINK_DISTANCE};
use crate::relaxation::lemma_walk_nodes;
use crate::routes::{
    charts, coherent_routes, covers, distance_between, hits_before, interior_hits, interior_len,
    is_walk, links_total, pair_hits, pair_interior, route, row_hits, row_interior, step_linked,
    sum_before, walk_cost, OracleModel, RouteModel,
};
use crate::targeting::{bomb_choice_of, bomb_goes, bomb_pair, pair_distance};
use crate::world::Base;

verus! {

/// `p` is a walk on the map `w` from `a` to `b`.
pub open spec fn joins(w: Seq<Seq<int>>, p: Seq<int>, a: int, b: int) -> bool {
    is_walk(w, p) && p.first() == a && p.last() == b
}

/// Some walk on the map `w` leads from `a` to `b`.
pub open spec fn reachable(w: Seq<Seq<int>>, a: int, b: int) -> bool {
    exists|p: Seq<int>| #[trigger] joins(w, p, a, b)
}

/// The distance from a factory to itself is 0, and the distance between
/// two factories is the same in both directions.
pub proof fn lemma_distance_symmetric(w: Seq<Seq<int>>, o: OracleModel, a: int, b: int)
    requires
        charts(o, w),
    ensures
        distance_between(o.routes, a, b) == distance_between(o.routes, b, a),
        covers(o.routes, a, a) ==> distance_between(o.routes, a, a) == 0,
{
    if covers(o.routes, a, b) {
        assert(o.routes.dist[a][b] == o.routes.dist[b][a]);
    }
    if covers(o.routes, a, a) {
        assert((o.routes.dist[a])[a] == 0);
    }
}

/// The links of a walk add up to at most the longest link for each.
proof fn lemma_links_at_most(w: Seq<Seq<int>>, p: Seq<int>)
    requires
        valid_map(w),
        is_walk(w, p),
    ensures
        links_total(w, p) <= (p.len() - 1) * MAX_LINK_DISTANCE,
    decreases p.len(),
{
    if p.len() > 1 {
        assert(step_linked(w, p, 0));
        let rest = p.drop_first();
        assert forall|t: int| 0 <= t < rest.len() - 1 implies #[trigger] step_linked(
            w,
            rest,
            t,
        ) by {
            assert(step_linked(w, p, t + 1));
        }
        lemma_links_at_most(w, rest);
    }
}

/// A walk that visits no factory twice visits at most as many factories
/// as the map has.
proof fn lemma_simple_walk_short(w: Seq<Seq<int>>, p: Seq<int>)
    requires
        is_walk(w, p),
        p.no_duplicates(),
    ensures
        p.len() <= w.len(),
{
    p.unique_seq_to_set();
    lemma_int_range(0, w.len() as int);
    assert forall|x: int| p.to_set().contains(x) implies set_int_range(
        0,
        w.len() as int,
    ).contains(x) by {
        let t = choose|t: int| 0 <= t < p.len() && p[t] == x;
        lemma_walk_nodes(w, p, t);
    }
    lemma_len_subset(p.to_set(), set_int_range(0, w.len() as int));
}

/// Where a walk leads from one factory to another, so does a walk that
/// visits no factory twice.
proof fn lemma_simple_walk(w: Seq<Seq<int>>, p: Seq<int>) -> (q: Seq<int>)
    requires
        is_walk(w, p),
    ensures
        is_walk(w, q),
        q.first() == p.first(),
        q.last() == p.last(),
        q.no_duplicates(),
    decreases p.len(),
{
    if p.no_duplicates() {
        p
    } else {
        let (x, y) = choose|x: int, y: int|
            0 <= x < p.len() && 0 <= y < p.len() && x != y && p[x] == p[y];
        let i = if x < y {
            x
        } else {
            y
        };
        let j = if x < y {
            y
        } else {
            x
        };
        let cut = p.subrange(0, i + 1) + p.subrange(j + 1, p.len() as int);
        assert forall|t: int| 0 <= t < cut.len() - 1 implies #[trigger] step_linked(w, cut, t) by {
            if t < i {
                assert(step_linked(w, p, t));
            } else if t == i {
                assert(step_linked(w, p, j));
            } else {
                assert(step_linked(w, p, t + (j - i)));
            }
        }
        lemma_simple_walk(w, cut)
    }
}

/// Where a walk leads from `a` to `b`, the oracle records a route: the
/// distance is below `MAX_INT`.
pub proof fn lemma_reachable_is_finite(w: Seq<Seq<int>>, o: OracleModel, a: int, b: int)
    requires
        charts(o, w),
        reachable(w, a, b),
    ensures
        covers(o.routes, a, b),
        o.routes.dist[a][b] < MAX_INT,
{
    let p = choose|p: Seq<int>| #[trigger] joins(w, p, a, b);
    let q = lemma_simple_walk(w, p);
    lemma_simple_walk_short(w, q);
    lemma_links_at_most(w, q);
    lemma_walk_nodes(w, q, 0);
    lemma_walk_nodes(w, q, q.len() - 1);
    assert(links_total(w, q) <= 14 * MAX_LINK_DISTANCE) by (nonlinear_arith)
        requires
            links_total(w, q) <= (q.len() - 1) * MAX_LINK_DISTANCE,
            q.len() <= 15,
    ;
    assert(o.routes.dist[q.first()][q.last()] <= walk_cost(w, q));
}

/// For every pair of factories that some walk joins, the route that the
/// next-hop table spells out starts at the first, ends at the second, and
/// costs exactly the recorded distance: its link distances and one turn
/// for every factory passed on the way.
pub proof fn lemma_reachable_route(w: Seq<Seq<int>>, o: OracleModel, a: int, b: int)
    requires
        charts(o, w),
        reachable(w, a, b),
    ensures
        joins(w, route(o.routes, a, b), a, b),
        walk_cost(w, route(o.routes, a, b)) == distance_between(o.routes, a, b),
        distance_between(o.routes, a, b) < MAX_INT,
{
    lemma_reachable_is_finite(w, o, a, b);
    let r = route(o.routes, a, b);
    assert(is_walk(w, r));
}

/// For every pair of factories that no walk joins, the spelled-out route
/// is empty and the recorded distance is `MAX_INT`.
pub proof fn lemma_unreachable_route(w: Seq<Seq<int>>, o: OracleModel, a: int, b: int)
    requires
        charts(o, w),
        !reachable(w, a, b),
    ensures
        route(o.routes, a, b).len() == 0,
        distance_between(o.routes, a, b) == MAX_INT,
{
    if covers(o.routes, a, b) {
        assert(0 <= o.routes.dist[a][b] <= MAX_INT);
        if o.routes.dist[a][b] < MAX_INT {
            let r = route(o.routes, a, b);
            assert(joins(w, r, a, b));
        }
    }
}

/// No walk between two factories costs less than the recorded distance.
pub proof fn lemma_distance_is_least(w: Seq<Seq<int>>, o: OracleModel, p: Seq<int>)
    requires
        charts(o, w),
        is_walk(w, p),
    ensures
        distance_between(o.routes, p.first(), p.last()) <= walk_cost(w, p),
{
    lemma_walk_nodes(w, p, 0);
    lemma_walk_nodes(w, p, p.len() - 1);
}

/// No route of the row passes `x`, so the row counts no pass.
proof fn lemma_row_without_hits(o: RouteModel, x: int, u: int, v_end: int)
    requires
        forall|v: int| u < v < v_end ==> interior_hits(#[trigger] route(o, u, v), x) == 0,
    ensures
        row_hits(o, x, u, v_end) == 0,
    decreases v_end - u,
{
    if v_end > u + 1 {
        lemma_row_without_hits(o, x, u, v_end - 1);
        assert(interior_hits(route(o, u, v_end - 1), x) == 0);
    }
}

/// A factory that no route passes has centrality 0.
pub proof fn lemma_never_passed_is_zero(w: Seq<Seq<int>>, o: OracleModel, x: int)
    requires
        charts(o, w),
        0 <= x < o.centrality.len(),
        forall|u: int, v: int|
            0 <= u < v < o.routes.dist.len() ==> interior_hits(
                #[trigger] route(o.routes, u, v),
                x,
            ) == 0,
    ensures
        o.centrality[x] == 0,
{
    lemma_pairs_without_hits(o.routes, x, o.routes.dist.len() as int);
}

/// No route of the pairs below `u_end` passes `x`, so they count no pass.
proof fn lemma_pairs_without_hits(o: RouteModel, x: int, u_end: int)
    requires
        0 <= u_end <= o.dist.len(),
        forall|u: int, v: int|
            0 <= u < v < o.dist.len() ==> interior_hits(#[trigger] route(o, u, v), x) == 0,
    ensures
        pair_hits(o, x, u_end) == 0,
    decreases u_end,
{
    if u_end > 0 {
        lemma_pairs_without_hits(o, x, u_end - 1);
        lemma_row_without_hits(o, x, u_end - 1, o.dist.len() as int);
    }
}

/// Adding `delta` to one entry adds `delta` to the sum.
proof fn lemma_sum_update(s: Seq<int>, x: int, delta: int, upto: int)
    requires
        0 <= x < s.len(),
        0 <= upto <= s.len(),
    ensures
        sum_before(s.update(x, s[x] + delta), upto) == sum_before(s, upto) + if x < upto {
            delta
        } else {
            0
        },
    decreases upto,
{
    if upto > 0 {
        lemma_sum_update(s, x, delta, upto - 1);
    }
}

/// A sequence of zeros sums to zero.
proof fn lemma_sum_zero(s: Seq<int>, upto: int)
    requires
        0 <= upto <= s.len(),
        forall|x: int| 0 <= x < s.len() ==> #[trigger] s[x] == 0,
    ensures
        sum_before(s, upto) == 0,
    decreases upto,
{
    if upto > 0 {
        lemma_sum_zero(s, upto - 1);
    }
}

/// The sum of entry-wise sums is the sum of the sums.
proof fn lemma_sum_add(a: Seq<int>, b: Seq<int>, c: Seq<int>, upto: int)
    requires
        0 <= upto <= a.len(),
        a.len() == b.len(),
        a.len() == c.len(),
        forall|x: int| 0 <= x < a.len() ==> #[trigger] c[x] == a[x] + b[x],
    ensures
        sum_before(c, upto) == sum_before(a, upto) + sum_before(b, upto),
    decreases upto,
{
    if upto > 0 {
        lemma_sum_add(a, b, c, upto - 1);
    }
}

/// For every factory, how often it stands at the positions `1..upto` of
/// `r`.
spec fn hits_row(r: Seq<int>, n: nat, upto: int) -> Seq<int> {
    Seq::new(n, |x: int| hits_before(r, x, upto))
}

/// For every factory, how often the route from `u` to `v` passes it.
spec fn interior_row(o: RouteModel, u: int, v: int) -> Seq<int> {
    Seq::new(o.dist.len(), |x: int| interior_hits(route(o, u, v), x))
}

/// For every factory, the passes that `row_hits` counts.
spec fn row_hits_row(o: RouteModel, u: int, v_end: int) -> Seq<int> {
    Seq::new(o.dist.len(), |x: int| row_hits(o, x, u, v_end))
}

/// For every factory, the passes that `pair_hits` counts.
spec fn pair_hits_row(o: RouteModel, u_end: int) -> Seq<int> {
    Seq::new(o.dist.len(), |x: int| pair_hits(o, x, u_end))
}

/// Every position `1..upto` of `r` is a hit for exactly one factory.
proof fn lemma_hits_sum(r: Seq<int>, n: nat, upto: int)
    requires
        upto <= r.len(),
        forall|s: int| 1 <= s < upto ==> 0 <= #[trigger] r[s] < n,
    ensures
        sum_before(hits_row(r, n, upto), n as int) == if upto >= 1 {
            upto - 1
        } else {
            0
        },
    decreases upto,
{
    if upto <= 1 {
        lemma_sum_zero(hits_row(r, n, upto), n as int);
    } else {
        lemma_hits_sum(r, n, upto - 1);
        let before = hits_row(r, n, upto - 1);
        let x = r[upto - 1];
        assert(hits_row(r, n, upto) =~= before.update(x, before[x] + 1));
        lemma_sum_update(before, x, 1, n as int);
    }
}

/// Every factory on a recorded route is a factory that the model covers.
proof fn lemma_route_nodes(o: RouteModel, a: int, b: int, s: int)
    requires
        coherent_routes(o),
        0 <= s < route(o, a, b).len(),
    ensures
        0 <= route(o, a, b)[s] < o.dist.len(),
    decreases distance_between(o, a, b),
{
    if a != b && s > 0 {
        let hop = o.next[a][b];
        assert(route(o, a, b) =~= seq![a] + route(o, hop, b));
        lemma_route_nodes(o, hop, b, s - 1);
    }
}

/// The passes of one route, summed over the factories, are its interior
/// factories.
proof fn lemma_interior_sum(o: RouteModel, u: int, v: int)
    requires
        coherent_routes(o),
    ensures
        sum_before(interior_row(o, u, v), o.dist.len() as int) == interior_len(route(o, u, v)),
{
    let r = route(o, u, v);
    assert forall|s: int| 1 <= s < r.len() - 1 implies 0 <= #[trigger] r[s] < o.dist.len() by {
        lemma_route_nodes(o, u, v, s);
    }
    lemma_hits_sum(r, o.dist.len(), r.len() - 1);
    assert(interior_row(o, u, v) =~= hits_row(r, o.dist.len(), r.len() - 1));
}

/// The passes of one row of pairs, summed over the factories, are the
/// interior factories of its routes.
proof fn lemma_row_sum(o: RouteModel, u: int, v_end: int)
    requires
        coherent_routes(o),
    ensures
        sum_before(row_hits_row(o, u, v_end), o.dist.len() as int) == row_interior(o, u, v_end),
    decreases v_end - u,
{
    if v_end <= u + 1 {
        lemma_sum_zero(row_hits_row(o, u, v_end), o.dist.len() as int);
    } else {
        lemma_row_sum(o, u, v_end - 1);
        lemma_interior_sum(o, u, v_end - 1);
        lemma_sum_add(
            row_hits_row(o, u, v_end - 1),
            interior_row(o, u, v_end - 1),
            row_hits_row(o, u, v_end),
            o.dist.len() as int,
        );
    }
}

/// The passes of all pairs below `u_end`, summed over the factories, are
/// the interior factories of their routes.
proof fn lemma_pair_sum(o: RouteModel, u_end: int)
    requires
        coherent_routes(o),
    ensures
        sum_before(pair_hits_row(o, u_end), o.dist.len() as int) == pair_interior(o, u_end),
    decreases u_end,
{
    if u_end <= 0 {
        lemma_sum_zero(pair_hits_row(o, u_end), o.dist.len() as int);
    } else {
        lemma_pair_sum(o, u_end - 1);
        lemma_row_sum(o, u_end - 1, o.dist.len() as int);
        lemma_sum_add(
            pair_hits_row(o, u_end - 1),
            row_hits_row(o, u_end - 1, o.dist.len() as int),
            pair_hits_row(o, u_end),
            o.dist.len() as int,
        );
    }
}

/// All centrality scores together are twice the number of times that a
/// route between two factories passes a third.
pub proof fn lemma_centrality_total(w: Seq<Seq<int>>, o: OracleModel)
    requires
        charts(o, w),
    ensures
        sum_before(o.centrality, o.centrality.len() as int) == 2 * pair_interior(
            o.routes,
            o.routes.dist.len() as int,
        ),
{
    let n = o.routes.dist.len() as int;
    let passes = pair_hits_row(o.routes, n);
    lemma_pair_sum(o.routes, n);
    lemma_sum_add(passes, passes, o.centrality, n);
}

/// The bomb goes from a factory of this player to one of the opponent's
/// most productive factories, and no such pair is nearer to each other.
pub proof fn lemma_bomb_pair_is_nearest(
    o: RouteModel,
    factories: Seq<Base>,
    source: usize,
    target: usize,
)
    requires
        bomb_choice_of(o, factories) == Some((source, target)),
    ensures
        exists|s: int, t: int|
            {
                &&& #[trigger] bomb_pair(factories, s, t)
                &&& factories[s].entity_id == source
                &&& factories[t].entity_id == target
                &&& pair_distance(o, factories, s, t) < MAX_INT
                &&& forall|s2: int, t2: int| #[trigger]
                    bomb_pair(factories, s2, t2) ==> pair_distance(o, factories, s2, t2)
                        >= pair_distance(o, factories, s, t)
            },
{
    let (s, t) = choose|s: int, t: int| bomb_goes(o, factories, s, t);
    assert(bomb_goes(o, factories, s, t));
    assert(bomb_pair(factories, s, t));
}

} // verus!
