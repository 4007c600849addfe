//! Why relaxing through one factory after another ends with the shortest
//! routes: the invariant of the computation and the lemmas that carry it
//! from one round to the next.

use vstd::prelude::*;
use crate::graph::{valid_map, MAX_INT};
use crate::routes::{
    covers, direct_routes, improves, is_walk, linked, links_total, relax_round, relaxed_dist,
    relaxed_next, route, shortest_routes, step_linked, walk_cost, RouteModel, NO_HOP,
};

verus! {

/// Every factory that `p` passes between its ends has an id below `k`.
pub open spec fn inner_below(p: Seq<int>, k: int) -> bool {
    forall|t: int| 0 < t < p.len() - 1 ==> #[trigger] p[t] < k
}

/// `p` is a walk on `w` that passes only factories below `k`.
pub open spec fn walk_within(w: Seq<Seq<int>>, p: Seq<int>, k: int) -> bool {
    is_walk(w, p) && inner_below(p, k)
}

/// What is left to pay after moving to `hop` on the way to `to`.
pub open spec fn tail_cost(o: RouteModel, hop: int, to: int) -> int {
    if hop == to {
        0
    } else {
        o.dist[hop][to] + 1
    }
}

/// Both tables of `o` are `n` by `n`.
pub open spec fn square(o: RouteModel, n: int) -> bool {
    &&& o.dist.len() == n
    &&& o.next.len() == n
    &&& forall|a: int| 0 <= a < n ==> (#[trigger] o.dist[a]).len() == n
    &&& forall|a: int| 0 <= a < n ==> (#[trigger] o.next[a]).len() == n
}

/// The state between two rounds: the tables hold the shortest routes among
/// those that pass only factories below `k`.
pub open spec fn settled(w: Seq<Seq<int>>, o: RouteModel, k: int) -> bool {
    &&& square(o, w.len() as int)
    &&& forall|a: int| 0 <= a < w.len() ==> (#[trigger] o.dist[a])[a] == 0
    &&& forall|a: int| 0 <= a < w.len() ==> (#[trigger] o.next[a])[a] == a
    &&& forall|a: int, b: int| covers(o, a, b) ==> 0 <= #[trigger] o.dist[a][b] <= MAX_INT
    &&& forall|a: int, b: int| covers(o, a, b) ==> #[trigger] o.dist[a][b] == o.dist[b][a]
    &&& forall|a: int, b: int|
        covers(o, a, b) ==> 0 <= #[trigger] o.next[a][b] < w.len() || o.next[a][b] == NO_HOP
    &&& forall|a: int, b: int|
        covers(o, a, b) && a != b && o.dist[a][b] < MAX_INT ==> linked(
            w,
            a,
            #[trigger] o.next[a][b],
        ) && o.dist[a][b] >= w[a][o.next[a][b]] + tail_cost(o, o.next[a][b], b)
    &&& forall|a: int, b: int|
        covers(o, a, b) && o.dist[a][b] == MAX_INT ==> #[trigger] o.next[a][b] == NO_HOP
    &&& forall|p: Seq<int>| #[trigger]
        walk_within(w, p, k) ==> o.dist[p.first()][p.last()] <= walk_cost(w, p)
}

/// `after` is `before` with every pair relaxed through `k`.
pub open spec fn relaxed(before: RouteModel, after: RouteModel, k: int) -> bool {
    &&& square(after, before.dist.len() as int)
    &&& forall|a: int, b: int|
        covers(before, a, b) ==> #[trigger] after.dist[a][b] == relaxed_dist(before, k, a, b)
    &&& forall|a: int, b: int|
        covers(before, a, b) ==> #[trigger] after.next[a][b] == relaxed_next(before, k, a, b)
}

/// The tables before the first round: direct links only.
pub open spec fn direct_only(w: Seq<Seq<int>>, o: RouteModel) -> bool {
    &&& square(o, w.len() as int)
    &&& forall|a: int, b: int|
        covers(o, a, b) ==> #[trigger] o.dist[a][b] == (if a == b {
            0
        } else if w[a][b] > 0 {
            w[a][b]
        } else {
            MAX_INT as int
        })
    &&& forall|a: int, b: int|
        covers(o, a, b) ==> #[trigger] o.next[a][b] == (if a == b {
            a
        } else if w[a][b] > 0 {
            b
        } else {
            NO_HOP as int
        })
}

/// Tables that are relaxed cell by cell are the tables of the round.
pub proof fn lemma_relaxed_is_round(before: RouteModel, after: RouteModel, k: int)
    requires
        square(before, before.dist.len() as int),
        relaxed(before, after, k),
    ensures
        after == relax_round(before, k),
{
    let round = relax_round(before, k);
    assert forall|a: int| 0 <= a < after.dist.len() implies #[trigger] after.dist[a]
        =~= round.dist[a] by {
        assert forall|b: int| 0 <= b < after.dist[a].len() implies after.dist[a][b]
            == round.dist[a][b] by {
            assert(covers(before, a, b));
        }
    }
    assert forall|a: int| 0 <= a < after.next.len() implies #[trigger] after.next[a]
        =~= round.next[a] by {
        assert forall|b: int| 0 <= b < after.next[a].len() implies after.next[a][b]
            == round.next[a][b] by {
            assert(covers(before, a, b));
        }
    }
    assert(after.dist =~= round.dist);
    assert(after.next =~= round.next);
}

/// Tables that hold the direct links cell by cell are the direct tables.
pub proof fn lemma_direct_is_start(w: Seq<Seq<int>>, o: RouteModel)
    requires
        direct_only(w, o),
    ensures
        o == direct_routes(w),
{
    let start = direct_routes(w);
    assert forall|a: int| 0 <= a < o.dist.len() implies #[trigger] o.dist[a] =~= start.dist[a] by {
        assert forall|b: int| 0 <= b < o.dist[a].len() implies o.dist[a][b] == start.dist[a][b] by {
            assert(covers(o, a, b));
        }
    }
    assert forall|a: int| 0 <= a < o.next.len() implies #[trigger] o.next[a] =~= start.next[a] by {
        assert forall|b: int| 0 <= b < o.next[a].len() implies o.next[a][b] == start.next[a][b] by {
            assert(covers(o, a, b));
        }
    }
    assert(o.dist =~= start.dist);
    assert(o.next =~= start.next);
}

/// Every factory of a walk is a factory of the map.
pub proof fn lemma_walk_nodes(w: Seq<Seq<int>>, p: Seq<int>, t: int)
    requires
        is_walk(w, p),
        0 <= t < p.len(),
    ensures
        0 <= p[t] < w.len(),
{
    if t > 0 {
        assert(step_linked(w, p, t - 1));
    }
}

/// A stretch of a walk is a walk.
pub proof fn lemma_stretch(w: Seq<Seq<int>>, p: Seq<int>, from: int, to: int)
    requires
        is_walk(w, p),
        0 <= from <= to < p.len(),
    ensures
        is_walk(w, p.subrange(from, to + 1)),
        p.subrange(from, to + 1).first() == p[from],
        p.subrange(from, to + 1).last() == p[to],
{
    let q = p.subrange(from, to + 1);
    lemma_walk_nodes(w, p, from);
    assert forall|t: int| 0 <= t < q.len() - 1 implies #[trigger] step_linked(w, q, t) by {
        assert(step_linked(w, p, from + t));
    }
}

/// The links of a walk are those up to position `t` and those after it.
pub proof fn lemma_links_split(w: Seq<Seq<int>>, p: Seq<int>, t: int)
    requires
        0 <= t < p.len(),
    ensures
        links_total(w, p) == links_total(w, p.subrange(0, t + 1)) + links_total(
            w,
            p.subrange(t, p.len() as int),
        ),
    decreases t,
{
    if t == 0 {
        assert(p.subrange(0, p.len() as int) =~= p);
    } else {
        let q = p.drop_first();
        lemma_links_split(w, q, t - 1);
        assert(q.subrange(t - 1, q.len() as int) =~= p.subrange(t, p.len() as int));
        assert(p.subrange(0, t + 1).drop_first() =~= q.subrange(0, t));
    }
}

/// A walk's links add up to at least one turn each.
pub proof fn lemma_links_total_bound(w: Seq<Seq<int>>, p: Seq<int>)
    requires
        is_walk(w, p),
    ensures
        links_total(w, p) >= p.len() - 1,
    decreases p.len(),
{
    if p.len() > 1 {
        assert(step_linked(w, p, 0));
        lemma_stretch(w, p, 1, p.len() - 1);
        assert(p.subrange(1, p.len() as int) =~= p.drop_first());
        lemma_links_total_bound(w, p.drop_first());
    }
}

/// Passing through position `t` costs what the two parts cost, and one turn
/// for the stop between them.
pub proof fn lemma_cost_split(w: Seq<Seq<int>>, p: Seq<int>, t: int)
    requires
        is_walk(w, p),
        0 < t < p.len() - 1,
    ensures
        walk_cost(w, p) == walk_cost(w, p.subrange(0, t + 1)) + walk_cost(
            w,
            p.subrange(t, p.len() as int),
        ) + 1,
        walk_cost(w, p.subrange(0, t + 1)) >= 0,
        walk_cost(w, p.subrange(t, p.len() as int)) >= 0,
{
    lemma_links_split(w, p, t);
    lemma_stretch(w, p, 0, t);
    lemma_stretch(w, p, t, p.len() - 1);
    lemma_links_total_bound(w, p.subrange(0, t + 1));
    lemma_links_total_bound(w, p.subrange(t, p.len() as int));
}

/// Some factory that `p` passes is `k`, if all are at most `k` and not all
/// are below it.
proof fn lemma_find_pass(p: Seq<int>, k: int) -> (t: int)
    requires
        inner_below(p, k + 1),
        !inner_below(p, k),
    ensures
        0 < t < p.len() - 1,
        p[t] == k,
{
    let t = choose|t: int| 0 < t < p.len() - 1 && !(#[trigger] p[t] < k);
    t
}

/// A stretch of a walk passes no factory that the walk does not pass.
proof fn lemma_stretch_within(p: Seq<int>, k: int, from: int, to: int)
    requires
        inner_below(p, k),
        0 <= from <= to < p.len(),
    ensures
        inner_below(p.subrange(from, to + 1), k),
{
    let q = p.subrange(from, to + 1);
    assert forall|t: int| 0 < t < q.len() - 1 implies #[trigger] q[t] < k by {
        assert(q[t] == p[from + t]);
    }
}

/// No walk into `k` that passes only factories up to `k` beats the recorded
/// distance.
proof fn lemma_into(w: Seq<Seq<int>>, o: RouteModel, k: int, p: Seq<int>)
    requires
        valid_map(w),
        settled(w, o, k),
        is_walk(w, p),
        inner_below(p, k + 1),
        p.last() == k,
    ensures
        o.dist[p.first()][k] <= walk_cost(w, p),
    decreases p.len(),
{
    if inner_below(p, k) {
        assert(walk_within(w, p, k));
    } else {
        let t = lemma_find_pass(p, k);
        let head = p.subrange(0, t + 1);
        lemma_stretch(w, p, 0, t);
        lemma_stretch_within(p, k + 1, 0, t);
        lemma_into(w, o, k, head);
        lemma_cost_split(w, p, t);
    }
}

/// No walk out of `k` that passes only factories up to `k` beats the
/// recorded distance.
proof fn lemma_out_of(w: Seq<Seq<int>>, o: RouteModel, k: int, p: Seq<int>)
    requires
        valid_map(w),
        settled(w, o, k),
        is_walk(w, p),
        inner_below(p, k + 1),
        p.first() == k,
    ensures
        o.dist[k][p.last()] <= walk_cost(w, p),
    decreases p.len(),
{
    if inner_below(p, k) {
        assert(walk_within(w, p, k));
    } else {
        let t = lemma_find_pass(p, k);
        let rest = p.subrange(t, p.len() as int);
        lemma_stretch(w, p, t, p.len() - 1);
        lemma_stretch_within(p, k + 1, t, p.len() - 1);
        lemma_out_of(w, o, k, rest);
        lemma_cost_split(w, p, t);
    }
}

/// After the round for `k`, no walk that passes only factories up to `k`
/// beats the recorded distance.
proof fn lemma_round_bounds_walk(
    w: Seq<Seq<int>>,
    before: RouteModel,
    after: RouteModel,
    k: int,
    p: Seq<int>,
)
    requires
        valid_map(w),
        0 <= k < w.len(),
        settled(w, before, k),
        relaxed(before, after, k),
        is_walk(w, p),
        inner_below(p, k + 1),
    ensures
        after.dist[p.first()][p.last()] <= walk_cost(w, p),
{
    let a = p.first();
    let b = p.last();
    lemma_walk_nodes(w, p, 0);
    lemma_walk_nodes(w, p, p.len() - 1);
    assert(covers(before, a, b));
    assert(covers(before, a, k));
    assert(covers(before, k, b));
    assert(after.dist[a][b] == relaxed_dist(before, k, a, b));
    if inner_below(p, k) {
        assert(walk_within(w, p, k));
    } else {
        let t = lemma_find_pass(p, k);
        let head = p.subrange(0, t + 1);
        let rest = p.subrange(t, p.len() as int);
        lemma_stretch(w, p, 0, t);
        lemma_stretch(w, p, t, p.len() - 1);
        lemma_stretch_within(p, k + 1, 0, t);
        lemma_stretch_within(p, k + 1, t, p.len() - 1);
        lemma_into(w, before, k, head);
        lemma_out_of(w, before, k, rest);
        lemma_cost_split(w, p, t);
        assert(0 <= before.dist[a][k] <= MAX_INT);
        assert(0 <= before.dist[k][b] <= MAX_INT);
        assert(0 <= before.dist[a][b] <= MAX_INT);
    }
}

/// After the round for `k`, every recorded route still starts with a link
/// and pays for the rest.
proof fn lemma_round_keeps_hops(
    w: Seq<Seq<int>>,
    before: RouteModel,
    after: RouteModel,
    k: int,
    a: int,
    b: int,
)
    requires
        valid_map(w),
        0 <= k < w.len(),
        settled(w, before, k),
        relaxed(before, after, k),
        covers(before, a, b),
        a != b,
        after.dist[a][b] < MAX_INT,
    ensures
        linked(w, a, after.next[a][b]),
        after.dist[a][b] >= w[a][after.next[a][b]] + tail_cost(after, after.next[a][b], b),
{
    assert(covers(before, a, k) && covers(before, k, b) && covers(before, k, k));
    assert(after.dist[a][b] == relaxed_dist(before, k, a, b));
    assert(after.next[a][b] == relaxed_next(before, k, a, b));
    assert(0 <= before.dist[a][k] <= MAX_INT);
    assert(0 <= before.dist[k][b] <= MAX_INT);
    assert(before.dist[k][k] == 0) by {
        assert(before.dist[k][k] == (before.dist[k])[k]);
    }
    if improves(before, k, a, b) {
        assert(a != k);
        assert(b != k);
        let h = before.next[a][k];
        assert(linked(w, a, h));
        assert(covers(before, h, b) && covers(before, h, k));
        if h != b {
            assert(after.dist[h][b] == relaxed_dist(before, k, h, b));
            assert(after.dist[k][b] == relaxed_dist(before, k, k, b));
            if h != k {
                assert(0 <= before.dist[h][k] <= MAX_INT);
                assert(0 <= before.dist[h][b] <= MAX_INT);
            }
        }
    } else {
        let h = before.next[a][b];
        assert(linked(w, a, h));
        assert(covers(before, h, b));
        if h != b {
            assert(after.dist[h][b] == relaxed_dist(before, k, h, b));
        }
    }
}

/// One round carries the invariant from `k` to `k + 1`.
pub proof fn lemma_round_settles(
    w: Seq<Seq<int>>,
    before: RouteModel,
    after: RouteModel,
    k: int,
)
    requires
        valid_map(w),
        0 <= k < w.len(),
        settled(w, before, k),
        relaxed(before, after, k),
    ensures
        settled(w, after, k + 1),
{
    assert(before.dist[k][k] == 0) by {
        assert(before.dist[k][k] == (before.dist[k])[k]);
    }
    assert forall|a: int, b: int| covers(after, a, b) implies 0 <= #[trigger] after.dist[a][b]
        <= MAX_INT && after.dist[a][b] == after.dist[b][a] && (0 <= after.next[a][b] < w.len()
        || after.next[a][b] == NO_HOP) && (after.dist[a][b] == MAX_INT ==> after.next[a][b]
        == NO_HOP) by {
        assert(covers(before, a, b) && covers(before, b, a));
        assert(covers(before, a, k) && covers(before, k, b));
        assert(covers(before, b, k) && covers(before, k, a));
        assert(after.dist[a][b] == relaxed_dist(before, k, a, b));
        assert(after.dist[b][a] == relaxed_dist(before, k, b, a));
        assert(after.next[a][b] == relaxed_next(before, k, a, b));
        assert(0 <= before.dist[a][k] <= MAX_INT);
        assert(0 <= before.dist[k][b] <= MAX_INT);
        assert(before.dist[a][k] == before.dist[k][a]);
        assert(before.dist[k][b] == before.dist[b][k]);
        assert(before.dist[a][b] == before.dist[b][a]);
        assert(0 <= before.dist[a][b] <= MAX_INT);
        assert(0 <= before.next[a][b] < w.len() || before.next[a][b] == NO_HOP);
        if improves(before, k, a, b) {
            assert(a != k);
            assert(linked(w, a, before.next[a][k]));
        }
    }
    assert forall|a: int| 0 <= a < w.len() implies (#[trigger] after.dist[a])[a] == 0 && (
    #[trigger] after.next[a])[a] == a by {
        assert(covers(before, a, a) && covers(before, a, k) && covers(before, k, a));
        assert(after.dist[a][a] == relaxed_dist(before, k, a, a));
        assert(after.next[a][a] == relaxed_next(before, k, a, a));
        assert((before.dist[a])[a] == 0);
        assert((before.next[a])[a] == a);
        assert(0 <= before.dist[a][k] <= MAX_INT);
        assert(0 <= before.dist[k][a] <= MAX_INT);
    }
    assert forall|a: int, b: int|
        covers(after, a, b) && a != b && after.dist[a][b] < MAX_INT implies linked(
        w,
        a,
        #[trigger] after.next[a][b],
    ) && after.dist[a][b] >= w[a][after.next[a][b]] + tail_cost(after, after.next[a][b], b) by {
        lemma_round_keeps_hops(w, before, after, k, a, b);
    }
    assert forall|p: Seq<int>| #[trigger] walk_within(w, p, k + 1) implies after.dist[p.first()][p.last()]
        <= walk_cost(w, p) by {
        lemma_round_bounds_walk(w, before, after, k, p);
    }
}

/// Before the first round the invariant holds of the direct links.
pub proof fn lemma_direct_links_settled(w: Seq<Seq<int>>, o: RouteModel)
    requires
        valid_map(w),
        direct_only(w, o),
    ensures
        settled(w, o, 0),
{
    assert forall|a: int| 0 <= a < w.len() implies (#[trigger] o.dist[a])[a] == 0 && (
    #[trigger] o.next[a])[a] == a by {
        assert(covers(o, a, a));
        assert(o.dist[a][a] == 0);
        assert(o.next[a][a] == a);
    }
    assert forall|a: int, b: int| covers(o, a, b) implies #[trigger] o.dist[a][b]
        == o.dist[b][a] by {
        assert(covers(o, b, a));
        assert(w[a][b] == w[b][a]);
    }
    assert forall|p: Seq<int>| #[trigger] walk_within(w, p, 0) implies o.dist[p.first()][p.last()]
        <= walk_cost(w, p) by {
        lemma_walk_nodes(w, p, 0);
        if p.len() >= 3 {
            lemma_walk_nodes(w, p, 1);
            assert(p[1] < 0);
        } else if p.len() == 2 {
            assert(step_linked(w, p, 0));
            assert(links_total(w, p.drop_first()) == 0);
            assert((w[p[0]])[p[0]] == 0);
            assert(covers(o, p[0], p[1]));
        } else {
            assert(covers(o, p[0], p[0]));
        }
    }
}

/// Following the next hops from `a` to `b` is a walk that costs no more than
/// the recorded distance.
pub proof fn lemma_route_walks(w: Seq<Seq<int>>, o: RouteModel, a: int, b: int)
    requires
        valid_map(w),
        settled(w, o, w.len() as int),
        covers(o, a, b),
        o.dist[a][b] < MAX_INT,
    ensures
        is_walk(w, route(o, a, b)),
        route(o, a, b).first() == a,
        route(o, a, b).last() == b,
        walk_cost(w, route(o, a, b)) <= o.dist[a][b],
    decreases o.dist[a][b],
{
    let r = route(o, a, b);
    assert(0 <= o.dist[a][b]);
    if a == b {
        assert(r =~= seq![a]);
    } else {
        let h = o.next[a][b];
        assert(linked(w, a, h));
        assert(covers(o, h, b));
        assert(0 <= o.dist[h][b] <= MAX_INT);
        assert(o.dist[h][h] == 0) by {
            assert(o.dist[h][h] == (o.dist[h])[h]);
        }
        assert(o.dist[h][b] < o.dist[a][b]);
        lemma_route_walks(w, o, h, b);
        let r2 = route(o, h, b);
        assert(r =~= seq![a] + r2);
        assert(r.drop_first() =~= r2);
        assert forall|t: int| 0 <= t < r.len() - 1 implies #[trigger] step_linked(w, r, t) by {
            if t > 0 {
                assert(step_linked(w, r2, t - 1));
            }
        }
        assert(links_total(w, r) == w[a][h] + links_total(w, r2));
        if h == b {
            assert(r2 =~= seq![b]);
        } else {
            assert(r2.len() >= 2);
        }
    }
}

/// Once every factory was relaxed through, the tables hold the shortest
/// routes of the map.
pub proof fn lemma_settled_is_shortest(w: Seq<Seq<int>>, o: RouteModel)
    requires
        valid_map(w),
        settled(w, o, w.len() as int),
    ensures
        shortest_routes(w, o),
        forall|a: int, b: int|
            covers(o, a, b) && a != b && o.dist[a][b] < MAX_INT ==> 0 <= #[trigger] o.next[a][b]
                < o.dist.len() && o.dist[o.next[a][b]][b] < o.dist[a][b],
{
    assert forall|p: Seq<int>| #[trigger] is_walk(w, p) implies o.dist[p.first()][p.last()]
        <= walk_cost(w, p) by {
        assert forall|t: int| 0 < t < p.len() - 1 implies #[trigger] p[t] < w.len() by {
            lemma_walk_nodes(w, p, t);
        }
        assert(walk_within(w, p, w.len() as int));
    }
    assert forall|a: int, b: int| covers(o, a, b) && o.dist[a][b] < MAX_INT implies {
        let r = #[trigger] route(o, a, b);
        &&& is_walk(w, r)
        &&& r.first() == a
        &&& r.last() == b
        &&& walk_cost(w, r) == o.dist[a][b]
    } by {
        lemma_route_walks(w, o, a, b);
    }
    assert forall|a: int, b: int|
        covers(o, a, b) && a != b && o.dist[a][b] < MAX_INT implies 0 <= #[trigger] o.next[a][b]
        < o.dist.len() && o.dist[o.next[a][b]][b] < o.dist[a][b] by {
        let h = o.next[a][b];
        assert(linked(w, a, h));
        assert(covers(o, h, b));
        assert(0 <= o.dist[h][b]);
        assert(o.dist[a][b] >= w[a][h] + tail_cost(o, h, b));
        assert(o.dist[b][b] == 0) by {
            assert(o.dist[b][b] == (o.dist[b])[b]);
        }
    }
}

} // verus!
