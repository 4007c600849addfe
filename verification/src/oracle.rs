//! The distance oracle: all-pairs shortest routes, the next-hop table that
//! spells them out, and how central each factory is.

use vstd::prelude::*;
use crate::graph::{valid_map, GraphModel, MAX_INT, NUM_FACTORIES};
use crate::relaxation::{
    direct_only, lemma_direct_is_start, lemma_direct_links_settled, lemma_relaxed_is_round,
    lemma_round_settles, lemma_settled_is_shortest, relaxed, settled, square,
};
use crate::routes::{
    charts, coherent, coherent_routes, counts_interior_hops, covers, distance_between,
    hits_before, improves, interior_hits, pair_hits, relax_round, relaxed_dist, relaxed_next,
    rounds, route, row_hits, OracleModel, RouteModel, NO_HOP,
};
use crate::tables::{hops_of, is_square, scores_of, table_of, write_pair};

verus! {

/// The routing tables that two vectors of rows hold.
spec fn tables_model(dist: Vec<Vec<i32>>, next: Vec<Vec<usize>>) -> RouteModel {
    RouteModel { dist: table_of(dist), next: hops_of(next) }
}

/// The factory ids of `nodes` as integers.
pub open spec fn ids(nodes: Seq<usize>) -> Seq<int> {
    Seq::new(nodes.len(), |t: int| nodes[t] as int)
}

/// Shortest distances, next hops and centrality scores of one map, computed
/// once and read-only afterwards.
pub struct DistanceOracle {
    dist: Vec<Vec<i32>>,
    next: Vec<Vec<usize>>,
    centrality: Vec<i32>,
}

impl View for DistanceOracle {
    type V = OracleModel;

    closed spec fn view(&self) -> OracleModel {
        OracleModel {
            routes: tables_model(self.dist, self.next),
            centrality: scores_of(self.centrality),
        }
    }
}

/// Square vectors of rows hold a square model, cell for cell.
proof fn lemma_tables_match(dist: Vec<Vec<i32>>, next: Vec<Vec<usize>>, n: int)
    ensures
        is_square(dist, n) && is_square(next, n) <==> square(tables_model(dist, next), n),
        forall|a: int, b: int|
            0 <= a < dist.len() && 0 <= b < dist[a].len() ==> #[trigger] table_of(dist)[a][b]
                == dist[a][b],
        forall|a: int, b: int|
            0 <= a < next.len() && 0 <= b < next[a].len() ==> #[trigger] hops_of(next)[a][b]
                == next[a][b],
{
    let o = tables_model(dist, next);
    if is_square(dist, n) && is_square(next, n) {
        assert(square(o, n));
    }
    if square(o, n) {
        assert forall|x: int| 0 <= x < n implies (#[trigger] dist[x]).len() == n by {
            assert(o.dist[x].len() == n);
        }
        assert forall|x: int| 0 <= x < n implies (#[trigger] next[x]).len() == n by {
            assert(o.next[x].len() == n);
        }
    }
}

/// The tables before any relaxation: 0 on the diagonal, the link distance
/// where two factories are linked, `MAX_INT` elsewhere.
fn direct_tables(graph: &GraphModel) -> (tables: (Vec<Vec<i32>>, Vec<Vec<usize>>))
    ensures
        direct_only(graph@, tables_model(tables.0, tables.1)),
{
    proof {
        use_type_invariant(graph);
    }
    let n = graph.factory_count();
    let mut dist: Vec<Vec<i32>> = Vec::new();
    let mut next: Vec<Vec<usize>> = Vec::new();
    let mut a: usize = 0;
    while a < n
        invariant
            a <= n,
            n == graph@.len(),
            valid_map(graph@),
            dist.len() == a,
            next.len() == a,
            forall|x: int| 0 <= x < a ==> (#[trigger] dist[x]).len() == n,
            forall|x: int| 0 <= x < a ==> (#[trigger] next[x]).len() == n,
            forall|x: int, y: int|
                0 <= x < a && 0 <= y < n ==> #[trigger] dist[x][y] == (if x == y {
                    0
                } else if graph@[x][y] > 0 {
                    graph@[x][y]
                } else {
                    MAX_INT as int
                }),
            forall|x: int, y: int|
                0 <= x < a && 0 <= y < n ==> #[trigger] next[x][y] == (if x == y {
                    x
                } else if graph@[x][y] > 0 {
                    y
                } else {
                    NO_HOP as int
                }),
        decreases n - a,
    {
        let mut dist_row: Vec<i32> = Vec::new();
        let mut next_row: Vec<usize> = Vec::new();
        let mut b: usize = 0;
        while b < n
            invariant
                a < n,
                b <= n,
                n == graph@.len(),
                valid_map(graph@),
                dist_row.len() == b,
                next_row.len() == b,
                forall|y: int|
                    0 <= y < b ==> #[trigger] dist_row[y] == (if a == y {
                        0
                    } else if graph@[a as int][y] > 0 {
                        graph@[a as int][y]
                    } else {
                        MAX_INT as int
                    }),
                forall|y: int|
                    0 <= y < b ==> #[trigger] next_row[y] == (if a == y {
                        a as int
                    } else if graph@[a as int][y] > 0 {
                        y
                    } else {
                        NO_HOP as int
                    }),
            decreases n - b,
        {
            if a == b {
                dist_row.push(0);
                next_row.push(a);
            } else {
                match graph.link_distance(a, b) {
                    Some(d) => {
                        dist_row.push(d);
                        next_row.push(b);
                    },
                    None => {
                        dist_row.push(MAX_INT);
                        next_row.push(NO_HOP);
                    },
                }
            }
            b += 1;
        }
        dist.push(dist_row);
        next.push(next_row);
        a += 1;
    }
    proof {
        lemma_tables_match(dist, next, n as int);
    }
    (dist, next)
}

/// The pair `(a, b)` comes before `(i, j)` in the order of one round, which
/// takes the pairs `i < j` row by row.
spec fn relaxed_yet(a: int, b: int, i: int, j: int) -> bool {
    let lo = if a <= b {
        a
    } else {
        b
    };
    let hi = if a <= b {
        b
    } else {
        a
    };
    lo < i || (lo == i && hi < j)
}

/// One round: relaxes every pair through factory `k`.
fn relax_through(
    dist: &mut Vec<Vec<i32>>,
    next: &mut Vec<Vec<usize>>,
    k: usize,
    Ghost(w): Ghost<Seq<Seq<int>>>,
)
    requires
        valid_map(w),
        k < w.len(),
        settled(w, tables_model(*old(dist), *old(next)), k as int),
    ensures
        settled(w, tables_model(*final(dist), *final(next)), k + 1),
        tables_model(*final(dist), *final(next)) == relax_round(
            tables_model(*old(dist), *old(next)),
            k as int,
        ),
{
    let ghost before = tables_model(*dist, *next);
    let n = dist.len();
    proof {
        lemma_tables_match(*dist, *next, w.len() as int);
        assert(before.dist[k as int][k as int] == 0) by {
            assert((before.dist[k as int])[k as int] == 0);
        }
        assert forall|a: int, b: int|
            0 <= a < n && 0 <= b < n && (a == b || a == k || b == k) implies !improves(
            before,
            k as int,
            a,
            b,
        ) by {
            assert(covers(before, a, b) && covers(before, a, k as int) && covers(
                before,
                k as int,
                b,
            ));
            assert(0 <= before.dist[a][k as int]);
            assert(0 <= before.dist[k as int][b]);
            assert(0 <= before.dist[a][b]);
            assert((before.dist[a])[a] == 0);
        }
    }
    let mut i: usize = 0;
    while i < n
        invariant
            i <= n,
            n == w.len(),
            k < n,
            n <= NUM_FACTORIES,
            settled(w, before, k as int),
            is_square(*dist, n as int),
            is_square(*next, n as int),
            forall|a: int, b: int|
                0 <= a < n && 0 <= b < n && (a == b || a == k || b == k) ==> !improves(
                    before,
                    k as int,
                    a,
                    b,
                ),
            forall|a: int, b: int|
                0 <= a < n && 0 <= b < n ==> #[trigger] dist[a][b] == (if relaxed_yet(
                    a,
                    b,
                    i as int,
                    0,
                ) {
                    relaxed_dist(before, k as int, a, b)
                } else {
                    before.dist[a][b]
                }),
            forall|a: int, b: int|
                0 <= a < n && 0 <= b < n ==> #[trigger] next[a][b] == (if relaxed_yet(
                    a,
                    b,
                    i as int,
                    0,
                ) {
                    relaxed_next(before, k as int, a, b)
                } else {
                    before.next[a][b]
                }),
        decreases n - i,
    {
        let mut j: usize = i + 1;
        while j < n
            invariant
                i < n,
                i < j <= n,
                n == w.len(),
                k < n,
                n <= NUM_FACTORIES,
                settled(w, before, k as int),
                is_square(*dist, n as int),
                is_square(*next, n as int),
                forall|a: int, b: int|
                    0 <= a < n && 0 <= b < n && (a == b || a == k || b == k) ==> !improves(
                        before,
                        k as int,
                        a,
                        b,
                    ),
                forall|a: int, b: int|
                    0 <= a < n && 0 <= b < n ==> #[trigger] dist[a][b] == (if relaxed_yet(
                        a,
                        b,
                        i as int,
                        j as int,
                    ) {
                        relaxed_dist(before, k as int, a, b)
                    } else {
                        before.dist[a][b]
                    }),
                forall|a: int, b: int|
                    0 <= a < n && 0 <= b < n ==> #[trigger] next[a][b] == (if relaxed_yet(
                        a,
                        b,
                        i as int,
                        j as int,
                    ) {
                        relaxed_next(before, k as int, a, b)
                    } else {
                        before.next[a][b]
                    }),
            decreases n - j,
        {
            let to_k = dist[i][k];
            let from_k = dist[k][j];
            proof {
                assert(covers(before, i as int, k as int) && covers(before, k as int, j as int));
                assert(covers(before, i as int, j as int) && covers(before, j as int, i as int));
                assert(covers(before, j as int, k as int) && covers(before, k as int, i as int));
                assert(to_k == before.dist[i as int][k as int]);
                assert(from_k == before.dist[k as int][j as int]);
                assert(before.dist[j as int][k as int] == before.dist[k as int][j as int]);
                assert(before.dist[k as int][i as int] == before.dist[i as int][k as int]);
                assert(before.dist[j as int][i as int] == before.dist[i as int][j as int]);
                assert(0 <= to_k <= MAX_INT && 0 <= from_k <= MAX_INT);
                assert(dist[i as int][j as int] == before.dist[i as int][j as int]);
                assert(dist[j as int][i as int] == before.dist[j as int][i as int]);
            }
            if to_k < MAX_INT && from_k < MAX_INT {
                let through = to_k + from_k + 1;
                if through < dist[i][j] {
                    let out_hop = next[i][k];
                    let back_hop = next[j][k];
                    assert(out_hop == before.next[i as int][k as int]);
                    assert(back_hop == before.next[j as int][k as int]);
                    write_pair(dist, i, j, through, through);
                    write_pair(next, i, j, out_hop, back_hop);
                }
            }
            j += 1;
        }
        i += 1;
    }
    proof {
        let after = tables_model(*dist, *next);
        lemma_tables_match(*dist, *next, n as int);
        assert(relaxed(before, after, k as int));
        lemma_round_settles(w, before, after, k as int);
        lemma_relaxed_is_round(before, after, k as int);
    }
}

/// Walks the route of every pair `u < v` and adds 2 to each factory that it
/// passes between the ends.
fn count_interior_hops(dist: &Vec<Vec<i32>>, next: &Vec<Vec<usize>>) -> (scores: Vec<i32>)
    requires
        coherent_routes(tables_model(*dist, *next)),
    ensures
        coherent(OracleModel { routes: tables_model(*dist, *next), centrality: scores_of(scores) }),
        counts_interior_hops(
            OracleModel { routes: tables_model(*dist, *next), centrality: scores_of(scores) },
        ),
{
    let ghost o = tables_model(*dist, *next);
    let n = dist.len();
    proof {
        lemma_tables_match(*dist, *next, n as int);
    }
    let mut scores: Vec<i32> = Vec::new();
    let mut x: usize = 0;
    while x < n
        invariant
            x <= n,
            scores.len() == x,
            forall|y: int| 0 <= y < x ==> #[trigger] scores[y] == 0,
        decreases n - x,
    {
        scores.push(0);
        x += 1;
    }
    let ghost mut steps: int = 0;
    let mut u: usize = 0;
    while u < n
        invariant
            u <= n,
            n == dist.len(),
            n <= NUM_FACTORIES,
            o == tables_model(*dist, *next),
            coherent_routes(o),
            is_square(*dist, n as int),
            is_square(*next, n as int),
            scores.len() == n,
            0 <= steps <= u * 15 * MAX_INT,
            forall|y: int| 0 <= y < n ==> 0 <= #[trigger] scores[y] <= 2 * steps,
            forall|y: int| 0 <= y < n ==> #[trigger] scores[y] == 2 * pair_hits(o, y, u as int),
        decreases n - u,
    {
        let mut v: usize = u + 1;
        while v < n
            invariant
                u < n,
                u < v <= n,
                n == dist.len(),
                n <= NUM_FACTORIES,
                o == tables_model(*dist, *next),
                coherent_routes(o),
                is_square(*dist, n as int),
                is_square(*next, n as int),
                scores.len() == n,
                0 <= steps <= (u * 15 + (v - u - 1)) * MAX_INT,
                forall|y: int| 0 <= y < n ==> 0 <= #[trigger] scores[y] <= 2 * steps,
                forall|y: int|
                    0 <= y < n ==> #[trigger] scores[y] == 2 * (pair_hits(o, y, u as int)
                        + row_hits(o, y, u as int, v as int)),
            decreases n - v,
        {
            let ghost r = route(o, u as int, v as int);
            let ghost steps_at_pair = steps;
            proof {
                lemma_tables_match(*dist, *next, n as int);
                assert(covers(o, u as int, v as int));
            }
            if dist[u][v] < MAX_INT {
                let mut current = next[u][v];
                let ghost mut t: int = 1;
                proof {
                    assert(0 <= o.next[u as int][v as int] < n);
                    assert(covers(o, current as int, v as int));
                    assert(r =~= seq![u as int] + route(o, current as int, v as int));
                    assert(r.subrange(1, r.len() as int) =~= route(o, current as int, v as int));
                    assert(0 <= o.dist[u as int][v as int] <= MAX_INT);
                }
                while current != v
                    invariant
                        u < v < n,
                        n == dist.len(),
                        n <= NUM_FACTORIES,
                        o == tables_model(*dist, *next),
                        coherent_routes(o),
                        is_square(*dist, n as int),
                        is_square(*next, n as int),
                        scores.len() == n,
                        r == route(o, u as int, v as int),
                        current < n,
                        1 <= t < r.len(),
                        r.subrange(t, r.len() as int) == route(o, current as int, v as int),
                        0 <= o.dist[current as int][v as int] < MAX_INT,
                        steps_at_pair <= (u * 15 + (v - u - 1)) * MAX_INT,
                        0 <= steps_at_pair <= steps,
                        steps - steps_at_pair + o.dist[current as int][v as int] < MAX_INT,
                        forall|y: int| 0 <= y < n ==> 0 <= #[trigger] scores[y] <= 2 * steps,
                        forall|y: int|
                            0 <= y < n ==> #[trigger] scores[y] == 2 * (pair_hits(o, y, u as int)
                                + row_hits(o, y, u as int, v as int) + hits_before(r, y, t)),
                    decreases o.dist[current as int][v as int],
                {
                    let hop = next[current][v];
                    proof {
                        lemma_tables_match(*dist, *next, n as int);
                        assert(covers(o, current as int, v as int));
                        assert(0 <= o.next[current as int][v as int] < n);
                        assert(covers(o, hop as int, v as int));
                        assert(0 <= o.dist[hop as int][v as int]);
                        let rest = route(o, current as int, v as int);
                        assert(rest =~= seq![current as int] + route(o, hop as int, v as int));
                        assert(r[t] == rest[0]);
                        assert(r.subrange(t + 1, r.len() as int) =~= rest.drop_first());
                        assert(rest.drop_first() =~= route(o, hop as int, v as int));
                        assert(r.len() - t == rest.len());
                        if hop == v {
                            assert(route(o, hop as int, v as int) =~= seq![v as int]);
                        } else {
                            assert(0 <= o.next[hop as int][v as int] < n);
                            assert(route(o, hop as int, v as int).len() >= 1);
                        }
                    }
                    let score = scores[current];
                    scores[current] = score + 2;
                    proof {
                        steps = steps + 1;
                        t = t + 1;
                    }
                    current = hop;
                }
                proof {
                    assert(route(o, v as int, v as int) =~= seq![v as int]);
                    assert(r.subrange(t, r.len() as int).len() == 1);
                    assert(t == r.len() - 1);
                    assert forall|y: int| 0 <= y < n implies interior_hits(r, y) == hits_before(
                        r,
                        y,
                        t,
                    ) by {}
                }
            } else {
                proof {
                    assert(r.len() == 0);
                    assert forall|y: int| 0 <= y < n implies interior_hits(r, y) == 0 by {}
                }
            }
            proof {
                assert(steps <= steps_at_pair + MAX_INT);
            }
            v += 1;
        }
        proof {
            assert(steps <= (u * 15 + 14) * MAX_INT);
        }
        u += 1;
    }
    proof {
        lemma_tables_match(*dist, *next, n as int);
    }
    scores
}

/// Computes the oracle of a map: relaxes every pair of factories through
/// each factory in turn, in ascending order, then counts how often each
/// factory lies inside a shortest route.
pub fn floyd_warshall(graph: &GraphModel) -> (oracle: DistanceOracle)
    ensures
        charts(oracle@, graph@),
{
    proof {
        use_type_invariant(graph);
    }
    let n = graph.factory_count();
    let (mut dist, mut next) = direct_tables(graph);
    proof {
        lemma_direct_links_settled(graph@, tables_model(dist, next));
        lemma_direct_is_start(graph@, tables_model(dist, next));
    }
    let mut k: usize = 0;
    while k < n
        invariant
            k <= n,
            n == graph@.len(),
            valid_map(graph@),
            settled(graph@, tables_model(dist, next), k as int),
            tables_model(dist, next) == rounds(graph@, k as int),
        decreases n - k,
    {
        relax_through(&mut dist, &mut next, k, Ghost(graph@));
        k += 1;
    }
    proof {
        lemma_settled_is_shortest(graph@, tables_model(dist, next));
        lemma_tables_match(dist, next, n as int);
    }
    let centrality = count_interior_hops(&dist, &next);
    DistanceOracle { dist, next, centrality }
}

impl DistanceOracle {
    #[verifier::type_invariant]
    pub open spec fn well_formed(&self) -> bool {
        coherent(self@)
    }

    /// How many factories the oracle covers.
    pub fn factory_count(&self) -> (n: usize)
        ensures
            n == self@.routes.dist.len(),
            n <= NUM_FACTORIES,
    {
        proof {
            use_type_invariant(self);
        }
        self.dist.len()
    }

    /// The cost of the shortest route from `a` to `b`; `MAX_INT` where there
    /// is none or where the oracle does not cover one of the two.
    pub fn distance(&self, a: usize, b: usize) -> (d: i32)
        ensures
            d == distance_between(self@.routes, a as int, b as int),
            0 <= d <= MAX_INT,
    {
        proof {
            use_type_invariant(self);
            lemma_tables_match(self.dist, self.next, self.dist.len() as int);
        }
        if a < self.dist.len() && b < self.dist.len() {
            self.dist[a][b]
        } else {
            MAX_INT
        }
    }

    /// The factory to move to first on the shortest route from `a` to `b`:
    /// `a` itself where `a == b`, and `None` where there is no route.
    pub fn next_hop(&self, a: usize, b: usize) -> (hop: Option<usize>)
        ensures
            hop == (if distance_between(self@.routes, a as int, b as int) < MAX_INT {
                Some(self@.routes.next[a as int][b as int] as usize)
            } else {
                None
            }),
            hop matches Some(h) ==> h < self@.routes.dist.len(),
    {
        proof {
            use_type_invariant(self);
            lemma_tables_match(self.dist, self.next, self.dist.len() as int);
        }
        if a < self.dist.len() && b < self.dist.len() && self.dist[a][b] < MAX_INT {
            assert(covers(self@.routes, a as int, b as int));
            assert(a == b ==> (self@.routes.next[a as int])[a as int] == a);
            Some(self.next[a][b])
        } else {
            None
        }
    }

    /// The shortest route from `start` to `end`, both included; empty where
    /// there is none.
    pub fn path(&self, start: usize, end: usize) -> (nodes: Vec<usize>)
        ensures
            ids(nodes@) == route(self@.routes, start as int, end as int),
    {
        proof {
            use_type_invariant(self);
            lemma_tables_match(self.dist, self.next, self.dist.len() as int);
        }
        let ghost o = self@.routes;
        let n = self.dist.len();
        let mut nodes: Vec<usize> = Vec::new();
        if !(start < n && end < n && self.dist[start][end] < MAX_INT) {
            assert(ids(nodes@) =~= route(o, start as int, end as int));
            return nodes;
        }
        let ghost r = route(o, start as int, end as int);
        let mut current = start;
        nodes.push(current);
        proof {
            assert(covers(o, start as int, end as int));
            assert(0 <= o.dist[start as int][end as int]);
        }
        while current != end
            invariant
                o == self@.routes,
                coherent_routes(o),
                n == self.dist.len(),
                is_square(self.dist, n as int),
                is_square(self.next, n as int),
                current < n,
                end < n,
                nodes.len() >= 1,
                nodes[nodes.len() - 1] == current,
                0 <= o.dist[current as int][end as int] < MAX_INT,
                r == route(o, start as int, end as int),
                r == ids(nodes@.drop_last()) + route(o, current as int, end as int),
            decreases o.dist[current as int][end as int],
        {
            let hop = self.next[current][end];
            let ghost walked = nodes@;
            proof {
                lemma_tables_match(self.dist, self.next, n as int);
                assert(covers(o, current as int, end as int));
                assert(0 <= o.next[current as int][end as int] < n);
                assert(covers(o, hop as int, end as int));
                assert(0 <= o.dist[hop as int][end as int]);
                assert(route(o, current as int, end as int) =~= seq![current as int] + route(
                    o,
                    hop as int,
                    end as int,
                ));
            }
            nodes.push(hop);
            current = hop;
            proof {
                assert(nodes@.drop_last() =~= walked);
                assert(ids(walked) =~= ids(walked.drop_last()) + seq![walked.last() as int]);
                assert(r =~= ids(nodes@.drop_last()) + route(o, current as int, end as int));
            }
        }
        proof {
            assert(route(o, end as int, end as int) =~= seq![end as int]);
            assert(ids(nodes@) =~= ids(nodes@.drop_last()) + seq![end as int]);
        }
        nodes
    }

    /// How central factory `x` is: twice the number of pairs of other
    /// factories whose shortest route passes through it; 0 for a factory
    /// that the oracle does not cover.
    pub fn centrality(&self, x: usize) -> (score: i32)
        ensures
            score == (if x < self@.centrality.len() {
                self@.centrality[x as int]
            } else {
                0
            }),
            score >= 0,
    {
        proof {
            use_type_invariant(self);
        }
        if x < self.centrality.len() {
            assert(self@.centrality[x as int] == self.centrality[x as int]);
            self.centrality[x]
        } else {
            0
        }
    }
}

} // verus!
