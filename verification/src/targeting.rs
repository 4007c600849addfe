//! Picking factories by distance: the frontline, and where a bomb goes.

use vstd::prelude::*;
use crate::graph::MAX_INT;
use crate::oracle::DistanceOracle;
use crate::routes::{distance_between, RouteModel};
use crate::world::{nearest_distance, Base, ENEMY_CODE, MY_CODE};

verus! {

/// Position `i` of `factories` holds a factory of the opponent.
pub open spec fn is_enemy(factories: Seq<Base>, i: int) -> bool {
    0 <= i < factories.len() && factories[i].owner == ENEMY_CODE
}

/// Position `i` of `factories` holds a factory of this player.
pub open spec fn is_own(factories: Seq<Base>, i: int) -> bool {
    0 <= i < factories.len() && factories[i].owner == MY_CODE
}

/// The distance from the factory at position `i` to the nearest factory of
/// this player; `MAX_INT` where none can be reached.
pub open spec fn reach(o: RouteModel, factories: Seq<Base>, i: int) -> int {
    nearest_distance(factories[i], o, factories, MY_CODE, true, factories.len() as int)
}

/// The factory at position `i` is the frontline: an opposing factory that
/// this player can reach, none of the others nearer to this player, and the
/// first in the list among those equally near.
pub open spec fn frontline_at(o: RouteModel, factories: Seq<Base>, i: int) -> bool {
    &&& is_enemy(factories, i)
    &&& reach(o, factories, i) < MAX_INT
    &&& forall|c: int| #[trigger]
        is_enemy(factories, c) ==> reach(o, factories, c) >= reach(o, factories, i)
    &&& forall|c: int|
        0 <= c < i && #[trigger] is_enemy(factories, c) ==> reach(o, factories, c) > reach(
            o,
            factories,
            i,
        )
}

/// The id of the frontline factory, or `None` where this player can reach
/// no opposing factory.
pub open spec fn frontline_of(o: RouteModel, factories: Seq<Base>) -> Option<usize> {
    if exists|i: int| frontline_at(o, factories, i) {
        Some(factories[choose|i: int| frontline_at(o, factories, i)].entity_id)
    } else {
        None
    }
}

/// At most one position holds the frontline.
pub proof fn lemma_one_frontline(o: RouteModel, factories: Seq<Base>, i: int, j: int)
    requires
        frontline_at(o, factories, i),
        frontline_at(o, factories, j),
    ensures
        i == j,
{
    if i < j {
        assert(is_enemy(factories, i));
    } else if j < i {
        assert(is_enemy(factories, j));
    }
}

/// The opposing factory that is nearest to any factory of this player.
pub fn find_frontline_factory(oracle: &DistanceOracle, factories: &[Base]) -> (found: Option<usize>)
    ensures
        found == frontline_of(oracle@.routes, factories@),
        found is None <==> forall|c: int| #[trigger]
            is_enemy(factories@, c) ==> reach(oracle@.routes, factories@, c) >= MAX_INT,
{
    let mut frontline_factory: Option<usize> = None;
    let mut frontline_distance: i32 = MAX_INT;
    let ghost mut at: int = 0;
    let mut i: usize = 0;
    while i < factories.len()
        invariant
            i <= factories.len(),
            0 <= frontline_distance <= MAX_INT,
            forall|c: int|
                0 <= c < i && #[trigger] is_enemy(factories@, c) ==> reach(
                    oracle@.routes,
                    factories@,
                    c,
                ) >= frontline_distance,
            match frontline_factory {
                Some(id) => {
                    &&& 0 <= at < i
                    &&& is_enemy(factories@, at)
                    &&& factories[at].entity_id == id
                    &&& reach(oracle@.routes, factories@, at) == frontline_distance
                    &&& frontline_distance < MAX_INT
                    &&& forall|c: int|
                        0 <= c < at && #[trigger] is_enemy(factories@, c) ==> reach(
                            oracle@.routes,
                            factories@,
                            c,
                        ) > frontline_distance
                },
                None => frontline_distance == MAX_INT,
            },
        decreases factories.len() - i,
    {
        if factories[i].owner == ENEMY_CODE {
            let (_, nearest) = factories[i].closest_matching(oracle, factories, MY_CODE, true);
            if nearest < frontline_distance {
                frontline_distance = nearest;
                frontline_factory = Some(factories[i].entity_id);
                proof {
                    at = i as int;
                }
            }
        }
        i += 1;
    }
    proof {
        if frontline_factory is Some {
            assert(frontline_at(oracle@.routes, factories@, at));
            let chosen = choose|i: int| frontline_at(oracle@.routes, factories@, i);
            lemma_one_frontline(oracle@.routes, factories@, at, chosen);
        } else {
            assert forall|i: int| !frontline_at(oracle@.routes, factories@, i) by {
                if is_enemy(factories@, i) {
                    assert(reach(oracle@.routes, factories@, i) >= MAX_INT);
                }
            }
        }
    }
    frontline_factory
}

/// Position `t` holds an opposing factory that no opposing factory
/// outproduces.
pub open spec fn is_top_enemy(factories: Seq<Base>, t: int) -> bool {
    &&& is_enemy(factories, t)
    &&& forall|c: int| #[trigger]
        is_enemy(factories, c) ==> factories[c].production <= factories[t].production
}

/// The distance between the factories at positions `s` and `t`.
pub open spec fn pair_distance(o: RouteModel, factories: Seq<Base>, s: int, t: int) -> int {
    distance_between(o, factories[s].entity_id as int, factories[t].entity_id as int)
}

/// A bomb may go from position `s` to position `t`: from a factory of this
/// player to one of the opponent's most productive factories.
pub open spec fn bomb_pair(factories: Seq<Base>, s: int, t: int) -> bool {
    is_own(factories, s) && is_top_enemy(factories, t)
}

/// The pair `(s2, t2)` is tried before `(s, t)`: sources in the order of
/// the list, and for each source the targets in that order.
pub open spec fn tried_before(s2: int, t2: int, s: int, t: int) -> bool {
    s2 < s || (s2 == s && t2 < t)
}

/// The bomb goes from position `s` to position `t`: a pair that can be
/// reached, none of the others nearer, and the first one tried among those
/// equally near.
pub open spec fn bomb_goes(o: RouteModel, factories: Seq<Base>, s: int, t: int) -> bool {
    &&& bomb_pair(factories, s, t)
    &&& pair_distance(o, factories, s, t) < MAX_INT
    &&& forall|s2: int, t2: int| #[trigger]
        bomb_pair(factories, s2, t2) ==> pair_distance(o, factories, s2, t2) >= pair_distance(
            o,
            factories,
            s,
            t,
        )
    &&& forall|s2: int, t2: int|
        tried_before(s2, t2, s, t) && #[trigger] bomb_pair(factories, s2, t2) ==> pair_distance(
            o,
            factories,
            s2,
            t2,
        ) > pair_distance(o, factories, s, t)
}

/// The ids of the factory that launches the bomb and of the factory that
/// it is aimed at, or `None` where no factory of this player can reach one
/// of the opponent's most productive factories.
pub open spec fn bomb_choice_of(o: RouteModel, factories: Seq<Base>) -> Option<(usize, usize)> {
    if exists|s: int, t: int| bomb_goes(o, factories, s, t) {
        let (s, t) = choose|s: int, t: int| bomb_goes(o, factories, s, t);
        Some((factories[s].entity_id, factories[t].entity_id))
    } else {
        None
    }
}

/// At most one pair of positions is where the bomb goes.
pub proof fn lemma_one_bomb_pair(
    o: RouteModel,
    factories: Seq<Base>,
    s: int,
    t: int,
    s2: int,
    t2: int,
)
    requires
        bomb_goes(o, factories, s, t),
        bomb_goes(o, factories, s2, t2),
    ensures
        s == s2,
        t == t2,
{
    if tried_before(s, t, s2, t2) {
        assert(bomb_pair(factories, s, t));
    } else if tried_before(s2, t2, s, t) {
        assert(bomb_pair(factories, s2, t2));
    }
}

/// The highest production among the opponent's factories, if there are any.
pub fn top_enemy_production(factories: &[Base]) -> (top: Option<i32>)
    ensures
        match top {
            Some(p) => {
                &&& exists|t: int| #[trigger] is_enemy(factories@, t) && factories[t].production == p
                &&& forall|c: int| #[trigger]
                    is_enemy(factories@, c) ==> factories[c].production <= p
            },
            None => forall|c: int| !#[trigger] is_enemy(factories@, c),
        },
{
    let mut top: Option<i32> = None;
    let ghost mut at: int = 0;
    let mut i: usize = 0;
    while i < factories.len()
        invariant
            i <= factories.len(),
            match top {
                Some(p) => {
                    &&& 0 <= at < i
                    &&& is_enemy(factories@, at)
                    &&& factories[at].production == p
                    &&& forall|c: int|
                        0 <= c < i && #[trigger] is_enemy(factories@, c)
                            ==> factories[c].production <= p
                },
                None => forall|c: int| 0 <= c < i ==> !#[trigger] is_enemy(factories@, c),
            },
        decreases factories.len() - i,
    {
        if factories[i].owner == ENEMY_CODE {
            let production = factories[i].production;
            let higher = match top {
                Some(p) => production > p,
                None => true,
            };
            if higher {
                top = Some(production);
                proof {
                    at = i as int;
                }
            }
        }
        i += 1;
    }
    proof {
        if top is Some {
            assert(is_enemy(factories@, at));
        }
    }
    top
}

/// Where the bomb goes: among the pairs of a factory of this player and
/// one of the opponent's most productive factories, the pair at the
/// smallest distance.
pub fn select_bomb_target(oracle: &DistanceOracle, factories: &[Base]) -> (found: Option<
    (usize, usize),
>)
    ensures
        found == bomb_choice_of(oracle@.routes, factories@),
        found is None <==> forall|s: int, t: int| #[trigger]
            bomb_pair(factories@, s, t) ==> pair_distance(oracle@.routes, factories@, s, t)
                >= MAX_INT,
{
    let top = match top_enemy_production(factories) {
        Some(p) => p,
        None => {
            assert forall|s: int, t: int| !bomb_goes(oracle@.routes, factories@, s, t) by {
                assert(!is_enemy(factories@, t));
            }
            return None;
        },
    };
    let ghost o = oracle@.routes;
    let n = factories.len();
    assert forall|t: int| is_enemy(factories@, t) implies (is_top_enemy(factories@, t)
        <==> factories[t].production == top) by {
        let w = choose|w: int| #[trigger] is_enemy(factories@, w) && factories[w].production == top;
        assert(is_enemy(factories@, w));
    }
    let mut best: Option<(usize, usize)> = None;
    let mut best_distance: i32 = MAX_INT;
    let ghost mut bs: int = 0;
    let ghost mut bt: int = 0;
    let mut s: usize = 0;
    while s < n
        invariant
            s <= n,
            n == factories.len(),
            o == oracle@.routes,
            0 <= best_distance <= MAX_INT,
            forall|t: int|
                is_enemy(factories@, t) ==> (is_top_enemy(factories@, t) <==> factories[t].production
                    == top),
            forall|s2: int, t2: int|
                tried_before(s2, t2, s as int, 0) && #[trigger] bomb_pair(factories@, s2, t2)
                    ==> pair_distance(o, factories@, s2, t2) >= best_distance,
            match best {
                Some((source, target)) => {
                    &&& bomb_pair(factories@, bs, bt)
                    &&& tried_before(bs, bt, s as int, 0)
                    &&& factories[bs].entity_id == source
                    &&& factories[bt].entity_id == target
                    &&& pair_distance(o, factories@, bs, bt) == best_distance
                    &&& best_distance < MAX_INT
                    &&& forall|s2: int, t2: int|
                        tried_before(s2, t2, bs, bt) && #[trigger] bomb_pair(factories@, s2, t2)
                            ==> pair_distance(o, factories@, s2, t2) > best_distance
                },
                None => best_distance == MAX_INT,
            },
        decreases n - s,
    {
        if factories[s].owner == MY_CODE {
            let mut t: usize = 0;
            while t < n
                invariant
                    s < n,
                    t <= n,
                    n == factories.len(),
                    o == oracle@.routes,
                    factories[s as int].owner == MY_CODE,
                    0 <= best_distance <= MAX_INT,
                    forall|t: int|
                        is_enemy(factories@, t) ==> (is_top_enemy(factories@, t)
                            <==> factories[t].production == top),
                    forall|s2: int, t2: int|
                        tried_before(s2, t2, s as int, t as int) && #[trigger] bomb_pair(
                            factories@,
                            s2,
                            t2,
                        ) ==> pair_distance(o, factories@, s2, t2) >= best_distance,
                    match best {
                        Some((source, target)) => {
                            &&& bomb_pair(factories@, bs, bt)
                            &&& tried_before(bs, bt, s as int, t as int)
                            &&& factories[bs].entity_id == source
                            &&& factories[bt].entity_id == target
                            &&& pair_distance(o, factories@, bs, bt) == best_distance
                            &&& best_distance < MAX_INT
                            &&& forall|s2: int, t2: int|
                                tried_before(s2, t2, bs, bt) && #[trigger] bomb_pair(
                                    factories@,
                                    s2,
                                    t2,
                                ) ==> pair_distance(o, factories@, s2, t2) > best_distance
                        },
                        None => best_distance == MAX_INT,
                    },
                decreases n - t,
            {
                if factories[t].owner == ENEMY_CODE && factories[t].production == top {
                    let distance = oracle.distance(factories[s].entity_id, factories[t].entity_id);
                    assert(is_enemy(factories@, t as int));
                    assert(bomb_pair(factories@, s as int, t as int));
                    if distance < best_distance {
                        best_distance = distance;
                        best = Some((factories[s].entity_id, factories[t].entity_id));
                        proof {
                            bs = s as int;
                            bt = t as int;
                        }
                    }
                } else {
                    assert(!bomb_pair(factories@, s as int, t as int)) by {
                        if is_enemy(factories@, t as int) {
                            assert(factories[t as int].production != top);
                        }
                    }
                }
                t += 1;
            }
        } else {
            assert(forall|t2: int| !bomb_pair(factories@, s as int, t2));
        }
        s += 1;
    }
    proof {
        if best is Some {
            assert(bomb_goes(o, factories@, bs, bt));
            let (cs, ct) = choose|s: int, t: int| bomb_goes(o, factories@, s, t);
            lemma_one_bomb_pair(o, factories@, bs, bt, cs, ct);
        } else {
            assert forall|s: int, t: int| !bomb_goes(o, factories@, s, t) by {
                if bomb_pair(factories@, s, t) {
                    assert(tried_before(s, t, n as int, 0));
                }
            }
        }
    }
    best
}

} // verus!
