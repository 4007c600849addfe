//! Troop allocation: every factory of a side sends what its most
//! attractive reachable destination calls for, as far as its garrison goes.

use vstd::prelude::*;
use crate::graph::MAX_INT;
use crate::oracle::DistanceOracle;
use crate::routes::{OracleModel, RouteModel};
use crate::scoring::{
    attraction, attractiveness, required, threat, threat_to, troops_required, Coefficients,
};
use crate::targeting::pair_distance;
use crate::world::{Action, Base, Troop, WorldState};

verus! {

/// The factory at position `s` can send troops to the one at position `t`:
/// another factory, and one that it has a route to.
pub open spec fn may_target(o: RouteModel, factories: Seq<Base>, s: int, t: int) -> bool {
    0 <= t < factories.len() && t != s && pair_distance(o, factories, s, t) < MAX_INT
}

/// The attractiveness of the factory at position `t`.
pub open spec fn score_at(
    o: OracleModel,
    factories: Seq<Base>,
    troops: Seq<Troop>,
    c: Coefficients,
    t: int,
) -> int {
    attraction(factories[t], o, factories, troops, c)
}

/// Position `t` is the destination for the factory at position `s`: the
/// most attractive factory that it can send to, and the first in the list
/// among those equally attractive.
pub open spec fn target_at(
    o: OracleModel,
    factories: Seq<Base>,
    troops: Seq<Troop>,
    c: Coefficients,
    s: int,
    t: int,
) -> bool {
    &&& may_target(o.routes, factories, s, t)
    &&& forall|t2: int| #[trigger]
        may_target(o.routes, factories, s, t2) ==> score_at(o, factories, troops, c, t2)
            <= score_at(o, factories, troops, c, t)
    &&& forall|t2: int|
        0 <= t2 < t && #[trigger] may_target(o.routes, factories, s, t2) ==> score_at(
            o,
            factories,
            troops,
            c,
            t2,
        ) < score_at(o, factories, troops, c, t)
}

/// The position of the destination for the factory at position `s`, or
/// `None` where it can send nowhere.
pub open spec fn target_of(
    o: OracleModel,
    factories: Seq<Base>,
    troops: Seq<Troop>,
    c: Coefficients,
    s: int,
) -> Option<int> {
    if exists|t: int| target_at(o, factories, troops, c, s, t) {
        Some(choose|t: int| target_at(o, factories, troops, c, s, t))
    } else {
        None
    }
}

/// A factory has at most one destination.
pub proof fn lemma_one_target(
    o: OracleModel,
    factories: Seq<Base>,
    troops: Seq<Troop>,
    c: Coefficients,
    s: int,
    t: int,
    t2: int,
)
    requires
        target_at(o, factories, troops, c, s, t),
        target_at(o, factories, troops, c, s, t2),
    ensures
        t == t2,
{
    if t < t2 {
        assert(may_target(o.routes, factories, s, t));
    } else if t2 < t {
        assert(may_target(o.routes, factories, s, t2));
    }
}

/// The cyborgs that the factory at position `t` calls for.
pub open spec fn call_of(factories: Seq<Base>, troops: Seq<Troop>, c: Coefficients, t: int) -> int {
    required(
        factories[t],
        c,
        threat(troops, c.side, factories[t].entity_id as int, troops.len() as int),
    )
}

/// The order that the factory at position `s` gives: none unless it is of
/// the posture's side and has cyborgs; else what its destination calls
/// for, at most its whole garrison, and no order where that is nothing.
pub open spec fn order_from(
    o: OracleModel,
    factories: Seq<Base>,
    troops: Seq<Troop>,
    c: Coefficients,
    s: int,
) -> Seq<Action> {
    if factories[s].owner == c.side && factories[s].cyborgs > 0 {
        match target_of(o, factories, troops, c, s) {
            Some(t) => {
                let call = call_of(factories, troops, c, t);
                let send = if call < factories[s].cyborgs {
                    call
                } else {
                    factories[s].cyborgs as int
                };
                if send > 0 {
                    seq![
                        Action::Troop {
                            source: factories[s].entity_id,
                            target: factories[t].entity_id,
                            cyborgs: send as i32,
                        },
                    ]
                } else {
                    Seq::empty()
                }
            },
            None => Seq::empty(),
        }
    } else {
        Seq::empty()
    }
}

/// The orders of the first `upto` factories, in the order of the list.
pub open spec fn troop_orders(
    o: OracleModel,
    factories: Seq<Base>,
    troops: Seq<Troop>,
    c: Coefficients,
    upto: int,
) -> Seq<Action>
    decreases upto,
{
    if upto <= 0 {
        Seq::empty()
    } else {
        troop_orders(o, factories, troops, c, upto - 1) + order_from(
            o,
            factories,
            troops,
            c,
            upto - 1,
        )
    }
}

/// The attractiveness of every factory, by position.
pub fn score_all(oracle: &DistanceOracle, world: &WorldState, coefficients: &Coefficients) -> (scores:
    Vec<i128>)
    ensures
        scores.len() == world.factories.len(),
        forall|t: int|
            0 <= t < scores.len() ==> #[trigger] scores[t] == score_at(
                oracle@,
                world.factories@,
                world.troops@,
                *coefficients,
                t,
            ),
{
    let mut scores: Vec<i128> = Vec::new();
    let mut t: usize = 0;
    while t < world.factories.len()
        invariant
            t <= world.factories.len(),
            scores.len() == t,
            forall|x: int|
                0 <= x < t ==> #[trigger] scores[x] == score_at(
                    oracle@,
                    world.factories@,
                    world.troops@,
                    *coefficients,
                    x,
                ),
        decreases world.factories.len() - t,
    {
        scores.push(attractiveness(&world.factories[t], oracle, world, coefficients));
        t += 1;
    }
    scores
}

/// The destination of the factory at position `source`, given the score
/// of every factory.
fn pick_target(
    oracle: &DistanceOracle,
    world: &WorldState,
    scores: &Vec<i128>,
    source: usize,
    Ghost(c): Ghost<Coefficients>,
) -> (found: Option<usize>)
    requires
        source < world.factories.len(),
        scores.len() == world.factories.len(),
        forall|t: int|
            0 <= t < scores.len() ==> #[trigger] scores[t] == score_at(
                oracle@,
                world.factories@,
                world.troops@,
                c,
                t,
            ),
    ensures
        match found {
            Some(t) => t < world.factories.len() && target_of(
                oracle@,
                world.factories@,
                world.troops@,
                c,
                source as int,
            ) == Some(t as int),
            None => target_of(oracle@, world.factories@, world.troops@, c, source as int) is None,
        },
        found is None <==> forall|t: int|
            !#[trigger] may_target(oracle@.routes, world.factories@, source as int, t),
{
    let ghost o = oracle@;
    let ghost fs = world.factories@;
    let ghost troops = world.troops@;
    let n = world.factories.len();
    let mut best: Option<usize> = None;
    let mut t: usize = 0;
    while t < n
        invariant
            t <= n,
            n == world.factories.len(),
            source < n,
            o == oracle@,
            fs == world.factories@,
            troops == world.troops@,
            scores.len() == n,
            forall|x: int|
                0 <= x < scores.len() ==> #[trigger] scores[x] == score_at(o, fs, troops, c, x),
            match best {
                Some(b) => {
                    &&& b < t
                    &&& may_target(o.routes, fs, source as int, b as int)
                    &&& forall|t2: int|
                        0 <= t2 < t && #[trigger] may_target(o.routes, fs, source as int, t2)
                            ==> score_at(o, fs, troops, c, t2) <= score_at(
                            o,
                            fs,
                            troops,
                            c,
                            b as int,
                        )
                    &&& forall|t2: int|
                        0 <= t2 < b && #[trigger] may_target(o.routes, fs, source as int, t2)
                            ==> score_at(o, fs, troops, c, t2) < score_at(
                            o,
                            fs,
                            troops,
                            c,
                            b as int,
                        )
                },
                None => forall|t2: int|
                    0 <= t2 < t ==> !#[trigger] may_target(o.routes, fs, source as int, t2),
            },
        decreases n - t,
    {
        if t != source && oracle.distance(
            world.factories[source].entity_id,
            world.factories[t].entity_id,
        ) < MAX_INT {
            let better = match best {
                Some(b) => scores[t] > scores[b],
                None => true,
            };
            if better {
                best = Some(t);
            }
        }
        t += 1;
    }
    proof {
        match best {
            Some(b) => {
                assert(target_at(o, fs, troops, c, source as int, b as int));
                let chosen = choose|t: int| target_at(o, fs, troops, c, source as int, t);
                lemma_one_target(o, fs, troops, c, source as int, b as int, chosen);
            },
            None => {
                assert forall|t: int| !target_at(o, fs, troops, c, source as int, t) by {}
            },
        }
    }
    best
}

/// The position of the most attractive factory that the factory at
/// position `source` can send troops to.
pub fn best_target(
    oracle: &DistanceOracle,
    world: &WorldState,
    coefficients: &Coefficients,
    source: usize,
) -> (found: Option<usize>)
    ensures
        source >= world.factories.len() ==> found is None,
        source < world.factories.len() ==> match found {
            Some(t) => t < world.factories.len() && target_of(
                oracle@,
                world.factories@,
                world.troops@,
                *coefficients,
                source as int,
            ) == Some(t as int),
            None => target_of(
                oracle@,
                world.factories@,
                world.troops@,
                *coefficients,
                source as int,
            ) is None,
        },
        source < world.factories.len() ==> (found is None <==> forall|t: int|
            !#[trigger] may_target(oracle@.routes, world.factories@, source as int, t)),
{
    if source >= world.factories.len() {
        return None;
    }
    let scores = score_all(oracle, world, coefficients);
    pick_target(oracle, world, &scores, source, Ghost(*coefficients))
}

/// The troop orders of a turn for the side whose posture `coefficients`
/// describes.
pub fn allocate_troops(oracle: &DistanceOracle, world: &WorldState, coefficients: &Coefficients) -> (orders:
    Vec<Action>)
    ensures
        orders@ == troop_orders(
            oracle@,
            world.factories@,
            world.troops@,
            *coefficients,
            world.factories@.len() as int,
        ),
{
    let ghost o = oracle@;
    let ghost fs = world.factories@;
    let ghost troops = world.troops@;
    let n = world.factories.len();
    let scores = score_all(oracle, world, coefficients);
    let mut orders: Vec<Action> = Vec::new();
    let mut s: usize = 0;
    while s < n
        invariant
            s <= n,
            n == world.factories.len(),
            o == oracle@,
            fs == world.factories@,
            troops == world.troops@,
            scores.len() == n,
            forall|x: int|
                0 <= x < scores.len() ==> #[trigger] scores[x] == score_at(
                    o,
                    fs,
                    troops,
                    *coefficients,
                    x,
                ),
            orders@ == troop_orders(o, fs, troops, *coefficients, s as int),
        decreases n - s,
    {
        let ghost so_far = orders@;
        let garrison = world.factories[s].cyborgs;
        if world.factories[s].owner == coefficients.side && garrison > 0 {
            match pick_target(oracle, world, &scores, s, Ghost(*coefficients)) {
                Some(t) => {
                    let hostile = threat_to(
                        world.troops.as_slice(),
                        coefficients.side,
                        world.factories[t].entity_id,
                    );
                    assert(world.troops.len() <= 0xffff_ffff_ffff_ffff);
                    let call = troops_required(&world.factories[t], coefficients, hostile);
                    let send: i32 = if call < garrison as i128 {
                        call as i32
                    } else {
                        garrison
                    };
                    if send > 0 {
                        orders.push(
                            Action::Troop {
                                source: world.factories[s].entity_id,
                                target: world.factories[t].entity_id,
                                cyborgs: send,
                            },
                        );
                    }
                },
                None => {},
            }
        }
        proof {
            assert(orders@ =~= so_far + order_from(o, fs, troops, *coefficients, s as int));
        }
        s += 1;
    }
    orders
}

} // verus!
