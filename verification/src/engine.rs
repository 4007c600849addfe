//! The decisions of one turn: a bomb on the turns that the schedule names,
//! then troop orders, each phase only while the turn's time budget lasts.

use std::time::{Duration, Instant};
use vstd::prelude::*;
use crate::allocation::{allocate_troops, troop_orders};
use crate::oracle::DistanceOracle;
use crate::routes::OracleModel;
use crate::scoring::{opponent_posture, own_posture, Coefficients};
use crate::targeting::{bomb_choice_of, select_bomb_target};
use crate::world::{Action, Base, Troop, WorldState, ENEMY_CODE, MY_CODE};

verus! {

/// What the engine is run with.
#[derive(Clone, Copy, Debug, PartialEq, Eq, Structural)]
pub struct EngineConfig {
    /// This player's posture: the one that troop orders are made with.
    pub own: Coefficients,
    /// The posture that the opponent is taken to have in what-if evaluation.
    pub opponent: Coefficients,
    /// The turn of the first bomb.
    pub first_bomb_turn: u32,
    /// Turns between the first bomb and the second.
    pub bomb_cooldown: u32,
    /// Milliseconds that a turn may take.
    pub budget_ms: u64,
}

impl Default for EngineConfig {
    fn default() -> (config: EngineConfig)
        ensures
            config == (EngineConfig {
                own: Coefficients {
                    side: MY_CODE,
                    production_weight: 10,
                    offensive_ratio: 117,
                    defensive_ratio: 100,
                    centrality_weight: 1,
                    frontline_weight: 10,
                },
                opponent: Coefficients {
                    side: ENEMY_CODE,
                    production_weight: 10,
                    offensive_ratio: 153,
                    defensive_ratio: 100,
                    centrality_weight: 1,
                    frontline_weight: 10,
                },
                first_bomb_turn: 1,
                bomb_cooldown: 5,
                budget_ms: 40,
            }),
    {
        EngineConfig {
            own: own_posture(),
            opponent: opponent_posture(),
            first_bomb_turn: 1,
            bomb_cooldown: 5,
            budget_ms: 40,
        }
    }
}

/// A bomb is due on the turn of the first bomb and once more when the
/// cooldown has passed.
pub open spec fn bomb_due(config: EngineConfig, turn: u32) -> bool {
    turn == config.first_bomb_turn || turn == config.first_bomb_turn + config.bomb_cooldown
}

/// Whether the schedule names this turn for a bomb.
pub fn is_bomb_turn(config: &EngineConfig, turn: u32) -> (due: bool)
    ensures
        due == bomb_due(*config, turn),
{
    turn == config.first_bomb_turn || turn as u64 == config.first_bomb_turn as u64
        + config.bomb_cooldown as u64
}

/// The bomb order of a turn: one bomb where a bomb is due and there is a
/// pair of factories for it, else none.
pub open spec fn bomb_orders(
    o: OracleModel,
    factories: Seq<Base>,
    config: EngineConfig,
    turn: u32,
) -> Seq<Action> {
    if bomb_due(config, turn) {
        match bomb_choice_of(o.routes, factories) {
            Some((source, target)) => seq![Action::Bomb { source, target }],
            None => Seq::empty(),
        }
    } else {
        Seq::empty()
    }
}

/// The first phase of a turn.
pub fn bomb_phase(oracle: &DistanceOracle, world: &WorldState, config: &EngineConfig, turn: u32) -> (orders:
    Vec<Action>)
    ensures
        orders@ == bomb_orders(oracle@, world.factories@, *config, turn),
{
    let mut orders: Vec<Action> = Vec::new();
    if is_bomb_turn(config, turn) {
        match select_bomb_target(oracle, world.factories.as_slice()) {
            Some((source, target)) => {
                orders.push(Action::Bomb { source, target });
            },
            None => {},
        }
    }
    assert(orders@ =~= bomb_orders(oracle@, world.factories@, *config, turn));
    orders
}

/// A phase may start while less than the budget has passed.
pub open spec fn in_time(config: EngineConfig, elapsed_ms: u128) -> bool {
    elapsed_ms < config.budget_ms
}

/// Whether a phase may start after `elapsed_ms` milliseconds of the turn.
pub fn within_budget(config: &EngineConfig, elapsed_ms: u128) -> (ok: bool)
    ensures
        ok == in_time(*config, elapsed_ms),
{
    elapsed_ms < config.budget_ms as u128
}

/// The orders after the first phase: the bomb order, or nothing where the
/// budget was spent before the phase began.
pub open spec fn opening_orders(
    o: OracleModel,
    factories: Seq<Base>,
    config: EngineConfig,
    turn: u32,
    elapsed_ms: u128,
) -> Seq<Action> {
    if in_time(config, elapsed_ms) {
        bomb_orders(o, factories, config, turn)
    } else {
        Seq::empty()
    }
}

/// The orders of the whole turn: those of the first phase, then the troop
/// orders unless the budget was spent before their phase began; `Wait`
/// alone where that leaves nothing.
pub open spec fn closing_orders(
    o: OracleModel,
    factories: Seq<Base>,
    troops: Seq<Troop>,
    config: EngineConfig,
    so_far: Seq<Action>,
    elapsed_ms: u128,
) -> Seq<Action> {
    let all = if in_time(config, elapsed_ms) {
        so_far + troop_orders(o, factories, troops, config.own, factories.len() as int)
    } else {
        so_far
    };
    if all.len() == 0 {
        seq![Action::Wait]
    } else {
        all
    }
}

/// The orders of a turn whose clock read `first_ms` before the bomb phase
/// and `second_ms` before the troop phase.
pub open spec fn turn_orders(
    o: OracleModel,
    factories: Seq<Base>,
    troops: Seq<Troop>,
    config: EngineConfig,
    turn: u32,
    first_ms: u128,
    second_ms: u128,
) -> Seq<Action> {
    closing_orders(
        o,
        factories,
        troops,
        config,
        opening_orders(o, factories, config, turn, first_ms),
        second_ms,
    )
}

/// Runs the first phase, if `elapsed_ms` milliseconds into the turn there
/// is still time for it.
pub fn start_turn(
    oracle: &DistanceOracle,
    world: &WorldState,
    config: &EngineConfig,
    turn: u32,
    elapsed_ms: u128,
) -> (orders: Vec<Action>)
    ensures
        orders@ == opening_orders(oracle@, world.factories@, *config, turn, elapsed_ms),
{
    if within_budget(config, elapsed_ms) {
        bomb_phase(oracle, world, config, turn)
    } else {
        Vec::new()
    }
}

/// Runs the second phase, if `elapsed_ms` milliseconds into the turn there
/// is still time for it, and completes the orders of the turn. What the
/// first phase gave is kept either way.
pub fn finish_turn(
    oracle: &DistanceOracle,
    world: &WorldState,
    config: &EngineConfig,
    so_far: Vec<Action>,
    elapsed_ms: u128,
) -> (orders: Vec<Action>)
    ensures
        orders@ == closing_orders(
            oracle@,
            world.factories@,
            world.troops@,
            *config,
            so_far@,
            elapsed_ms,
        ),
        orders@.len() > 0,
{
    let mut orders = so_far;
    if within_budget(config, elapsed_ms) {
        let mut sends = allocate_troops(oracle, world, &config.own);
        orders.append(&mut sends);
    }
    if orders.len() == 0 {
        orders.push(Action::Wait);
        assert(orders@ =~= seq![Action::Wait]);
    }
    orders
}

/// The orders of a turn, given what the clock read before each phase.
pub fn decide_with_readings(
    oracle: &DistanceOracle,
    world: &WorldState,
    config: &EngineConfig,
    turn: u32,
    first_ms: u128,
    second_ms: u128,
) -> (orders: Vec<Action>)
    ensures
        orders@ == turn_orders(
            oracle@,
            world.factories@,
            world.troops@,
            *config,
            turn,
            first_ms,
            second_ms,
        ),
        orders@.len() > 0,
{
    let opening = start_turn(oracle, world, config, turn, first_ms);
    finish_turn(oracle, world, config, opening, second_ms)
}

/// `std::time::Instant`: a reading of the clock, carried through without a
/// look inside.
#[verifier::external_type_specification]
#[verifier::external_body]
pub struct ExInstant(std::time::Instant);

/// `Instant::elapsed`: the time that has passed since `started`. It is
/// whatever the clock says, so nothing is claimed of it.
#[verifier::external_body]
fn time_since(started: &Instant) -> (passed: Duration) {
    started.elapsed()
}

/// `Duration::as_millis`: the whole milliseconds of `span`. Nothing is
/// claimed of the number.
#[verifier::external_body]
fn whole_millis(span: &Duration) -> (millis: u128) {
    span.as_millis()
}

/// The orders of a turn that began at `started`. The clock is read before
/// each phase; whatever it says, the orders are those of
/// `decide_with_readings` for the two readings.
pub fn decide_turn(
    oracle: &DistanceOracle,
    world: &WorldState,
    config: &EngineConfig,
    turn: u32,
    started: &Instant,
) -> (orders: Vec<Action>)
    ensures
        exists|first_ms: u128, second_ms: u128|
            orders@ == #[trigger] turn_orders(
                oracle@,
                world.factories@,
                world.troops@,
                *config,
                turn,
                first_ms,
                second_ms,
            ),
        orders@.len() > 0,
{
    let first_ms = whole_millis(&time_since(started));
    let opening = start_turn(oracle, world, config, turn, first_ms);
    let second_ms = whole_millis(&time_since(started));
    let orders = finish_turn(oracle, world, config, opening, second_ms);
    assert(orders@ == turn_orders(
        oracle@,
        world.factories@,
        world.troops@,
        *config,
        turn,
        first_ms,
        second_ms,
    ));
    orders
}

} // verus!
