//! How attractive a factory is as a destination for troops, and the troop
//! orders that follow from it.

use vstd::prelude::*;
use crate::oracle::DistanceOracle;
use crate::routes::OracleModel;
use crate::targeting::{find_frontline_factory, frontline_of};
use crate::world::{Base, Troop, WorldState, ENEMY_CODE, MY_CODE};

verus! {

/// The named weights of one posture. Ratios are in percent.
#[derive(Clone, Copy, Debug, PartialEq, Eq, Structural)]
pub struct Coefficients {
    /// Owner code of the side whose posture this is.
    pub side: i32,
    /// What one unit of production is worth.
    pub production_weight: i32,
    /// Percent of a garrison, plus one cyborg, that is sent against a
    /// factory of another owner.
    pub offensive_ratio: i32,
    /// Percent of a shortfall that is sent to a threatened factory of the
    /// same side.
    pub defensive_ratio: i32,
    /// What one point of centrality is worth.
    pub centrality_weight: i32,
    /// What being the frontline factory is worth.
    pub frontline_weight: i32,
}

/// This player's posture.
pub fn own_posture() -> (c: Coefficients)
    ensures
        c == (Coefficients {
            side: MY_CODE,
            production_weight: 10,
            offensive_ratio: 117,
            defensive_ratio: 100,
            centrality_weight: 1,
            frontline_weight: 10,
        }),
{
    Coefficients {
        side: MY_CODE,
        production_weight: 10,
        offensive_ratio: 117,
        defensive_ratio: 100,
        centrality_weight: 1,
        frontline_weight: 10,
    }
}

/// The posture that the opponent is taken to have when its moves are played through.
pub fn opponent_posture() -> (c: Coefficients)
    ensures
        c == (Coefficients {
            side: ENEMY_CODE,
            production_weight: 10,
            offensive_ratio: 153,
            defensive_ratio: 100,
            centrality_weight: 1,
            frontline_weight: 10,
        }),
{
    Coefficients {
        side: ENEMY_CODE,
        production_weight: 10,
        offensive_ratio: 153,
        defensive_ratio: 100,
        centrality_weight: 1,
        frontline_weight: 10,
    }
}

/// `x`, or 0 where `x` is negative.
pub open spec fn at_least_zero(x: int) -> int {
    if x < 0 {
        0
    } else {
        x
    }
}

/// The cyborgs that `side` holds in the first `upto` factories.
pub open spec fn strength(factories: Seq<Base>, side: i32, upto: int) -> int
    decreases upto,
{
    if upto <= 0 {
        0
    } else {
        strength(factories, side, upto - 1) + if factories[upto - 1].owner == side {
            at_least_zero(factories[upto - 1].cyborgs as int)
        } else {
            0
        }
    }
}

/// The cyborgs among the first `upto` troops that are on their way to
/// factory `target` and do not belong to `side`.
pub open spec fn threat(troops: Seq<Troop>, side: i32, target: int, upto: int) -> int
    decreases upto,
{
    if upto <= 0 {
        0
    } else {
        threat(troops, side, target, upto - 1) + if troops[upto - 1].target == target
            && troops[upto - 1].owner != side {
            at_least_zero(troops[upto - 1].cyborgs as int)
        } else {
            0
        }
    }
}

/// The cyborgs that the factory `f` calls for. A factory of the posture's
/// own side calls for the defensive share of what the hostile troops on
/// their way to it exceed its garrison by; any other factory for the
/// offensive share of its garrison and one more.
pub open spec fn required(f: Base, c: Coefficients, hostile: int) -> int {
    if f.owner == c.side {
        at_least_zero(hostile - at_least_zero(f.cyborgs as int)) * at_least_zero(
            c.defensive_ratio as int,
        ) / 100
    } else {
        (at_least_zero(f.cyborgs as int) + 1) * at_least_zero(c.offensive_ratio as int) / 100
    }
}

/// The percentage, at most 100, of `required` that `available` covers; 0
/// where nothing is required.
pub open spec fn sufficiency(available: int, required: int) -> int {
    if required <= 0 {
        0
    } else if available >= required {
        100
    } else {
        available * 100 / required
    }
}

/// The centrality of factory `x`; 0 for a factory that the oracle does not
/// cover.
pub open spec fn centrality_of(o: OracleModel, x: int) -> int {
    if 0 <= x < o.centrality.len() {
        o.centrality[x]
    } else {
        0
    }
}

/// The attractiveness of the factory `f`: its production and its
/// centrality, each by its weight; the frontline weight where it is the
/// frontline factory; and the percentage of the cyborgs it calls for that
/// the side's garrisons cover.
pub open spec fn attraction(
    f: Base,
    o: OracleModel,
    factories: Seq<Base>,
    troops: Seq<Troop>,
    c: Coefficients,
) -> int {
    f.production * c.production_weight + centrality_of(o, f.entity_id as int) * c.centrality_weight
        + (if frontline_of(o.routes, factories) == Some(f.entity_id) {
        c.frontline_weight as int
    } else {
        0
    }) + sufficiency(
        strength(factories, c.side, factories.len() as int),
        required(f, c, threat(troops, c.side, f.entity_id as int, troops.len() as int)),
    )
}

/// The cyborgs that `side` holds in its factories.
pub fn strength_of(factories: &[Base], side: i32) -> (total: i128)
    ensures
        total == strength(factories@, side, factories@.len() as int),
        0 <= total <= factories@.len() * 0x8000_0000,
{
    let mut total: i128 = 0;
    let mut i: usize = 0;
    while i < factories.len()
        invariant
            i <= factories.len(),
            total == strength(factories@, side, i as int),
            0 <= total <= i * 0x8000_0000,
        decreases factories.len() - i,
    {
        if factories[i].owner == side && factories[i].cyborgs > 0 {
            total = total + factories[i].cyborgs as i128;
        }
        i += 1;
    }
    total
}

/// The cyborgs on their way to factory `target` that do not belong to
/// `side`.
pub fn threat_to(troops: &[Troop], side: i32, target: usize) -> (total: i128)
    ensures
        total == threat(troops@, side, target as int, troops@.len() as int),
        0 <= total <= troops@.len() * 0x8000_0000,
{
    let mut total: i128 = 0;
    let mut i: usize = 0;
    while i < troops.len()
        invariant
            i <= troops.len(),
            total == threat(troops@, side, target as int, i as int),
            0 <= total <= i * 0x8000_0000,
        decreases troops.len() - i,
    {
        if troops[i].target == target && troops[i].owner != side && troops[i].cyborgs > 0 {
            total = total + troops[i].cyborgs as i128;
        }
        i += 1;
    }
    total
}

/// The cyborgs that `factory` calls for, given the hostile cyborgs on
/// their way to it.
pub fn troops_required(factory: &Base, coefficients: &Coefficients, hostile: i128) -> (need: i128)
    requires
        0 <= hostile <= 0x8000_0000_0000_0000_0000_0000,
    ensures
        need == required(*factory, *coefficients, hostile as int),
        0 <= need,
{
    let garrison: i128 = if factory.cyborgs > 0 {
        factory.cyborgs as i128
    } else {
        0
    };
    if factory.owner == coefficients.side {
        let ratio: i128 = if coefficients.defensive_ratio > 0 {
            coefficients.defensive_ratio as i128
        } else {
            0
        };
        let shortfall: i128 = if hostile > garrison {
            hostile - garrison
        } else {
            0
        };
        assert(0 <= shortfall * ratio <= 0x8000_0000_0000_0000_0000_0000 * 0x8000_0000)
            by (nonlinear_arith)
            requires
                0 <= shortfall <= 0x8000_0000_0000_0000_0000_0000,
                0 <= ratio <= 0x8000_0000,
        ;
        shortfall * ratio / 100
    } else {
        let ratio: i128 = if coefficients.offensive_ratio > 0 {
            coefficients.offensive_ratio as i128
        } else {
            0
        };
        assert(0 <= (garrison + 1) * ratio <= 0x8000_0000 * 0x8000_0000) by (nonlinear_arith)
            requires
                0 <= garrison + 1 <= 0x8000_0000,
                0 <= ratio <= 0x8000_0000,
        ;
        (garrison + 1) * ratio / 100
    }
}

/// The percentage, at most 100, of `required` that `available` covers.
pub fn sufficiency_of(available: i128, required: i128) -> (percent: i128)
    requires
        0 <= available <= 0x8000_0000_0000_0000_0000_0000,
    ensures
        percent == sufficiency(available as int, required as int),
        0 <= percent <= 100,
{
    if required <= 0 {
        0
    } else if available >= required {
        100
    } else {
        let percent = available * 100 / required;
        assert(percent <= 100) by (nonlinear_arith)
            requires
                0 <= available < required,
                percent == available * 100 / (required as int),
        ;
        percent
    }
}

/// How attractive `factory` is as a destination for the troops of the
/// side whose posture `coefficients` describes.
pub fn attractiveness(
    factory: &Base,
    oracle: &DistanceOracle,
    world: &WorldState,
    coefficients: &Coefficients,
) -> (score: i128)
    ensures
        score == attraction(*factory, oracle@, world.factories@, world.troops@, *coefficients),
{
    let bias: i128 = match find_frontline_factory(oracle, world.factories.as_slice()) {
        Some(id) => if id == factory.entity_id {
            coefficients.frontline_weight as i128
        } else {
            0
        },
        None => 0,
    };
    let production = factory.production as i128;
    let production_weight = coefficients.production_weight as i128;
    assert(-0x8000_0000 * 0x8000_0000 <= production * production_weight <= 0x8000_0000
        * 0x8000_0000) by (nonlinear_arith)
        requires
            -0x8000_0000 <= production <= 0x8000_0000,
            -0x8000_0000 <= production_weight <= 0x8000_0000,
    ;
    let centrality = oracle.centrality(factory.entity_id) as i128;
    let centrality_weight = coefficients.centrality_weight as i128;
    assert(-0x8000_0000 * 0x8000_0000 <= centrality * centrality_weight <= 0x8000_0000
        * 0x8000_0000) by (nonlinear_arith)
        requires
            0 <= centrality <= 0x8000_0000,
            -0x8000_0000 <= centrality_weight <= 0x8000_0000,
    ;
    let available = strength_of(world.factories.as_slice(), coefficients.side);
    let hostile = threat_to(world.troops.as_slice(), coefficients.side, factory.entity_id);
    assert(world.factories.len() <= 0xffff_ffff_ffff_ffff);
    assert(world.troops.len() <= 0xffff_ffff_ffff_ffff);
    let need = troops_required(factory, coefficients, hostile);
    production * production_weight + centrality * centrality_weight + bias + sufficiency_of(
        available,
        need,
    )
}

} // verus!
