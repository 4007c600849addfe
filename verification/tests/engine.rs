use std::time::Instant;

use factory_command::allocation::{allocate_troops, best_target, score_all};
use factory_command::engine::{
    bomb_phase, decide_turn, decide_with_readings, finish_turn, is_bomb_turn, start_turn,
    within_budget, EngineConfig,
};
use factory_command::graph::{GraphModel, Link};
use factory_command::oracle::{floyd_warshall, DistanceOracle};
use factory_command::scoring::{
    attractiveness, opponent_posture, own_posture, strength_of, sufficiency_of, threat_to,
    troops_required,
};
use factory_command::targeting::{select_bomb_target, top_enemy_production};
use factory_command::world::{Action, EntityRecord, Troop, WorldState};

fn chain_oracle() -> DistanceOracle {
    let links = vec![Link { a: 0, b: 1, distance: 3 }, Link { a: 1, b: 2, distance: 4 }];
    floyd_warshall(&GraphModel::from_links(3, &links).unwrap())
}

fn factory(entity_id: usize, owner: i32, cyborgs: i32, production: i32) -> EntityRecord {
    EntityRecord::Factory { entity_id, owner, cyborgs, production, cooldown: 0 }
}

fn troop(entity_id: usize, owner: i32, target: usize, cyborgs: i32) -> EntityRecord {
    EntityRecord::Troop(Troop { entity_id, owner, source: 2, target, cyborgs, cooldown: 2 })
}

fn world_of(factory_count: usize, records: Vec<EntityRecord>) -> WorldState {
    let mut world = WorldState::new(factory_count);
    world.ingest(&records).unwrap();
    world
}

fn chain_world() -> WorldState {
    world_of(3, vec![factory(0, 1, 10, 1), factory(1, 0, 5, 2), factory(2, -1, 10, 3)])
}

#[test]
fn bomb_goes_to_the_only_enemy_factory() {
    let links = vec![Link { a: 0, b: 2, distance: 5 }];
    let oracle = floyd_warshall(&GraphModel::from_links(3, &links).unwrap());
    let world = world_of(3, vec![factory(0, 1, 3, 0), factory(2, -1, 10, 5)]);
    assert_eq!(oracle.distance(0, 2), 5);
    assert_eq!(select_bomb_target(&oracle, &world.factories), Some((0, 2)));
    let config = EngineConfig::default();
    assert_eq!(bomb_phase(&oracle, &world, &config, 1), vec![Action::Bomb { source: 0, target: 2 }]);
    assert_eq!(bomb_phase(&oracle, &world, &config, 6), vec![Action::Bomb { source: 0, target: 2 }]);
    assert_eq!(bomb_phase(&oracle, &world, &config, 0), vec![]);
    assert_eq!(bomb_phase(&oracle, &world, &config, 2), vec![]);
}

#[test]
fn bomb_takes_the_nearest_pair_among_the_top_producers() {
    let links = vec![
        Link { a: 0, b: 2, distance: 9 },
        Link { a: 0, b: 3, distance: 2 },
        Link { a: 1, b: 2, distance: 6 },
        Link { a: 1, b: 4, distance: 4 },
        Link { a: 0, b: 4, distance: 7 },
    ];
    let oracle = floyd_warshall(&GraphModel::from_links(6, &links).unwrap());
    let world = world_of(
        6,
        vec![
            factory(0, 1, 1, 0),
            factory(1, 1, 1, 0),
            factory(2, -1, 1, 3),
            factory(3, -1, 1, 2),
            factory(4, -1, 1, 3),
            factory(5, 0, 1, 9),
        ],
    );
    assert_eq!(top_enemy_production(&world.factories), Some(3));
    // Factory 3 is nearest but produces less; 2 and 4 tie for production,
    // and 1-4 at distance 4 is the nearest pair.
    assert_eq!(select_bomb_target(&oracle, &world.factories), Some((1, 4)));
}

#[test]
fn bomb_ties_go_to_the_first_pair_tried() {
    let links = vec![
        Link { a: 0, b: 2, distance: 4 },
        Link { a: 0, b: 3, distance: 4 },
        Link { a: 1, b: 2, distance: 4 },
    ];
    let oracle = floyd_warshall(&GraphModel::from_links(4, &links).unwrap());
    let world = world_of(
        4,
        vec![factory(0, 1, 1, 0), factory(1, 1, 1, 0), factory(2, -1, 1, 1), factory(3, -1, 1, 1)],
    );
    assert_eq!(select_bomb_target(&oracle, &world.factories), Some((0, 2)));
}

#[test]
fn no_bomb_without_a_reachable_pair() {
    let oracle = chain_oracle();
    let no_enemy = world_of(3, vec![factory(0, 1, 1, 0)]);
    assert_eq!(top_enemy_production(&no_enemy.factories), None);
    assert_eq!(select_bomb_target(&oracle, &no_enemy.factories), None);
    let no_own = world_of(3, vec![factory(2, -1, 1, 0)]);
    assert_eq!(select_bomb_target(&oracle, &no_own.factories), None);
    let apart = floyd_warshall(&GraphModel::new(3).unwrap());
    let world = world_of(3, vec![factory(0, 1, 1, 0), factory(2, -1, 1, 0)]);
    assert_eq!(select_bomb_target(&apart, &world.factories), None);
}

#[test]
fn bomb_schedule() {
    let config = EngineConfig::default();
    assert_eq!(config.first_bomb_turn, 1);
    assert_eq!(config.bomb_cooldown, 5);
    assert_eq!(config.budget_ms, 40);
    assert_eq!(config.own, own_posture());
    assert_eq!(config.opponent, opponent_posture());
    let due: Vec<u32> = (0..20).filter(|t| is_bomb_turn(&config, *t)).collect();
    assert_eq!(due, vec![1, 6]);
    let late = EngineConfig { first_bomb_turn: u32::MAX, bomb_cooldown: 3, ..config };
    assert!(is_bomb_turn(&late, u32::MAX));
    assert!(!is_bomb_turn(&late, 2));
}

#[test]
fn strength_threat_and_requirement() {
    let world = world_of(
        3,
        vec![
            factory(0, 1, 10, 1),
            factory(1, 1, -4, 2),
            factory(2, -1, 7, 3),
            troop(5, -1, 0, 25),
            troop(6, 1, 0, 9),
            troop(7, 0, 0, 2),
            troop(8, -1, 1, 3),
            troop(9, -1, 0, -6),
        ],
    );
    assert_eq!(strength_of(&world.factories, 1), 10);
    assert_eq!(strength_of(&world.factories, -1), 7);
    assert_eq!(strength_of(&world.factories, 0), 0);
    assert_eq!(threat_to(&world.troops, 1, 0), 27);
    assert_eq!(threat_to(&world.troops, 1, 1), 3);
    assert_eq!(threat_to(&world.troops, -1, 0), 11);
    assert_eq!(threat_to(&world.troops, 1, 2), 0);
    let own = own_posture();
    // Own factory: (27 - 10) * 100 / 100.
    assert_eq!(troops_required(&world.factories[0], &own, 27), 17);
    assert_eq!(troops_required(&world.factories[0], &own, 10), 0);
    assert_eq!(troops_required(&world.factories[0], &own, 3), 0);
    // Other factory: (7 + 1) * 117 / 100 = 9.36.
    assert_eq!(troops_required(&world.factories[2], &own, 0), 9);
    assert_eq!(troops_required(&world.factories[2], &own, 99), 9);
    // A negative garrison counts as none.
    assert_eq!(troops_required(&world.factories[1], &opponent_posture(), 0), 1);
    // The opponent is taken to send 153 percent.
    assert_eq!(troops_required(&world.factories[0], &opponent_posture(), 0), 16);
    assert_eq!(sufficiency_of(10, 0), 0);
    assert_eq!(sufficiency_of(10, 10), 100);
    assert_eq!(sufficiency_of(10, 12), 83);
    assert_eq!(sufficiency_of(0, 12), 0);
    assert_eq!(sufficiency_of(1, 3), 33);
}

#[test]
fn attractiveness_adds_the_four_parts() {
    let oracle = chain_oracle();
    let world = chain_world();
    let own = own_posture();
    // Neutral middle: 2 * 10 + centrality 2 + (10 covers the 7 it calls for).
    assert_eq!(attractiveness(&world.factories[1], &oracle, &world, &own), 122);
    // Enemy end, the frontline: 3 * 10 + 10 + 10 * 100 / 12.
    assert_eq!(attractiveness(&world.factories[2], &oracle, &world, &own), 123);
    // Own end, not threatened: 1 * 10.
    assert_eq!(attractiveness(&world.factories[0], &oracle, &world, &own), 10);
    assert_eq!(score_all(&oracle, &world, &own), vec![10, 122, 123]);
    let threatened = world_of(
        3,
        vec![factory(0, 1, 10, 1), factory(1, 0, 5, 2), factory(2, -1, 10, 3), troop(4, -1, 0, 25)],
    );
    // 15 are called for and 10 are there: 66 percent.
    assert_eq!(attractiveness(&threatened.factories[0], &oracle, &threatened, &own), 76);
    let weighted = factory_command::scoring::Coefficients {
        production_weight: -2,
        centrality_weight: 7,
        frontline_weight: -50,
        offensive_ratio: 0,
        ..own
    };
    assert_eq!(attractiveness(&world.factories[1], &oracle, &world, &weighted), -4 + 14);
    assert_eq!(attractiveness(&world.factories[2], &oracle, &world, &weighted), -6 - 50);
}

#[test]
fn troops_go_to_the_most_attractive_reachable_factory() {
    let oracle = chain_oracle();
    let world = chain_world();
    let own = own_posture();
    assert_eq!(best_target(&oracle, &world, &own, 0), Some(2));
    assert_eq!(best_target(&oracle, &world, &own, 2), Some(1));
    assert_eq!(best_target(&oracle, &world, &own, 3), None);
    // 12 are called for, 10 are there.
    assert_eq!(
        allocate_troops(&oracle, &world, &own),
        vec![Action::Troop { source: 0, target: 2, cyborgs: 10 }]
    );
    let rich = world_of(3, vec![factory(0, 1, 40, 1), factory(1, 0, 5, 2), factory(2, -1, 10, 3)]);
    // With 40 cyborgs both targets are fully covered: 122 and 130.
    assert_eq!(
        allocate_troops(&oracle, &rich, &own),
        vec![Action::Troop { source: 0, target: 2, cyborgs: 12 }]
    );
    let apart = floyd_warshall(&GraphModel::new(3).unwrap());
    assert_eq!(best_target(&apart, &world, &own, 0), None);
    assert_eq!(allocate_troops(&apart, &world, &own), vec![]);
    let empty = world_of(3, vec![factory(0, 1, 0, 1), factory(2, -1, 10, 3)]);
    assert_eq!(allocate_troops(&oracle, &empty, &own), vec![]);
}

#[test]
fn equal_scores_go_to_the_first_factory() {
    let links = vec![Link { a: 0, b: 1, distance: 3 }, Link { a: 0, b: 2, distance: 3 }];
    let oracle = floyd_warshall(&GraphModel::from_links(3, &links).unwrap());
    let world = world_of(3, vec![factory(0, 1, 8, 0), factory(1, 0, 4, 1), factory(2, 0, 4, 1)]);
    let own = own_posture();
    assert_eq!(score_all(&oracle, &world, &own)[1], score_all(&oracle, &world, &own)[2]);
    assert_eq!(best_target(&oracle, &world, &own, 0), Some(1));
    // (4 + 1) * 117 / 100 = 5.
    assert_eq!(
        allocate_troops(&oracle, &world, &own),
        vec![Action::Troop { source: 0, target: 1, cyborgs: 5 }]
    );
}

#[test]
fn own_factories_reinforce_each_other_under_threat() {
    let links = vec![Link { a: 0, b: 1, distance: 2 }];
    let oracle = floyd_warshall(&GraphModel::from_links(2, &links).unwrap());
    let world = world_of(2, vec![factory(0, 1, 20, 0), factory(1, 1, 5, 0), troop(9, -1, 1, 12)]);
    let own = own_posture();
    // Factory 1 lacks 7; factory 0 lacks nothing and is sent nothing.
    assert_eq!(
        allocate_troops(&oracle, &world, &own),
        vec![Action::Troop { source: 0, target: 1, cyborgs: 7 }]
    );
}

#[test]
fn a_turn_within_budget_bombs_and_sends() {
    let oracle = chain_oracle();
    let world = chain_world();
    let config = EngineConfig::default();
    let bomb = Action::Bomb { source: 0, target: 2 };
    let send = Action::Troop { source: 0, target: 2, cyborgs: 10 };
    assert_eq!(decide_with_readings(&oracle, &world, &config, 1, 0, 39), vec![bomb, send]);
    assert_eq!(decide_with_readings(&oracle, &world, &config, 2, 0, 0), vec![send]);
    assert_eq!(decide_with_readings(&oracle, &world, &config, 6, 5, 5), vec![bomb, send]);
}

#[test]
fn a_turn_out_of_budget_keeps_what_it_has() {
    let oracle = chain_oracle();
    let world = chain_world();
    let config = EngineConfig::default();
    let bomb = Action::Bomb { source: 0, target: 2 };
    assert_eq!(decide_with_readings(&oracle, &world, &config, 1, 0, 40), vec![bomb]);
    assert_eq!(decide_with_readings(&oracle, &world, &config, 2, 0, 40), vec![Action::Wait]);
    assert_eq!(decide_with_readings(&oracle, &world, &config, 1, 40, 41), vec![Action::Wait]);
    assert_eq!(decide_with_readings(&oracle, &world, &config, 1, u128::MAX, u128::MAX), vec![
        Action::Wait
    ]);
    assert!(within_budget(&config, 39));
    assert!(!within_budget(&config, 40));
    assert_eq!(start_turn(&oracle, &world, &config, 1, 39), vec![bomb]);
    assert_eq!(start_turn(&oracle, &world, &config, 1, 40), vec![]);
    assert_eq!(finish_turn(&oracle, &world, &config, vec![bomb], 40), vec![bomb]);
    assert_eq!(finish_turn(&oracle, &world, &config, vec![], 40), vec![Action::Wait]);
}

#[test]
fn a_turn_with_nothing_to_do_waits() {
    let oracle = chain_oracle();
    let world = WorldState::new(3);
    let config = EngineConfig::default();
    assert_eq!(decide_with_readings(&oracle, &world, &config, 1, 0, 0), vec![Action::Wait]);
}

#[test]
fn the_clock_decides_between_the_phases() {
    let oracle = chain_oracle();
    let world = chain_world();
    let bomb = Action::Bomb { source: 0, target: 2 };
    let send = Action::Troop { source: 0, target: 2, cyborgs: 10 };
    let unhurried = EngineConfig { budget_ms: u64::MAX, ..EngineConfig::default() };
    assert_eq!(decide_turn(&oracle, &world, &unhurried, 1, &Instant::now()), vec![bomb, send]);
    let spent = EngineConfig { budget_ms: 0, ..EngineConfig::default() };
    assert_eq!(decide_turn(&oracle, &world, &spent, 1, &Instant::now()), vec![Action::Wait]);
}
