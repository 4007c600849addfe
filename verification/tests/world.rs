use factory_command::graph::{GraphModel, Link, MAX_INT};
use factory_command::oracle::{floyd_warshall, DistanceOracle};
use factory_command::targeting::find_frontline_factory;
use factory_command::world::{
    Action, Base, Bomb, EntityRecord, Troop, WorldError, WorldState, ENEMY_CODE, MY_CODE,
    NEUTRAL_CODE,
};

fn chain_oracle() -> DistanceOracle {
    let links = vec![Link { a: 0, b: 1, distance: 3 }, Link { a: 1, b: 2, distance: 4 }];
    floyd_warshall(&GraphModel::from_links(4, &links).unwrap())
}

fn factory(entity_id: usize, owner: i32, cyborgs: i32, production: i32) -> Base {
    let mut base = Base::new(entity_id);
    base.update(owner, cyborgs, production, 0);
    base
}

fn troop(entity_id: usize, owner: i32, target: usize, cyborgs: i32) -> Troop {
    Troop { entity_id, owner, source: 0, target, cyborgs, cooldown: 2 }
}

#[test]
fn new_base_is_neutral_and_empty() {
    let base = Base::new(7);
    assert_eq!(base.entity_id, 7);
    assert_eq!(base.owner, NEUTRAL_CODE);
    assert_eq!(base.cyborgs, 0);
    assert_eq!(base.production, 0);
    assert_eq!(base.cooldown, 0);
    assert!(base.incomming.is_empty());
    assert!(base.actions.is_empty());
    assert!(base.blacklist.is_empty());
    assert_eq!(base.troops_defensive, 0);
    assert_eq!(base.troops_offensive, 0);
}

#[test]
fn update_overwrites_the_report() {
    let mut base = Base::new(3);
    base.push_incomming_troop(11);
    base.update(MY_CODE, 12, 3, 1);
    assert_eq!((base.owner, base.cyborgs, base.production, base.cooldown), (1, 12, 3, 1));
    assert_eq!(base.entity_id, 3);
    assert_eq!(base.incomming, vec![11]);
    base.update(ENEMY_CODE, 0, 0, 5);
    assert_eq!((base.owner, base.cyborgs, base.production, base.cooldown), (-1, 0, 0, 5));
}

#[test]
fn tick_forgets_the_notes_and_keeps_the_report() {
    let mut base = factory(2, MY_CODE, 9, 2);
    base.push_incomming_troop(4);
    base.push_incomming_troop(5);
    base.actions.push(Action::Inc { factory: 2 });
    base.blacklist.push(1);
    base.tick();
    assert!(base.incomming.is_empty());
    assert!(base.actions.is_empty());
    assert!(base.blacklist.is_empty());
    assert_eq!((base.entity_id, base.owner, base.cyborgs, base.production), (2, 1, 9, 2));
}

#[test]
fn push_incomming_troop_keeps_the_order() {
    let mut base = Base::new(0);
    base.push_incomming_troop(8);
    base.push_incomming_troop(3);
    base.push_incomming_troop(8);
    assert_eq!(base.incomming, vec![8, 3, 8]);
}

#[test]
fn closest_enemy_is_the_nearest_factory_of_another_owner() {
    let oracle = chain_oracle();
    let factories = vec![
        factory(0, MY_CODE, 10, 1),
        factory(1, NEUTRAL_CODE, 5, 2),
        factory(2, ENEMY_CODE, 10, 3),
        factory(3, ENEMY_CODE, 1, 0),
    ];
    assert_eq!(factories[0].closest_enemy(&oracle, &factories), (Some(1), 3));
    assert_eq!(factories[2].closest_enemy(&oracle, &factories), (Some(1), 4));
    assert_eq!(factories[1].closest_enemy(&oracle, &factories), (Some(0), 3));
    // Factory 3 has no link at all.
    assert_eq!(factories[3].closest_enemy(&oracle, &factories), (None, MAX_INT));
}

#[test]
fn closest_enemy_skips_its_own_side_and_breaks_ties_by_position() {
    let links = vec![
        Link { a: 0, b: 1, distance: 2 },
        Link { a: 0, b: 2, distance: 5 },
        Link { a: 0, b: 3, distance: 5 },
    ];
    let oracle = floyd_warshall(&GraphModel::from_links(4, &links).unwrap());
    let factories = vec![
        factory(0, MY_CODE, 1, 0),
        factory(1, MY_CODE, 1, 0),
        factory(2, ENEMY_CODE, 1, 0),
        factory(3, NEUTRAL_CODE, 1, 0),
    ];
    assert_eq!(factories[0].closest_enemy(&oracle, &factories), (Some(2), 5));
    assert_eq!(factories[0].closest_matching(&oracle, &factories, MY_CODE, true), (Some(1), 2));
    let alone = vec![factory(0, MY_CODE, 1, 0), factory(1, MY_CODE, 1, 0)];
    assert_eq!(alone[0].closest_enemy(&oracle, &alone), (None, MAX_INT));
    assert_eq!(alone[0].closest_enemy(&oracle, &[]), (None, MAX_INT));
}

#[test]
fn frontline_is_the_enemy_factory_nearest_to_an_own_factory() {
    let links = vec![
        Link { a: 0, b: 1, distance: 6 },
        Link { a: 0, b: 2, distance: 4 },
        Link { a: 3, b: 2, distance: 1 },
    ];
    let oracle = floyd_warshall(&GraphModel::from_links(5, &links).unwrap());
    let factories = vec![
        factory(0, MY_CODE, 1, 0),
        factory(1, ENEMY_CODE, 1, 0),
        factory(2, ENEMY_CODE, 1, 0),
        factory(3, NEUTRAL_CODE, 1, 0),
        factory(4, ENEMY_CODE, 1, 0),
    ];
    assert_eq!(find_frontline_factory(&oracle, &factories), Some(2));
    // The neutral factory next to 2 does not count: only own factories do.
    let far = vec![
        factory(0, NEUTRAL_CODE, 1, 0),
        factory(1, ENEMY_CODE, 1, 0),
        factory(2, ENEMY_CODE, 1, 0),
        factory(3, NEUTRAL_CODE, 1, 0),
        factory(4, MY_CODE, 1, 0),
    ];
    assert_eq!(find_frontline_factory(&oracle, &far), None);
    assert_eq!(find_frontline_factory(&oracle, &[]), None);
    // Equally near: the first in the list.
    let tie_links = vec![Link { a: 0, b: 1, distance: 3 }, Link { a: 0, b: 2, distance: 3 }];
    let tie = floyd_warshall(&GraphModel::from_links(3, &tie_links).unwrap());
    let pair = vec![
        factory(0, MY_CODE, 1, 0),
        factory(1, ENEMY_CODE, 1, 0),
        factory(2, ENEMY_CODE, 1, 0),
    ];
    assert_eq!(find_frontline_factory(&tie, &pair), Some(1));
}

#[test]
fn new_world_numbers_its_factories() {
    let world = WorldState::new(3);
    assert_eq!(world.factories.len(), 3);
    for (i, f) in world.factories.iter().enumerate() {
        assert_eq!(f.entity_id, i);
        assert_eq!(f.owner, NEUTRAL_CODE);
    }
    assert!(world.troops.is_empty());
    assert!(world.bombs.is_empty());
}

#[test]
fn ingest_rebuilds_the_turn() {
    let mut world = WorldState::new(3);
    let first = vec![
        EntityRecord::Factory { entity_id: 0, owner: 1, cyborgs: 10, production: 1, cooldown: 0 },
        EntityRecord::Factory { entity_id: 2, owner: -1, cyborgs: 10, production: 5, cooldown: 0 },
        EntityRecord::Troop(troop(7, -1, 0, 4)),
        EntityRecord::Troop(troop(8, 1, 2, 6)),
        EntityRecord::Troop(troop(9, -1, 0, 1)),
        EntityRecord::Bomb(Bomb { entity_id: 10, owner: 1, source: 0, target: 2, cooldown: 3 }),
    ];
    assert_eq!(world.ingest(&first), Ok(()));
    assert_eq!(world.factories[0].owner, 1);
    assert_eq!(world.factories[0].cyborgs, 10);
    assert_eq!(world.factories[0].incomming, vec![7, 9]);
    assert_eq!(world.factories[1].owner, 0);
    assert!(world.factories[1].incomming.is_empty());
    assert_eq!(world.factories[2].production, 5);
    assert_eq!(world.factories[2].incomming, vec![8]);
    assert_eq!(world.troops.len(), 3);
    assert_eq!(world.troops[1], troop(8, 1, 2, 6));
    assert_eq!(world.bombs.len(), 1);
    world.factories[0].actions.push(Action::Wait);
    world.factories[0].blacklist.push(2);

    // The next turn: what is not reported again stays, the notes do not.
    let second = vec![
        EntityRecord::Factory { entity_id: 0, owner: 1, cyborgs: 3, production: 1, cooldown: 0 },
        EntityRecord::Factory { entity_id: 0, owner: 1, cyborgs: 4, production: 2, cooldown: 1 },
        EntityRecord::Troop(troop(12, -1, 1, 2)),
    ];
    assert_eq!(world.ingest(&second), Ok(()));
    assert_eq!(world.factories[0].cyborgs, 4);
    assert_eq!(world.factories[0].production, 2);
    assert_eq!(world.factories[0].cooldown, 1);
    assert!(world.factories[0].incomming.is_empty());
    assert!(world.factories[0].actions.is_empty());
    assert!(world.factories[0].blacklist.is_empty());
    assert_eq!(world.factories[1].incomming, vec![12]);
    assert_eq!(world.factories[2].owner, -1);
    assert_eq!(world.factories[2].cyborgs, 10);
    assert!(world.factories[2].incomming.is_empty());
    assert_eq!(world.troops, vec![troop(12, -1, 1, 2)]);
    assert!(world.bombs.is_empty());
}

#[test]
fn ingest_refuses_unknown_factories_and_changes_nothing() {
    let mut world = WorldState::new(2);
    let good = vec![
        EntityRecord::Factory { entity_id: 1, owner: 1, cyborgs: 5, production: 1, cooldown: 0 },
        EntityRecord::Troop(troop(3, 1, 1, 2)),
    ];
    assert_eq!(world.ingest(&good), Ok(()));
    let unknown_factory = vec![
        EntityRecord::Factory { entity_id: 0, owner: -1, cyborgs: 9, production: 1, cooldown: 0 },
        EntityRecord::Factory { entity_id: 2, owner: 1, cyborgs: 5, production: 1, cooldown: 0 },
        EntityRecord::Troop(troop(4, 1, 5, 2)),
    ];
    assert_eq!(world.ingest(&unknown_factory), Err(WorldError::UnknownFactory));
    let unknown_target = vec![
        EntityRecord::Troop(troop(4, 1, 2, 2)),
        EntityRecord::Factory { entity_id: 2, owner: 1, cyborgs: 5, production: 1, cooldown: 0 },
    ];
    assert_eq!(world.ingest(&unknown_target), Err(WorldError::UnknownTarget));
    assert_eq!(world.factories[0].owner, 0);
    assert_eq!(world.factories[1].cyborgs, 5);
    assert_eq!(world.factories[1].incomming, vec![3]);
    assert_eq!(world.troops.len(), 1);
    // Only the target of a troop and the id of a factory have to exist.
    let loose = vec![
        EntityRecord::Troop(Troop {
            entity_id: 1,
            owner: 1,
            source: 9,
            target: 0,
            cyborgs: 1,
            cooldown: 1,
        }),
        EntityRecord::Bomb(Bomb { entity_id: 2, owner: -1, source: 9, target: 9, cooldown: 1 }),
    ];
    assert_eq!(world.ingest(&loose), Ok(()));
}
