use std::time::Instant;

use factory_command::engine::EngineConfig;
use factory_command::graph::{GraphError, Link, MAX_INT};
use factory_command::protocol::ProtocolError;
use factory_command::scheduler::{chart_map, parse_entities, parse_links, InputError, TurnScheduler};
use factory_command::world::{EntityRecord, WorldError};

fn lines(text: &[&str]) -> Vec<Vec<u8>> {
    text.iter().map(|line| line.as_bytes().to_vec()).collect()
}

fn unhurried() -> EngineConfig {
    EngineConfig { budget_ms: u64::MAX, ..EngineConfig::default() }
}

#[test]
fn link_lines_are_read_in_order() {
    assert_eq!(
        parse_links(&lines(&["0 1 3\n", "1 2 4\n"])),
        Ok(vec![Link { a: 0, b: 1, distance: 3 }, Link { a: 1, b: 2, distance: 4 }])
    );
    assert_eq!(parse_links(&lines(&[])), Ok(vec![]));
    assert_eq!(parse_links(&lines(&["0 1 3", "1 2", "x"])), Err(ProtocolError::TruncatedInput));
    assert_eq!(parse_links(&lines(&["0 1 3", "x", "1 2"])), Err(ProtocolError::MalformedNumber));
}

#[test]
fn record_lines_are_read_in_order() {
    assert_eq!(
        parse_entities(&lines(&["1 FACTORY 0 2 3 4\n"])),
        Ok(vec![EntityRecord::Factory {
            entity_id: 1,
            owner: 0,
            cyborgs: 2,
            production: 3,
            cooldown: 4
        }])
    );
    assert_eq!(
        parse_entities(&lines(&["1 FACTORY 0 2 3 4", "2 ROCKET 1 2 3 4", "x"])),
        Err(ProtocolError::UnknownEntityType)
    );
}

#[test]
fn the_map_is_charted_from_its_lines() {
    let oracle = chart_map(3, &lines(&["0 1 3\n", "1 2 4\n"])).unwrap();
    assert_eq!(oracle.distance(0, 2), 8);
    assert_eq!(oracle.path(0, 2), vec![0, 1, 2]);
    assert_eq!(oracle.centrality(1), 2);
    let bare = chart_map(2, &lines(&[])).unwrap();
    assert_eq!(bare.distance(0, 1), MAX_INT);
    assert_eq!(
        chart_map(3, &lines(&["0 1"])).err(),
        Some(InputError::Protocol(ProtocolError::TruncatedInput))
    );
    assert_eq!(
        chart_map(16, &lines(&["0 1 x"])).err(),
        Some(InputError::Protocol(ProtocolError::MalformedNumber))
    );
    assert_eq!(
        chart_map(16, &lines(&["0 1 3"])).err(),
        Some(InputError::Graph(GraphError::TooManyFactories))
    );
    assert_eq!(
        chart_map(3, &lines(&["0 3 3"])).err(),
        Some(InputError::Graph(GraphError::UnknownFactory))
    );
    assert_eq!(
        chart_map(3, &lines(&["2 2 3"])).err(),
        Some(InputError::Graph(GraphError::SelfLink))
    );
    assert_eq!(
        chart_map(3, &lines(&["0 1 -3"])).err(),
        Some(InputError::Graph(GraphError::DistanceOutOfRange))
    );
}

#[test]
fn an_enemy_factory_at_distance_five_is_bombed_from_the_own_one() {
    let oracle = chart_map(3, &lines(&["0 2 5\n"])).unwrap();
    assert_eq!(oracle.distance(0, 2), 5);
    let mut scheduler = TurnScheduler::new(3, unhurried());
    let turn = lines(&["0 FACTORY 1 0 0 0\n", "2 FACTORY -1 10 5 0\n"]);
    // Turn 0 is no bomb turn, and the own factory has nothing to send.
    assert_eq!(scheduler.play(&oracle, &turn, &Instant::now()), Ok(b"WAIT".to_vec()));
    assert_eq!(scheduler.turn, 1);
    assert_eq!(scheduler.play(&oracle, &turn, &Instant::now()), Ok(b"BOMB 0 2".to_vec()));
    assert_eq!(scheduler.turn, 2);
    assert_eq!(scheduler.world.factories[2].cyborgs, 10);
    assert_eq!(scheduler.world.factories[2].production, 5);
}

#[test]
fn a_game_of_several_turns() {
    let oracle = chart_map(3, &lines(&["0 1 3", "1 2 4"])).unwrap();
    let mut scheduler = TurnScheduler::new(3, unhurried());
    let turn = lines(&["0 FACTORY 1 10 1 0", "1 FACTORY 0 5 2 0", "2 FACTORY -1 10 3 0"]);
    let answers: Vec<String> = (0..8)
        .map(|_| String::from_utf8(scheduler.play(&oracle, &turn, &Instant::now()).unwrap()).unwrap())
        .collect();
    assert_eq!(answers[0], "TROOP 0 2 10");
    assert_eq!(answers[1], "BOMB 0 2;TROOP 0 2 10");
    assert_eq!(answers[2], "TROOP 0 2 10");
    assert_eq!(answers[6], "BOMB 0 2;TROOP 0 2 10");
    assert_eq!(answers[7], "TROOP 0 2 10");
    assert_eq!(scheduler.turn, 8);
}

#[test]
fn a_spent_budget_still_answers() {
    let oracle = chart_map(3, &lines(&["0 1 3", "1 2 4"])).unwrap();
    let spent = EngineConfig { budget_ms: 0, ..EngineConfig::default() };
    let mut scheduler = TurnScheduler::new(3, spent);
    let turn = lines(&["0 FACTORY 1 10 1 0", "2 FACTORY -1 10 3 0"]);
    assert_eq!(scheduler.play(&oracle, &turn, &Instant::now()), Ok(b"WAIT".to_vec()));
    assert_eq!(scheduler.play(&oracle, &turn, &Instant::now()), Ok(b"WAIT".to_vec()));
    assert_eq!(scheduler.world.factories[0].cyborgs, 10);
}

#[test]
fn refused_turns_change_nothing() {
    let oracle = chart_map(2, &lines(&["0 1 3"])).unwrap();
    let mut scheduler = TurnScheduler::new(2, unhurried());
    let good = lines(&["0 FACTORY 1 4 1 0", "5 TROOP 1 0 1 3 2"]);
    assert!(scheduler.play(&oracle, &good, &Instant::now()).is_ok());
    let malformed = lines(&["0 FACTORY -1 9 1 0", "1 FACTORY 1 two 1 0"]);
    assert_eq!(
        scheduler.play(&oracle, &malformed, &Instant::now()),
        Err(InputError::Protocol(ProtocolError::MalformedNumber))
    );
    let unknown = lines(&["0 FACTORY -1 9 1 0", "2 FACTORY 1 2 1 0"]);
    assert_eq!(
        scheduler.play(&oracle, &unknown, &Instant::now()),
        Err(InputError::World(WorldError::UnknownFactory))
    );
    let astray = lines(&["5 TROOP 1 0 2 3 2"]);
    assert_eq!(
        scheduler.play(&oracle, &astray, &Instant::now()),
        Err(InputError::World(WorldError::UnknownTarget))
    );
    assert_eq!(scheduler.turn, 1);
    assert_eq!(scheduler.world.factories[0].owner, 1);
    assert_eq!(scheduler.world.factories[0].cyborgs, 4);
    assert_eq!(scheduler.world.factories[1].incomming, vec![5]);
    assert_eq!(scheduler.world.troops.len(), 1);
}

#[test]
fn the_turn_count_stops_at_its_largest_number() {
    let oracle = chart_map(1, &lines(&[])).unwrap();
    let mut scheduler = TurnScheduler::new(1, unhurried());
    scheduler.turn = u32::MAX - 1;
    assert_eq!(scheduler.play(&oracle, &lines(&[]), &Instant::now()), Ok(b"WAIT".to_vec()));
    assert_eq!(scheduler.turn, u32::MAX);
    assert_eq!(scheduler.play(&oracle, &lines(&[]), &Instant::now()), Ok(b"WAIT".to_vec()));
    assert_eq!(scheduler.turn, u32::MAX);
}
