//! One turn from its lines to its answer: the records are read and taken
//! in, the engine decides within the time budget, and the actions are
//! written out. Every way in which the input can be wrong comes back as an
//! error.

use std::time::Instant;
use vstd::prelude::*;
use crate::engine::{decide_turn, turn_orders, EngineConfig};
use crate::graph::{connect_all_spec, unlinked_map, GraphError, GraphModel, Link, NUM_FACTORIES};
use crate::oracle::{floyd_warshall, DistanceOracle};
use crate::protocol::{
    actions_text, entity_of, format_actions, link_of, parse_entity, parse_link, ProtocolError,
};
use crate::routes::charts;
use crate::text::texts;
use crate::world::{absorbed, first_refusal, EntityRecord, WorldError, WorldState};

verus! {

/// Why the input of the game was refused.
#[derive(Clone, Copy, Debug, PartialEq, Eq, Structural)]
pub enum InputError {
    /// A line does not follow the protocol.
    Protocol(ProtocolError),
    /// The lines do not describe a map.
    Graph(GraphError),
    /// The records do not fit the game.
    World(WorldError),
}

/// What the link lines say: the links in their order, or the error of the
/// first line that is refused.
pub open spec fn links_from(lines: Seq<Seq<u8>>) -> Result<Seq<Link>, ProtocolError>
    decreases lines.len(),
{
    if lines.len() == 0 {
        Ok(Seq::empty())
    } else {
        match links_from(lines.drop_last()) {
            Err(e) => Err(e),
            Ok(done) => match link_of(lines.last()) {
                Ok(link) => Ok(done.push(link)),
                Err(e) => Err(e),
            },
        }
    }
}

/// What the record lines of a turn say: the records in their order, or the
/// error of the first line that is refused.
pub open spec fn records_from(lines: Seq<Seq<u8>>) -> Result<Seq<EntityRecord>, ProtocolError>
    decreases lines.len(),
{
    if lines.len() == 0 {
        Ok(Seq::empty())
    } else {
        match records_from(lines.drop_last()) {
            Err(e) => Err(e),
            Ok(done) => match entity_of(lines.last()) {
                Ok(record) => Ok(done.push(record)),
                Err(e) => Err(e),
            },
        }
    }
}

/// The map that `factory_count` and the link lines describe, or why there
/// is none: a line that is refused comes first, then the number of
/// factories, then the links in their order.
pub open spec fn map_of(factory_count: usize, lines: Seq<Seq<u8>>) -> Result<
    Seq<Seq<int>>,
    InputError,
> {
    match links_from(lines) {
        Err(e) => Err(InputError::Protocol(e)),
        Ok(links) => if factory_count > NUM_FACTORIES {
            Err(InputError::Graph(GraphError::TooManyFactories))
        } else {
            match connect_all_spec(unlinked_map(factory_count as nat), links) {
                Ok(w) => Ok(w),
                Err(e) => Err(InputError::Graph(e)),
            }
        },
    }
}

/// The records that the lines of a turn give to a game of `factory_count`
/// factories, or why they are refused: a line that does not follow the
/// protocol comes first, then the first record that does not fit.
pub open spec fn turn_input(lines: Seq<Seq<u8>>, factory_count: int) -> Result<
    Seq<EntityRecord>,
    InputError,
> {
    match records_from(lines) {
        Err(e) => Err(InputError::Protocol(e)),
        Ok(records) => match first_refusal(records, factory_count) {
            Some(e) => Err(InputError::World(e)),
            None => Ok(records),
        },
    }
}

/// The number of the turn after `turn`; the count stops at the largest
/// number.
pub open spec fn next_turn(turn: u32) -> u32 {
    if turn == u32::MAX {
        turn
    } else {
        (turn + 1) as u32
    }
}

/// Once the lines up to some line are refused, all lines are refused with
/// the same error.
proof fn lemma_refused_link(lines: Seq<Seq<u8>>, upto: int)
    requires
        0 <= upto <= lines.len(),
        links_from(lines.take(upto)) is Err,
    ensures
        links_from(lines) == links_from(lines.take(upto)),
    decreases lines.len() - upto,
{
    if upto == lines.len() {
        assert(lines.take(upto) =~= lines);
    } else {
        assert(lines.take(upto + 1).drop_last() =~= lines.take(upto));
        lemma_refused_link(lines, upto + 1);
    }
}

/// Once the lines up to some line are refused, all lines are refused with
/// the same error.
proof fn lemma_refused_record(lines: Seq<Seq<u8>>, upto: int)
    requires
        0 <= upto <= lines.len(),
        records_from(lines.take(upto)) is Err,
    ensures
        records_from(lines) == records_from(lines.take(upto)),
    decreases lines.len() - upto,
{
    if upto == lines.len() {
        assert(lines.take(upto) =~= lines);
    } else {
        assert(lines.take(upto + 1).drop_last() =~= lines.take(upto));
        lemma_refused_record(lines, upto + 1);
    }
}

/// Reads the link lines of the map description.
pub fn parse_links(lines: &Vec<Vec<u8>>) -> (links: Result<Vec<Link>, ProtocolError>)
    ensures
        match links_from(texts(lines@)) {
            Ok(list) => links is Ok && links->Ok_0@ == list,
            Err(e) => links == Err::<Vec<Link>, ProtocolError>(e),
        },
{
    let ghost all = texts(lines@);
    let mut links: Vec<Link> = Vec::new();
    let mut i: usize = 0;
    assert(all.take(0) =~= Seq::<Seq<u8>>::empty());
    while i < lines.len()
        invariant
            i <= lines.len(),
            all == texts(lines@),
            links_from(all.take(i as int)) == Ok::<Seq<Link>, ProtocolError>(links@),
        decreases lines.len() - i,
    {
        proof {
            assert(all.take(i + 1).drop_last() =~= all.take(i as int));
            assert(all.take(i + 1).last() == lines[i as int]@);
        }
        match parse_link(lines[i].as_slice()) {
            Ok(link) => {
                links.push(link);
            },
            Err(e) => {
                proof {
                    lemma_refused_link(all, i + 1);
                }
                return Err(e);
            },
        }
        i += 1;
    }
    proof {
        assert(all.take(i as int) =~= all);
    }
    Ok(links)
}

/// Reads the record lines of a turn.
pub fn parse_entities(lines: &Vec<Vec<u8>>) -> (records: Result<Vec<EntityRecord>, ProtocolError>)
    ensures
        match records_from(texts(lines@)) {
            Ok(list) => records is Ok && records->Ok_0@ == list,
            Err(e) => records == Err::<Vec<EntityRecord>, ProtocolError>(e),
        },
{
    let ghost all = texts(lines@);
    let mut records: Vec<EntityRecord> = Vec::new();
    let mut i: usize = 0;
    assert(all.take(0) =~= Seq::<Seq<u8>>::empty());
    while i < lines.len()
        invariant
            i <= lines.len(),
            all == texts(lines@),
            records_from(all.take(i as int)) == Ok::<Seq<EntityRecord>, ProtocolError>(records@),
        decreases lines.len() - i,
    {
        proof {
            assert(all.take(i + 1).drop_last() =~= all.take(i as int));
            assert(all.take(i + 1).last() == lines[i as int]@);
        }
        match parse_entity(lines[i].as_slice()) {
            Ok(record) => {
                records.push(record);
            },
            Err(e) => {
                proof {
                    lemma_refused_record(all, i + 1);
                }
                return Err(e);
            },
        }
        i += 1;
    }
    proof {
        assert(all.take(i as int) =~= all);
    }
    Ok(records)
}

/// Builds the oracle of the map that `factory_count` and the link lines
/// describe.
pub fn chart_map(factory_count: usize, lines: &Vec<Vec<u8>>) -> (oracle: Result<
    DistanceOracle,
    InputError,
>)
    ensures
        match map_of(factory_count, texts(lines@)) {
            Ok(w) => oracle is Ok && charts(oracle->Ok_0@, w),
            Err(e) => oracle == Err::<DistanceOracle, InputError>(e),
        },
{
    let links = match parse_links(lines) {
        Ok(links) => links,
        Err(e) => {
            return Err(InputError::Protocol(e));
        },
    };
    match GraphModel::from_links(factory_count, &links) {
        Ok(graph) => Ok(floyd_warshall(&graph)),
        Err(e) => Err(InputError::Graph(e)),
    }
}

/// What lasts from one turn to the next: the configuration, the state of
/// the game, and the number of the turn.
#[derive(Debug)]
pub struct TurnScheduler {
    pub config: EngineConfig,
    pub world: WorldState,
    pub turn: u32,
}

impl TurnScheduler {
    /// The scheduler before the first turn of a game of `factory_count`
    /// factories.
    pub fn new(factory_count: usize, config: EngineConfig) -> (made: TurnScheduler)
        ensures
            made.config == config,
            made.turn == 0,
            made.world.factories.len() == factory_count,
            made.world.troops@.len() == 0,
            made.world.bombs@.len() == 0,
            forall|i: int|
                0 <= i < factory_count ==> (#[trigger] made.world.factories[i]).entity_id == i,
    {
        TurnScheduler { config, world: WorldState::new(factory_count), turn: 0 }
    }

    /// Plays the turn that began at `started` and whose record lines are
    /// `lines`: takes the records in, lets the engine decide, and returns
    /// the answer line without its line end. Input that is refused leaves
    /// the scheduler as it was.
    pub fn play(&mut self, oracle: &DistanceOracle, lines: &Vec<Vec<u8>>, started: &Instant) -> (answer:
        Result<Vec<u8>, InputError>)
        ensures
            match turn_input(texts(lines@), old(self).world.factories.len() as int) {
                Err(e) => answer == Err::<Vec<u8>, InputError>(e) && *final(self) == *old(self),
                Ok(records) => {
                    &&& absorbed(old(self).world, final(self).world, records)
                    &&& final(self).config == old(self).config
                    &&& final(self).turn == next_turn(old(self).turn)
                    &&& answer is Ok
                    &&& exists|first_ms: u128, second_ms: u128|
                        answer->Ok_0@ == actions_text(
                            #[trigger] turn_orders(
                                oracle@,
                                final(self).world.factories@,
                                final(self).world.troops@,
                                old(self).config,
                                old(self).turn,
                                first_ms,
                                second_ms,
                            ),
                        )
                },
            },
    {
        let records = match parse_entities(lines) {
            Ok(records) => records,
            Err(e) => {
                return Err(InputError::Protocol(e));
            },
        };
        match self.world.ingest(&records) {
            Ok(()) => {},
            Err(e) => {
                return Err(InputError::World(e));
            },
        }
        let turn = self.turn;
        let actions = decide_turn(oracle, &self.world, &self.config, turn, started);
        let answer = format_actions(&actions);
        proof {
            let (first_ms, second_ms) = choose|first_ms: u128, second_ms: u128|
                actions@ == #[trigger] turn_orders(
                    oracle@,
                    self.world.factories@,
                    self.world.troops@,
                    self.config,
                    turn,
                    first_ms,
                    second_ms,
                );
            assert(answer@ == actions_text(
                turn_orders(
                    oracle@,
                    self.world.factories@,
                    self.world.troops@,
                    self.config,
                    turn,
                    first_ms,
                    second_ms,
                ),
            ));
        }
        if turn < u32::MAX {
            self.turn = turn + 1;
        }
        assert(absorbed(old(self).world, self.world, records@));
        assert(exists|first_ms: u128, second_ms: u128|
            answer@ == actions_text(
                #[trigger] turn_orders(
                    oracle@,
                    self.world.factories@,
                    self.world.troops@,
                    old(self).config,
                    old(self).turn,
                    first_ms,
                    second_ms,
                ),
            ));
        Ok(answer)
    }
}

} // verus!
