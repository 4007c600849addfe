//! The state of one turn: factories, troops on their way and bombs in
//! flight, rebuilt from the records of every turn.

use vstd::prelude::*;
use crate::graph::MAX_INT;
use crate::oracle::DistanceOracle;
use crate::routes::{distance_between, RouteModel};

verus! {

/// Owner code of the opponent.
pub const ENEMY_CODE: i32 = -1;

/// Owner code of this player.
pub const MY_CODE: i32 = 1;

/// Owner code of a factory that nobody holds.
pub const NEUTRAL_CODE: i32 = 0;

/// One order of a turn.
#[derive(Clone, Copy, Debug, PartialEq, Eq, Structural)]
pub enum Action {
    /// Launch a bomb from `source` at `target`.
    Bomb { source: usize, target: usize },
    /// Send `cyborgs` cyborgs from `source` to `target`.
    Troop { source: usize, target: usize, cyborgs: i32 },
    /// Do nothing.
    Wait,
    /// Raise the production of `factory`.
    Inc { factory: usize },
}

/// Cyborgs on their way from one factory to another.
#[derive(Clone, Copy, Debug, PartialEq, Eq, Structural)]
pub struct Troop {
    pub entity_id: usize,
    pub owner: i32,
    pub source: usize,
    pub target: usize,
    pub cyborgs: i32,
    /// Turns until the troop arrives.
    pub cooldown: i32,
}

/// A bomb in flight.
#[derive(Clone, Copy, Debug, PartialEq, Eq, Structural)]
pub struct Bomb {
    pub entity_id: usize,
    pub owner: i32,
    pub source: usize,
    pub target: usize,
    /// Turns until the bomb goes off.
    pub cooldown: i32,
}

/// A factory, with what the turn's records say of it and the notes that the
/// engine keeps on it for the length of one turn.
#[derive(Clone, Debug)]
pub struct Base {
    pub entity_id: usize,
    pub owner: i32,
    pub cyborgs: i32,
    pub production: i32,
    pub cooldown: i32,
    /// Ids of the troops on their way to this factory.
    pub incomming: Vec<usize>,
    /// Orders that this factory gives this turn.
    pub actions: Vec<Action>,
    /// Factories that this factory leaves alone this turn.
    pub blacklist: Vec<usize>,
    pub troops_defensive: i32,
    pub troops_offensive: i32,
}

/// Factory `i` of `factories` counts in a search from `me` for factories
/// that `owner` holds (`same`) or does not hold (`!same`): any factory but
/// the one whose position is `me`'s id.
pub open spec fn candidate(me: Base, factories: Seq<Base>, owner: i32, same: bool, i: int) -> bool {
    &&& 0 <= i < factories.len()
    &&& i != me.entity_id
    &&& (factories[i].owner == owner) == same
}

/// The distance from `me` to factory `i` of `factories`.
pub open spec fn gap(me: Base, o: RouteModel, factories: Seq<Base>, i: int) -> int {
    distance_between(o, me.entity_id as int, factories[i].entity_id as int)
}

/// The smallest distance from `me` to a candidate among the first `upto`
/// factories; `MAX_INT` where none of them can be reached.
pub open spec fn nearest_distance(
    me: Base,
    o: RouteModel,
    factories: Seq<Base>,
    owner: i32,
    same: bool,
    upto: int,
) -> int
    decreases upto,
{
    if upto <= 0 {
        MAX_INT as int
    } else {
        let rest = nearest_distance(me, o, factories, owner, same, upto - 1);
        if candidate(me, factories, owner, same, upto - 1) && gap(me, o, factories, upto - 1)
            < rest {
            gap(me, o, factories, upto - 1)
        } else {
            rest
        }
    }
}

/// `found` is the nearest candidate and its distance: the first factory in
/// the list among those at the smallest distance, or `None` and `MAX_INT`
/// where no candidate can be reached.
pub open spec fn is_nearest(
    me: Base,
    o: RouteModel,
    factories: Seq<Base>,
    owner: i32,
    same: bool,
    found: (Option<usize>, i32),
) -> bool {
    &&& found.1 == nearest_distance(me, o, factories, owner, same, factories.len() as int)
    &&& forall|c: int| #[trigger]
        candidate(me, factories, owner, same, c) ==> gap(me, o, factories, c) >= found.1
    &&& match found.0 {
        Some(i) => {
            &&& candidate(me, factories, owner, same, i as int)
            &&& gap(me, o, factories, i as int) == found.1
            &&& found.1 < MAX_INT
            &&& forall|c: int|
                0 <= c < i && #[trigger] candidate(me, factories, owner, same, c) ==> gap(
                    me,
                    o,
                    factories,
                    c,
                ) > found.1
        },
        None => found.1 == MAX_INT,
    }
}

impl Base {
    /// A neutral, empty factory with the given id.
    pub fn new(entity_id: usize) -> (made: Base)
        ensures
            made.entity_id == entity_id,
            made.owner == 0,
            made.cyborgs == 0,
            made.production == 0,
            made.cooldown == 0,
            made.incomming@ == Seq::<usize>::empty(),
            made.actions@ == Seq::<Action>::empty(),
            made.blacklist@ == Seq::<usize>::empty(),
            made.troops_defensive == 0,
            made.troops_offensive == 0,
    {
        Base {
            entity_id,
            owner: 0,
            cyborgs: 0,
            production: 0,
            cooldown: 0,
            incomming: Vec::new(),
            actions: Vec::new(),
            blacklist: Vec::new(),
            troops_defensive: 0,
            troops_offensive: 0,
        }
    }

    /// Takes over what this turn's record says of the factory.
    pub fn update(&mut self, owner: i32, cyborgs: i32, production: i32, cooldown: i32)
        ensures
            *final(self) == (Base { owner, cyborgs, production, cooldown, ..*old(self) }),
    {
        self.owner = owner;
        self.cyborgs = cyborgs;
        self.production = production;
        self.cooldown = cooldown;
    }

    /// Forgets the notes of the turn before: incoming troops, orders and
    /// the list of factories left alone.
    pub fn tick(&mut self)
        ensures
            final(self).incomming@ == Seq::<usize>::empty(),
            final(self).actions@ == Seq::<Action>::empty(),
            final(self).blacklist@ == Seq::<usize>::empty(),
            final(self).entity_id == old(self).entity_id,
            final(self).owner == old(self).owner,
            final(self).cyborgs == old(self).cyborgs,
            final(self).production == old(self).production,
            final(self).cooldown == old(self).cooldown,
            final(self).troops_defensive == old(self).troops_defensive,
            final(self).troops_offensive == old(self).troops_offensive,
    {
        self.incomming.clear();
        self.actions.clear();
        self.blacklist.clear();
    }

    /// Notes that troop `entity_id` is on its way to this factory.
    pub fn push_incomming_troop(&mut self, entity_id: usize)
        ensures
            final(self).incomming@ == old(self).incomming@.push(entity_id),
            *final(self) == (Base { incomming: final(self).incomming, ..*old(self) }),
    {
        self.incomming.push(entity_id);
    }

    /// The nearest factory, by position in `factories`, among those that
    /// `owner` holds (`same`) or does not hold (`!same`), and its distance.
    pub fn closest_matching(
        &self,
        oracle: &DistanceOracle,
        factories: &[Base],
        owner: i32,
        same: bool,
    ) -> (found: (Option<usize>, i32))
        ensures
            is_nearest(*self, oracle@.routes, factories@, owner, same, found),
            0 <= found.1 <= MAX_INT,
    {
        let mut nearest_factory: Option<usize> = None;
        let mut nearest: i32 = MAX_INT;
        let mut i: usize = 0;
        while i < factories.len()
            invariant
                i <= factories.len(),
                nearest == nearest_distance(
                    *self,
                    oracle@.routes,
                    factories@,
                    owner,
                    same,
                    i as int,
                ),
                0 <= nearest <= MAX_INT,
                forall|c: int|
                    0 <= c < i && #[trigger] candidate(*self, factories@, owner, same, c) ==> gap(
                        *self,
                        oracle@.routes,
                        factories@,
                        c,
                    ) >= nearest,
                match nearest_factory {
                    Some(j) => {
                        &&& j < i
                        &&& candidate(*self, factories@, owner, same, j as int)
                        &&& gap(*self, oracle@.routes, factories@, j as int) == nearest
                        &&& nearest < MAX_INT
                        &&& forall|c: int|
                            0 <= c < j && #[trigger] candidate(*self, factories@, owner, same, c)
                                ==> gap(*self, oracle@.routes, factories@, c) > nearest
                    },
                    None => nearest == MAX_INT,
                },
            decreases factories.len() - i,
        {
            let distance = oracle.distance(self.entity_id, factories[i].entity_id);
            if distance < nearest && i != self.entity_id && (factories[i].owner == owner) == same {
                nearest = distance;
                nearest_factory = Some(i);
            }
            i += 1;
        }
        (nearest_factory, nearest)
    }

    /// The nearest factory that another owner holds, and its distance.
    pub fn closest_enemy(&self, oracle: &DistanceOracle, factories: &[Base]) -> (found: (
        Option<usize>,
        i32,
    ))
        ensures
            is_nearest(*self, oracle@.routes, factories@, self.owner, false, found),
            0 <= found.1 <= MAX_INT,
    {
        self.closest_matching(oracle, factories, self.owner, false)
    }
}

/// One record of a turn's input.
#[derive(Clone, Copy, Debug, PartialEq, Eq, Structural)]
pub enum EntityRecord {
    Factory { entity_id: usize, owner: i32, cyborgs: i32, production: i32, cooldown: i32 },
    Troop(Troop),
    Bomb(Bomb),
}

/// What a factory record says of its factory.
pub ghost struct FactoryReport {
    pub owner: i32,
    pub cyborgs: i32,
    pub production: i32,
    pub cooldown: i32,
}

/// Why a turn's records were refused.
#[derive(Clone, Copy, Debug, PartialEq, Eq, Structural)]
pub enum WorldError {
    /// A factory record names a factory that the game does not have.
    UnknownFactory,
    /// A troop is on its way to a factory that the game does not have.
    UnknownTarget,
}

/// Why `record` cannot be taken in by a game of `factory_count` factories,
/// if it cannot.
pub open spec fn refusal(record: EntityRecord, factory_count: int) -> Option<WorldError> {
    match record {
        EntityRecord::Factory { entity_id, .. } => if entity_id >= factory_count {
            Some(WorldError::UnknownFactory)
        } else {
            None
        },
        EntityRecord::Troop(troop) => if troop.target >= factory_count {
            Some(WorldError::UnknownTarget)
        } else {
            None
        },
        EntityRecord::Bomb(_) => None,
    }
}

/// The refusal of the first record that cannot be taken in, if there is one.
pub open spec fn first_refusal(records: Seq<EntityRecord>, factory_count: int) -> Option<
    WorldError,
>
    decreases records.len(),
{
    if records.len() == 0 {
        None
    } else {
        match first_refusal(records.drop_last(), factory_count) {
            Some(e) => Some(e),
            None => refusal(records.last(), factory_count),
        }
    }
}

/// The troops among `records`, in their order.
pub open spec fn troops_in(records: Seq<EntityRecord>) -> Seq<Troop>
    decreases records.len(),
{
    if records.len() == 0 {
        Seq::empty()
    } else {
        match records.last() {
            EntityRecord::Troop(troop) => troops_in(records.drop_last()).push(troop),
            _ => troops_in(records.drop_last()),
        }
    }
}

/// The bombs among `records`, in their order.
pub open spec fn bombs_in(records: Seq<EntityRecord>) -> Seq<Bomb>
    decreases records.len(),
{
    if records.len() == 0 {
        Seq::empty()
    } else {
        match records.last() {
            EntityRecord::Bomb(bomb) => bombs_in(records.drop_last()).push(bomb),
            _ => bombs_in(records.drop_last()),
        }
    }
}

/// The ids of the troops among `records` that are on their way to
/// `factory`, in their order.
pub open spec fn inbound(records: Seq<EntityRecord>, factory: int) -> Seq<usize>
    decreases records.len(),
{
    if records.len() == 0 {
        Seq::empty()
    } else {
        match records.last() {
            EntityRecord::Troop(troop) => if troop.target == factory {
                inbound(records.drop_last(), factory).push(troop.entity_id)
            } else {
                inbound(records.drop_last(), factory)
            },
            _ => inbound(records.drop_last(), factory),
        }
    }
}

/// What the last record of `factory` among `records` says, if there is one.
pub open spec fn latest_report(records: Seq<EntityRecord>, factory: int) -> Option<FactoryReport>
    decreases records.len(),
{
    if records.len() == 0 {
        None
    } else {
        match records.last() {
            EntityRecord::Factory { entity_id, owner, cyborgs, production, cooldown } => if entity_id
                == factory {
                Some(FactoryReport { owner, cyborgs, production, cooldown })
            } else {
                latest_report(records.drop_last(), factory)
            },
            _ => latest_report(records.drop_last(), factory),
        }
    }
}

/// `after` is the factory at `position` once the turn's `records` were
/// taken in: the notes of the turn before are gone, the troops on their way
/// to it are listed, and owner, cyborgs, production and cooldown are those
/// of its last record, or as `before` where no record names it.
pub open spec fn factory_absorbed(
    before: Base,
    after: Base,
    records: Seq<EntityRecord>,
    position: int,
) -> bool {
    &&& after.entity_id == before.entity_id
    &&& after.troops_defensive == before.troops_defensive
    &&& after.troops_offensive == before.troops_offensive
    &&& after.incomming@ == inbound(records, position)
    &&& after.actions@ == Seq::<Action>::empty()
    &&& after.blacklist@ == Seq::<usize>::empty()
    &&& match latest_report(records, position) {
        Some(report) => {
            &&& after.owner == report.owner
            &&& after.cyborgs == report.cyborgs
            &&& after.production == report.production
            &&& after.cooldown == report.cooldown
        },
        None => {
            &&& after.owner == before.owner
            &&& after.cyborgs == before.cyborgs
            &&& after.production == before.production
            &&& after.cooldown == before.cooldown
        },
    }
}

/// All that is known of the game in one turn.
#[derive(Debug)]
pub struct WorldState {
    /// The factories, each at the position of its id.
    pub factories: Vec<Base>,
    pub troops: Vec<Troop>,
    pub bombs: Vec<Bomb>,
}

/// `after` is `before` once the turn's `records` were taken in.
pub open spec fn absorbed(before: WorldState, after: WorldState, records: Seq<EntityRecord>) -> bool {
    &&& after.factories.len() == before.factories.len()
    &&& forall|i: int|
        0 <= i < before.factories.len() ==> factory_absorbed(
            before.factories[i],
            #[trigger] after.factories[i],
            records,
            i,
        )
    &&& after.troops@ == troops_in(records)
    &&& after.bombs@ == bombs_in(records)
}

impl WorldState {
    /// The state before the first turn: `factory_count` neutral, empty
    /// factories, no troops and no bombs.
    pub fn new(factory_count: usize) -> (made: WorldState)
        ensures
            made.factories.len() == factory_count,
            made.troops@ == Seq::<Troop>::empty(),
            made.bombs@ == Seq::<Bomb>::empty(),
            forall|i: int|
                0 <= i < factory_count ==> {
                    let f = #[trigger] made.factories[i];
                    &&& f.entity_id == i
                    &&& f.owner == 0
                    &&& f.cyborgs == 0
                    &&& f.production == 0
                    &&& f.cooldown == 0
                    &&& f.incomming@ == Seq::<usize>::empty()
                    &&& f.actions@ == Seq::<Action>::empty()
                    &&& f.blacklist@ == Seq::<usize>::empty()
                    &&& f.troops_defensive == 0
                    &&& f.troops_offensive == 0
                },
    {
        let mut factories: Vec<Base> = Vec::new();
        let mut i: usize = 0;
        while i < factory_count
            invariant
                i <= factory_count,
                factories.len() == i,
                forall|x: int|
                    0 <= x < i ==> {
                        let f = #[trigger] factories[x];
                        &&& f.entity_id == x
                        &&& f.owner == 0
                        &&& f.cyborgs == 0
                        &&& f.production == 0
                        &&& f.cooldown == 0
                        &&& f.incomming@ == Seq::<usize>::empty()
                        &&& f.actions@ == Seq::<Action>::empty()
                        &&& f.blacklist@ == Seq::<usize>::empty()
                        &&& f.troops_defensive == 0
                        &&& f.troops_offensive == 0
                    },
            decreases factory_count - i,
        {
            factories.push(Base::new(i));
            i += 1;
        }
        WorldState { factories, troops: Vec::new(), bombs: Vec::new() }
    }

    /// Takes in the records of a turn. Every factory first forgets the
    /// notes of the turn before; then each record is applied in order.
    /// Records that name a factory outside the game are refused, and the
    /// state then stays as it was.
    pub fn ingest(&mut self, records: &Vec<EntityRecord>) -> (done: Result<(), WorldError>)
        ensures
            match first_refusal(records@, old(self).factories.len() as int) {
                Some(e) => done == Err::<(), WorldError>(e) && *final(self) == *old(self),
                None => done is Ok && absorbed(*old(self), *final(self), records@),
            },
    {
        let n = self.factories.len();
        let mut k: usize = 0;
        while k < records.len()
            invariant
                k <= records.len(),
                n == self.factories.len(),
                *self == *old(self),
                first_refusal(records@.take(k as int), n as int) is None,
            decreases records.len() - k,
        {
            proof {
                assert(records@.take(k + 1).drop_last() =~= records@.take(k as int));
            }
            let bad = match records[k] {
                EntityRecord::Factory { entity_id, .. } => if entity_id >= n {
                    Some(WorldError::UnknownFactory)
                } else {
                    None
                },
                EntityRecord::Troop(troop) => if troop.target >= n {
                    Some(WorldError::UnknownTarget)
                } else {
                    None
                },
                EntityRecord::Bomb(_) => None,
            };
            match bad {
                Some(e) => {
                    proof {
                        lemma_refusal_stays(records@, n as int, k + 1);
                    }
                    return Err(e);
                },
                None => {},
            }
            k += 1;
        }
        proof {
            assert(records@.take(k as int) =~= records@);
        }
        let mut i: usize = 0;
        while i < n
            invariant
                i <= n,
                n == self.factories.len(),
                n == old(self).factories.len(),
                forall|x: int|
                    0 <= x < i ==> factory_absorbed(
                        old(self).factories[x],
                        #[trigger] self.factories[x],
                        Seq::<EntityRecord>::empty(),
                        x,
                    ),
                forall|x: int| i <= x < n ==> #[trigger] self.factories[x] == old(self).factories[x],
            decreases n - i,
        {
            self.factories[i].tick();
            i += 1;
        }
        self.troops.clear();
        self.bombs.clear();
        let mut k: usize = 0;
        while k < records.len()
            invariant
                k <= records.len(),
                n == old(self).factories.len(),
                first_refusal(records@, n as int) is None,
                absorbed(*old(self), *self, records@.take(k as int)),
            decreases records.len() - k,
        {
            proof {
                assert(records@.take(k + 1).drop_last() =~= records@.take(k as int));
                lemma_no_refusal(records@, n as int, k as int);
            }
            let ghost seen = records@.take(k as int);
            let ghost held = *self;
            match records[k] {
                EntityRecord::Factory { entity_id, owner, cyborgs, production, cooldown } => {
                    self.factories[entity_id].update(owner, cyborgs, production, cooldown);
                },
                EntityRecord::Troop(troop) => {
                    self.troops.push(troop);
                    self.factories[troop.target].push_incomming_troop(troop.entity_id);
                },
                EntityRecord::Bomb(bomb) => {
                    self.bombs.push(bomb);
                },
            }
            proof {
                assert forall|x: int| 0 <= x < n implies factory_absorbed(
                    old(self).factories[x],
                    #[trigger] self.factories[x],
                    records@.take(k + 1),
                    x,
                ) by {
                    assert(factory_absorbed(old(self).factories[x], held.factories[x], seen, x));
                }
            }
            k += 1;
        }
        proof {
            assert(records@.take(k as int) =~= records@);
        }
        Ok(())
    }
}

/// Once a prefix of the records holds a refusal, the whole list is refused
/// for the same reason.
proof fn lemma_refusal_stays(records: Seq<EntityRecord>, factory_count: int, upto: int)
    requires
        0 <= upto <= records.len(),
        first_refusal(records.take(upto), factory_count) is Some,
    ensures
        first_refusal(records, factory_count) == first_refusal(records.take(upto), factory_count),
    decreases records.len() - upto,
{
    if upto == records.len() {
        assert(records.take(upto) =~= records);
    } else {
        assert(records.take(upto + 1).drop_last() =~= records.take(upto));
        lemma_refusal_stays(records, factory_count, upto + 1);
    }
}

/// Where no record is refused, none of them is.
proof fn lemma_no_refusal(records: Seq<EntityRecord>, factory_count: int, k: int)
    requires
        0 <= k < records.len(),
        first_refusal(records, factory_count) is None,
    ensures
        refusal(records[k], factory_count) is None,
    decreases records.len(),
{
    if k < records.len() - 1 {
        lemma_no_refusal(records.drop_last(), factory_count, k);
    }
}

} // verus!
