//! The static map: factories and the weighted links between them.

use vstd::prelude::*;
use crate::tables::{is_square, square_table, table_of, write_pair};

verus! {

/// Largest number of factories a map may declare.
pub const NUM_FACTORIES: usize = 15;

/// Distance that stands for "no route".
pub const MAX_INT: i32 = 32767;

/// Longest link a map may declare. With at most `NUM_FACTORIES` factories a
/// route that visits no factory twice then always costs less than `MAX_INT`.
pub const MAX_LINK_DISTANCE: i32 = 2000;

/// Why a map description was refused.
#[derive(Clone, Copy, Debug, PartialEq, Eq, Structural)]
pub enum GraphError {
    /// The map declares more than `NUM_FACTORIES` factories.
    TooManyFactories,
    /// A link names a factory that the map does not have.
    UnknownFactory,
    /// A link joins a factory to itself.
    SelfLink,
    /// A link's distance is not in `1..=MAX_LINK_DISTANCE`.
    DistanceOutOfRange,
}

/// One line of the map description: factories `a` and `b` are `distance` turns apart.
#[derive(Clone, Copy, Debug, PartialEq, Eq, Structural)]
pub struct Link {
    pub a: usize,
    pub b: usize,
    pub distance: i32,
}

/// A table of link distances is a valid map when it is square, symmetric,
/// has no link from a factory to itself, and every entry is either 0 (no
/// link) or a distance in `1..=MAX_LINK_DISTANCE`.
pub open spec fn valid_map(w: Seq<Seq<int>>) -> bool {
    &&& w.len() <= NUM_FACTORIES
    &&& forall|a: int| 0 <= a < w.len() ==> (#[trigger] w[a]).len() == w.len()
    &&& forall|a: int| 0 <= a < w.len() ==> (#[trigger] w[a])[a] == 0
    &&& forall|a: int, b: int|
        0 <= a < w.len() && 0 <= b < w.len() ==> 0 <= #[trigger] w[a][b] <= MAX_LINK_DISTANCE
    &&& forall|a: int, b: int|
        0 <= a < w.len() && 0 <= b < w.len() ==> #[trigger] w[a][b] == w[b][a]
}

/// The map of `n` factories without any link.
pub open spec fn unlinked_map(n: nat) -> Seq<Seq<int>> {
    Seq::new(n, |a: int| Seq::new(n, |b: int| 0int))
}

/// The map `w` after factories `a` and `b` were joined at `distance`.
pub open spec fn with_link(w: Seq<Seq<int>>, a: int, b: int, distance: int) -> Seq<Seq<int>> {
    Seq::new(
        w.len(),
        |x: int|
            Seq::new(
                w[x].len(),
                |y: int|
                    if (x == a && y == b) || (x == b && y == a) {
                        distance
                    } else {
                        w[x][y]
                    },
            ),
    )
}

/// What adding one link to the map `w` gives: the first rule that the link
/// breaks, or the map with the link in it.
pub open spec fn connect_spec(w: Seq<Seq<int>>, link: Link) -> Result<Seq<Seq<int>>, GraphError> {
    if link.a >= w.len() || link.b >= w.len() {
        Err(GraphError::UnknownFactory)
    } else if link.a == link.b {
        Err(GraphError::SelfLink)
    } else if link.distance < 1 || link.distance > MAX_LINK_DISTANCE {
        Err(GraphError::DistanceOutOfRange)
    } else {
        Ok(with_link(w, link.a as int, link.b as int, link.distance as int))
    }
}

/// What adding `links` in order to the map `w` gives. The first link that is
/// refused decides the error; a later link between the same two factories
/// replaces an earlier one.
pub open spec fn connect_all_spec(w: Seq<Seq<int>>, links: Seq<Link>) -> Result<
    Seq<Seq<int>>,
    GraphError,
>
    decreases links.len(),
{
    if links.len() == 0 {
        Ok(w)
    } else {
        match connect_all_spec(w, links.drop_last()) {
            Ok(w1) => connect_spec(w1, links.last()),
            Err(e) => Err(e),
        }
    }
}

/// The factories of a game and the distances of the links between them,
/// fixed once built.
pub struct GraphModel {
    weights: Vec<Vec<i32>>,
}

impl View for GraphModel {
    type V = Seq<Seq<int>>;

    /// The table of link distances: entry `[a][b]` is the distance between
    /// `a` and `b`, or 0 where they are not linked.
    closed spec fn view(&self) -> Seq<Seq<int>> {
        table_of(self.weights)
    }
}

impl GraphModel {
    #[verifier::type_invariant]
    pub open spec fn well_formed(&self) -> bool {
        valid_map(self@)
    }

    /// A map of `factory_count` factories and no links.
    pub fn new(factory_count: usize) -> (made: Result<GraphModel, GraphError>)
        ensures
            factory_count > NUM_FACTORIES ==> made == Err::<GraphModel, GraphError>(
                GraphError::TooManyFactories,
            ),
            factory_count <= NUM_FACTORIES ==> made is Ok && made->Ok_0@ == unlinked_map(
                factory_count as nat,
            ),
    {
        if factory_count > NUM_FACTORIES {
            return Err(GraphError::TooManyFactories);
        }
        let weights = square_table(factory_count, 0);
        assert(table_of(weights) =~~= unlinked_map(factory_count as nat));
        Ok(GraphModel { weights })
    }

    /// Builds the map of `factory_count` factories from its link lines.
    pub fn from_links(factory_count: usize, links: &Vec<Link>) -> (made: Result<
        GraphModel,
        GraphError,
    >)
        ensures
            factory_count > NUM_FACTORIES ==> made == Err::<GraphModel, GraphError>(
                GraphError::TooManyFactories,
            ),
            factory_count <= NUM_FACTORIES ==> match connect_all_spec(
                unlinked_map(factory_count as nat),
                links@,
            ) {
                Ok(w) => made is Ok && made->Ok_0@ == w,
                Err(e) => made == Err::<GraphModel, GraphError>(e),
            },
    {
        if factory_count > NUM_FACTORIES {
            return Err(GraphError::TooManyFactories);
        }
        let mut weights = square_table(factory_count, 0);
        let ghost start = unlinked_map(factory_count as nat);
        assert(table_of(weights) =~~= start);
        let mut i: usize = 0;
        while i < links.len()
            invariant
                i <= links.len(),
                factory_count <= NUM_FACTORIES,
                start == unlinked_map(factory_count as nat),
                is_square(weights, factory_count as int),
                valid_map(table_of(weights)),
                connect_all_spec(start, links@.take(i as int)) == Ok::<Seq<Seq<int>>, GraphError>(
                    table_of(weights),
                ),
            decreases links.len() - i,
        {
            let link = links[i];
            let ghost before = table_of(weights);
            proof {
                assert(links@.take(i + 1).drop_last() =~= links@.take(i as int));
                assert(links@.take(i + 1).last() == link);
            }
            let refused = if link.a >= factory_count || link.b >= factory_count {
                Some(GraphError::UnknownFactory)
            } else if link.a == link.b {
                Some(GraphError::SelfLink)
            } else if link.distance < 1 || link.distance > MAX_LINK_DISTANCE {
                Some(GraphError::DistanceOutOfRange)
            } else {
                None
            };
            match refused {
                Some(e) => {
                    proof {
                        lemma_refused_prefix(start, links@, i + 1);
                    }
                    return Err(e);
                },
                None => {},
            }
            write_pair(&mut weights, link.a, link.b, link.distance, link.distance);
            assert(table_of(weights) =~~= with_link(
                before,
                link.a as int,
                link.b as int,
                link.distance as int,
            ));
            i += 1;
        }
        proof {
            assert(links@.take(i as int) =~= links@);
        }
        Ok(GraphModel { weights })
    }

    /// How many factories the map has.
    pub fn factory_count(&self) -> (n: usize)
        ensures
            n == self@.len(),
    {
        self.weights.len()
    }

    /// The distance of the link between `a` and `b`, if the map has one.
    pub fn link_distance(&self, a: usize, b: usize) -> (d: Option<i32>)
        ensures
            d == (if a < self@.len() && b < self@.len() && self@[a as int][b as int] > 0 {
                Some(self@[a as int][b as int] as i32)
            } else {
                None
            }),
    {
        proof {
            use_type_invariant(self);
        }
        if a < self.weights.len() && b < self.weights.len() {
            assert(self@[a as int].len() == self.weights[a as int].len());
            let d = self.weights[a][b];
            if d > 0 {
                return Some(d);
            }
        }
        None
    }
}

/// Once a prefix of the links is refused, the whole list is refused with the
/// same error.
proof fn lemma_refused_prefix(w: Seq<Seq<int>>, links: Seq<Link>, upto: int)
    requires
        0 <= upto <= links.len(),
        connect_all_spec(w, links.take(upto)) is Err,
    ensures
        connect_all_spec(w, links) == connect_all_spec(w, links.take(upto)),
    decreases links.len() - upto,
{
    if upto == links.len() {
        assert(links.take(upto) =~= links);
    } else {
        assert(links.take(upto + 1).drop_last() =~= links.take(upto));
        lemma_refused_prefix(w, links, upto + 1);
    }
}

} // verus!
