//! The line protocol: the map description and the records of a turn as
//! they come in, and the actions of a turn as they go out.

use vstd::prelude::*;
use crate::graph::Link;
use crate::text::{
    fields, i32_field, parse_i32, parse_usize, split_fields, texts, trim_bounds, trimmed,
    usize_field, SEMICOLON, SPACE,
};
use crate::world::{Action, Bomb, EntityRecord, Troop};

verus! {

/// Why a line was refused.
#[derive(Clone, Copy, Debug, PartialEq, Eq, Structural)]
pub enum ProtocolError {
    /// A field that should hold a number does not.
    MalformedNumber,
    /// The type tag of a record is none of `FACTORY`, `TROOP` and `BOMB`.
    UnknownEntityType,
    /// The line ends before its last field.
    TruncatedInput,
    /// The verb of an action is none of `WAIT`, `BOMB`, `TROOP`, `MOVE` and
    /// `INC`.
    UnknownAction,
}

/// The bytes of `FACTORY`.
pub open spec fn word_factory() -> Seq<u8> {
    seq![70u8, 65u8, 67u8, 84u8, 79u8, 82u8, 89u8]
}

/// The bytes of `TROOP`.
pub open spec fn word_troop() -> Seq<u8> {
    seq![84u8, 82u8, 79u8, 79u8, 80u8]
}

/// The bytes of `BOMB`.
pub open spec fn word_bomb() -> Seq<u8> {
    seq![66u8, 79u8, 77u8, 66u8]
}

/// The bytes of `WAIT`.
pub open spec fn word_wait() -> Seq<u8> {
    seq![87u8, 65u8, 73u8, 84u8]
}

/// The bytes of `MOVE`.
pub open spec fn word_move() -> Seq<u8> {
    seq![77u8, 79u8, 86u8, 69u8]
}

/// The bytes of `INC`.
pub open spec fn word_inc() -> Seq<u8> {
    seq![73u8, 78u8, 67u8]
}

/// The `usize` in field `i`: missing fields are a truncated line, and a
/// field that holds no such number is a malformed number.
pub open spec fn usize_at(f: Seq<Seq<u8>>, i: int) -> Result<usize, ProtocolError> {
    if i >= f.len() {
        Err(ProtocolError::TruncatedInput)
    } else {
        match usize_field(f[i]) {
            Some(v) => Ok(v),
            None => Err(ProtocolError::MalformedNumber),
        }
    }
}

/// The `i32` in field `i`, with the same errors.
pub open spec fn i32_at(f: Seq<Seq<u8>>, i: int) -> Result<i32, ProtocolError> {
    if i >= f.len() {
        Err(ProtocolError::TruncatedInput)
    } else {
        match i32_field(f[i]) {
            Some(v) => Ok(v),
            None => Err(ProtocolError::MalformedNumber),
        }
    }
}

/// What a line that holds one count says.
pub open spec fn count_of(line: Seq<u8>) -> Result<usize, ProtocolError> {
    usize_at(seq![line], 0)
}

/// What a link line says: two factories and their distance. The first
/// field in error decides; fields after the third are ignored.
pub open spec fn link_of(line: Seq<u8>) -> Result<Link, ProtocolError> {
    let f = fields(line, SPACE);
    let a = usize_at(f, 0);
    let b = usize_at(f, 1);
    let distance = i32_at(f, 2);
    if a is Err {
        Err(a->Err_0)
    } else if b is Err {
        Err(b->Err_0)
    } else if distance is Err {
        Err(distance->Err_0)
    } else {
        Ok(Link { a: a->Ok_0, b: b->Ok_0, distance: distance->Ok_0 })
    }
}

/// What the fields from the third on say of a factory with the given id.
pub open spec fn factory_of(f: Seq<Seq<u8>>, entity_id: usize) -> Result<
    EntityRecord,
    ProtocolError,
> {
    let owner = i32_at(f, 2);
    let cyborgs = i32_at(f, 3);
    let production = i32_at(f, 4);
    let cooldown = i32_at(f, 5);
    if owner is Err {
        Err(owner->Err_0)
    } else if cyborgs is Err {
        Err(cyborgs->Err_0)
    } else if production is Err {
        Err(production->Err_0)
    } else if cooldown is Err {
        Err(cooldown->Err_0)
    } else {
        Ok(
            EntityRecord::Factory {
                entity_id,
                owner: owner->Ok_0,
                cyborgs: cyborgs->Ok_0,
                production: production->Ok_0,
                cooldown: cooldown->Ok_0,
            },
        )
    }
}

/// What the fields from the third on say of a troop with the given id.
pub open spec fn troop_of(f: Seq<Seq<u8>>, entity_id: usize) -> Result<EntityRecord, ProtocolError> {
    let owner = i32_at(f, 2);
    let source = usize_at(f, 3);
    let target = usize_at(f, 4);
    let cyborgs = i32_at(f, 5);
    let cooldown = i32_at(f, 6);
    if owner is Err {
        Err(owner->Err_0)
    } else if source is Err {
        Err(source->Err_0)
    } else if target is Err {
        Err(target->Err_0)
    } else if cyborgs is Err {
        Err(cyborgs->Err_0)
    } else if cooldown is Err {
        Err(cooldown->Err_0)
    } else {
        Ok(
            EntityRecord::Troop(
                Troop {
                    entity_id,
                    owner: owner->Ok_0,
                    source: source->Ok_0,
                    target: target->Ok_0,
                    cyborgs: cyborgs->Ok_0,
                    cooldown: cooldown->Ok_0,
                },
            ),
        )
    }
}

/// What the fields from the third on say of a bomb with the given id.
pub open spec fn bomb_of(f: Seq<Seq<u8>>, entity_id: usize) -> Result<EntityRecord, ProtocolError> {
    let owner = i32_at(f, 2);
    let source = usize_at(f, 3);
    let target = usize_at(f, 4);
    let cooldown = i32_at(f, 5);
    if owner is Err {
        Err(owner->Err_0)
    } else if source is Err {
        Err(source->Err_0)
    } else if target is Err {
        Err(target->Err_0)
    } else if cooldown is Err {
        Err(cooldown->Err_0)
    } else {
        Ok(
            EntityRecord::Bomb(
                Bomb {
                    entity_id,
                    owner: owner->Ok_0,
                    source: source->Ok_0,
                    target: target->Ok_0,
                    cooldown: cooldown->Ok_0,
                },
            ),
        )
    }
}

/// What a record line says: the entity's id, its type tag, and the fields
/// that the type calls for. The first field in error decides.
pub open spec fn entity_of(line: Seq<u8>) -> Result<EntityRecord, ProtocolError> {
    let f = fields(line, SPACE);
    let entity_id = usize_at(f, 0);
    if entity_id is Err {
        Err(entity_id->Err_0)
    } else if f.len() < 2 {
        Err(ProtocolError::TruncatedInput)
    } else if trimmed(f[1]) == word_factory() {
        factory_of(f, entity_id->Ok_0)
    } else if trimmed(f[1]) == word_troop() {
        troop_of(f, entity_id->Ok_0)
    } else if trimmed(f[1]) == word_bomb() {
        bomb_of(f, entity_id->Ok_0)
    } else {
        Err(ProtocolError::UnknownEntityType)
    }
}

/// The decimal digits of `n`, without leading zeros.
pub open spec fn digits_of(n: nat) -> Seq<u8>
    decreases n,
{
    if n < 10 {
        seq![(48 + n) as u8]
    } else {
        digits_of(n / 10).push((48 + n % 10) as u8)
    }
}

/// `v` in decimal, with a `-` before it where it is negative.
pub open spec fn signed_text(v: int) -> Seq<u8> {
    if v < 0 {
        seq![45u8] + digits_of((-v) as nat)
    } else {
        digits_of(v as nat)
    }
}

/// How one action is written: its verb, then its numbers, one space
/// between them.
pub open spec fn action_text(a: Action) -> Seq<u8> {
    match a {
        Action::Wait => word_wait(),
        Action::Bomb { source, target } => word_bomb() + seq![SPACE] + digits_of(source as nat)
            + seq![SPACE] + digits_of(target as nat),
        Action::Troop { source, target, cyborgs } => word_troop() + seq![SPACE] + digits_of(
            source as nat,
        ) + seq![SPACE] + digits_of(target as nat) + seq![SPACE] + signed_text(cyborgs as int),
        Action::Inc { factory } => word_inc() + seq![SPACE] + digits_of(factory as nat),
    }
}

/// How the actions of a turn are written: one after the other with a
/// semicolon between them, and `WAIT` where there are none.
pub open spec fn actions_text(actions: Seq<Action>) -> Seq<u8>
    decreases actions.len(),
{
    if actions.len() == 0 {
        word_wait()
    } else if actions.len() == 1 {
        action_text(actions[0])
    } else {
        actions_text(actions.drop_last()) + seq![SEMICOLON] + action_text(actions.last())
    }
}

/// What the text of one action says. `MOVE` is read as `TROOP`; fields
/// after the last number are ignored.
pub open spec fn action_of(text: Seq<u8>) -> Result<Action, ProtocolError> {
    let f = fields(text, SPACE);
    let verb = trimmed(f[0]);
    if verb == word_wait() {
        Ok(Action::Wait)
    } else if verb == word_bomb() {
        let source = usize_at(f, 1);
        let target = usize_at(f, 2);
        if source is Err {
            Err(source->Err_0)
        } else if target is Err {
            Err(target->Err_0)
        } else {
            Ok(Action::Bomb { source: source->Ok_0, target: target->Ok_0 })
        }
    } else if verb == word_troop() || verb == word_move() {
        let source = usize_at(f, 1);
        let target = usize_at(f, 2);
        let cyborgs = i32_at(f, 3);
        if source is Err {
            Err(source->Err_0)
        } else if target is Err {
            Err(target->Err_0)
        } else if cyborgs is Err {
            Err(cyborgs->Err_0)
        } else {
            Ok(
                Action::Troop {
                    source: source->Ok_0,
                    target: target->Ok_0,
                    cyborgs: cyborgs->Ok_0,
                },
            )
        }
    } else if verb == word_inc() {
        let factory = usize_at(f, 1);
        if factory is Err {
            Err(factory->Err_0)
        } else {
            Ok(Action::Inc { factory: factory->Ok_0 })
        }
    } else {
        Err(ProtocolError::UnknownAction)
    }
}

/// What the texts of several actions say: the actions in their order, or
/// the error of the first text that is refused.
pub open spec fn actions_from(parts: Seq<Seq<u8>>) -> Result<Seq<Action>, ProtocolError>
    decreases parts.len(),
{
    if parts.len() == 0 {
        Ok(Seq::empty())
    } else {
        match actions_from(parts.drop_last()) {
            Err(e) => Err(e),
            Ok(done) => match action_of(parts.last()) {
                Ok(a) => Ok(done.push(a)),
                Err(e) => Err(e),
            },
        }
    }
}

/// What an answer line says: the actions between its semicolons.
pub open spec fn actions_of(line: Seq<u8>) -> Result<Seq<Action>, ProtocolError> {
    actions_from(fields(line, SEMICOLON))
}

/// Reads field `i` as a `usize`.
fn field_usize(parts: &Vec<Vec<u8>>, i: usize) -> (value: Result<usize, ProtocolError>)
    ensures
        value == usize_at(texts(parts@), i as int),
{
    if i >= parts.len() {
        return Err(ProtocolError::TruncatedInput);
    }
    match parse_usize(parts[i].as_slice()) {
        Some(v) => Ok(v),
        None => Err(ProtocolError::MalformedNumber),
    }
}

/// Reads field `i` as an `i32`.
fn field_i32(parts: &Vec<Vec<u8>>, i: usize) -> (value: Result<i32, ProtocolError>)
    ensures
        value == i32_at(texts(parts@), i as int),
{
    if i >= parts.len() {
        return Err(ProtocolError::TruncatedInput);
    }
    match parse_i32(parts[i].as_slice()) {
        Some(v) => Ok(v),
        None => Err(ProtocolError::MalformedNumber),
    }
}

/// Whether `field`, without the blanks around it, is `word`.
fn spells(field: &[u8], word: &[u8]) -> (yes: bool)
    ensures
        yes == (trimmed(field@) == word@),
{
    let (lo, hi) = trim_bounds(field);
    let ghost body = field@.subrange(lo as int, hi as int);
    if hi - lo != word.len() {
        return false;
    }
    let mut i: usize = 0;
    while i < word.len()
        invariant
            lo <= hi <= field.len(),
            hi - lo == word.len(),
            i <= word.len(),
            body == field@.subrange(lo as int, hi as int),
            trimmed(field@) == body,
            forall|x: int| 0 <= x < i ==> body[x] == word[x],
        decreases word.len() - i,
    {
        assert(body[i as int] == field[lo + i]);
        if field[lo + i] != word[i] {
            assert(body[i as int] != word@[i as int]);
            return false;
        }
        i += 1;
    }
    assert(body =~= word@);
    true
}

/// Reads a line that holds one count.
pub fn parse_count(line: &[u8]) -> (count: Result<usize, ProtocolError>)
    ensures
        count == count_of(line@),
{
    match parse_usize(line) {
        Some(v) => Ok(v),
        None => Err(ProtocolError::MalformedNumber),
    }
}

/// Reads a link line of the map description.
pub fn parse_link(line: &[u8]) -> (link: Result<Link, ProtocolError>)
    ensures
        link == link_of(line@),
{
    let parts = split_fields(line, SPACE);
    let a = match field_usize(&parts, 0) {
        Ok(v) => v,
        Err(e) => {
            return Err(e);
        },
    };
    let b = match field_usize(&parts, 1) {
        Ok(v) => v,
        Err(e) => {
            return Err(e);
        },
    };
    let distance = match field_i32(&parts, 2) {
        Ok(v) => v,
        Err(e) => {
            return Err(e);
        },
    };
    Ok(Link { a, b, distance })
}

/// Reads the fields of a factory record.
fn parse_factory(parts: &Vec<Vec<u8>>, entity_id: usize) -> (record: Result<
    EntityRecord,
    ProtocolError,
>)
    ensures
        record == factory_of(texts(parts@), entity_id),
{
    let owner = match field_i32(parts, 2) {
        Ok(v) => v,
        Err(e) => {
            return Err(e);
        },
    };
    let cyborgs = match field_i32(parts, 3) {
        Ok(v) => v,
        Err(e) => {
            return Err(e);
        },
    };
    let production = match field_i32(parts, 4) {
        Ok(v) => v,
        Err(e) => {
            return Err(e);
        },
    };
    let cooldown = match field_i32(parts, 5) {
        Ok(v) => v,
        Err(e) => {
            return Err(e);
        },
    };
    Ok(EntityRecord::Factory { entity_id, owner, cyborgs, production, cooldown })
}

/// Reads the fields of a troop record.
fn parse_troop(parts: &Vec<Vec<u8>>, entity_id: usize) -> (record: Result<
    EntityRecord,
    ProtocolError,
>)
    ensures
        record == troop_of(texts(parts@), entity_id),
{
    let owner = match field_i32(parts, 2) {
        Ok(v) => v,
        Err(e) => {
            return Err(e);
        },
    };
    let source = match field_usize(parts, 3) {
        Ok(v) => v,
        Err(e) => {
            return Err(e);
        },
    };
    let target = match field_usize(parts, 4) {
        Ok(v) => v,
        Err(e) => {
            return Err(e);
        },
    };
    let cyborgs = match field_i32(parts, 5) {
        Ok(v) => v,
        Err(e) => {
            return Err(e);
        },
    };
    let cooldown = match field_i32(parts, 6) {
        Ok(v) => v,
        Err(e) => {
            return Err(e);
        },
    };
    Ok(EntityRecord::Troop(Troop { entity_id, owner, source, target, cyborgs, cooldown }))
}

/// Reads the fields of a bomb record.
fn parse_bomb(parts: &Vec<Vec<u8>>, entity_id: usize) -> (record: Result<
    EntityRecord,
    ProtocolError,
>)
    ensures
        record == bomb_of(texts(parts@), entity_id),
{
    let owner = match field_i32(parts, 2) {
        Ok(v) => v,
        Err(e) => {
            return Err(e);
        },
    };
    let source = match field_usize(parts, 3) {
        Ok(v) => v,
        Err(e) => {
            return Err(e);
        },
    };
    let target = match field_usize(parts, 4) {
        Ok(v) => v,
        Err(e) => {
            return Err(e);
        },
    };
    let cooldown = match field_i32(parts, 5) {
        Ok(v) => v,
        Err(e) => {
            return Err(e);
        },
    };
    Ok(EntityRecord::Bomb(Bomb { entity_id, owner, source, target, cooldown }))
}

/// Reads one record line of a turn.
pub fn parse_entity(line: &[u8]) -> (record: Result<EntityRecord, ProtocolError>)
    ensures
        record == entity_of(line@),
{
    let parts = split_fields(line, SPACE);
    let entity_id = match field_usize(&parts, 0) {
        Ok(v) => v,
        Err(e) => {
            return Err(e);
        },
    };
    if parts.len() < 2 {
        return Err(ProtocolError::TruncatedInput);
    }
    let factory: [u8; 7] = [70, 65, 67, 84, 79, 82, 89];
    let troop: [u8; 5] = [84, 82, 79, 79, 80];
    let bomb: [u8; 4] = [66, 79, 77, 66];
    assert(factory@ =~= word_factory());
    assert(troop@ =~= word_troop());
    assert(bomb@ =~= word_bomb());
    assert(texts(parts@)[1] == parts[1]@);
    if spells(parts[1].as_slice(), factory.as_slice()) {
        parse_factory(&parts, entity_id)
    } else if spells(parts[1].as_slice(), troop.as_slice()) {
        parse_troop(&parts, entity_id)
    } else if spells(parts[1].as_slice(), bomb.as_slice()) {
        parse_bomb(&parts, entity_id)
    } else {
        Err(ProtocolError::UnknownEntityType)
    }
}

/// Reads the text of one action.
pub fn parse_action(text: &[u8]) -> (action: Result<Action, ProtocolError>)
    ensures
        action == action_of(text@),
{
    let parts = split_fields(text, SPACE);
    let wait: [u8; 4] = [87, 65, 73, 84];
    let bomb: [u8; 4] = [66, 79, 77, 66];
    let troop: [u8; 5] = [84, 82, 79, 79, 80];
    let moved: [u8; 4] = [77, 79, 86, 69];
    let inc: [u8; 3] = [73, 78, 67];
    assert(wait@ =~= word_wait());
    assert(bomb@ =~= word_bomb());
    assert(troop@ =~= word_troop());
    assert(moved@ =~= word_move());
    assert(inc@ =~= word_inc());
    assert(texts(parts@)[0] == parts[0]@);
    let verb = parts[0].as_slice();
    if spells(verb, wait.as_slice()) {
        Ok(Action::Wait)
    } else if spells(verb, bomb.as_slice()) {
        let source = match field_usize(&parts, 1) {
            Ok(v) => v,
            Err(e) => {
                return Err(e);
            },
        };
        let target = match field_usize(&parts, 2) {
            Ok(v) => v,
            Err(e) => {
                return Err(e);
            },
        };
        Ok(Action::Bomb { source, target })
    } else if spells(verb, troop.as_slice()) || spells(verb, moved.as_slice()) {
        let source = match field_usize(&parts, 1) {
            Ok(v) => v,
            Err(e) => {
                return Err(e);
            },
        };
        let target = match field_usize(&parts, 2) {
            Ok(v) => v,
            Err(e) => {
                return Err(e);
            },
        };
        let cyborgs = match field_i32(&parts, 3) {
            Ok(v) => v,
            Err(e) => {
                return Err(e);
            },
        };
        Ok(Action::Troop { source, target, cyborgs })
    } else if spells(verb, inc.as_slice()) {
        let factory = match field_usize(&parts, 1) {
            Ok(v) => v,
            Err(e) => {
                return Err(e);
            },
        };
        Ok(Action::Inc { factory })
    } else {
        Err(ProtocolError::UnknownAction)
    }
}

/// Reads an answer line: the actions between its semicolons.
pub fn parse_actions(line: &[u8]) -> (actions: Result<Vec<Action>, ProtocolError>)
    ensures
        match actions_of(line@) {
            Ok(list) => actions is Ok && actions->Ok_0@ == list,
            Err(e) => actions == Err::<Vec<Action>, ProtocolError>(e),
        },
{
    let parts = split_fields(line, SEMICOLON);
    let ghost all = texts(parts@);
    let mut actions: Vec<Action> = Vec::new();
    let mut i: usize = 0;
    assert(all.take(0) =~= Seq::<Seq<u8>>::empty());
    while i < parts.len()
        invariant
            i <= parts.len(),
            all == texts(parts@),
            all == fields(line@, SEMICOLON),
            actions_from(all.take(i as int)) == Ok::<Seq<Action>, ProtocolError>(actions@),
        decreases parts.len() - i,
    {
        proof {
            assert(all.take(i + 1).drop_last() =~= all.take(i as int));
            assert(all.take(i + 1).last() == parts[i as int]@);
        }
        match parse_action(parts[i].as_slice()) {
            Ok(a) => {
                actions.push(a);
            },
            Err(e) => {
                proof {
                    lemma_refused_action(all, i + 1);
                }
                return Err(e);
            },
        }
        i += 1;
    }
    proof {
        assert(all.take(i as int) =~= all);
    }
    Ok(actions)
}

/// Once the actions up to some text are refused, the whole answer is
/// refused with the same error.
proof fn lemma_refused_action(parts: Seq<Seq<u8>>, upto: int)
    requires
        0 <= upto <= parts.len(),
        actions_from(parts.take(upto)) is Err,
    ensures
        actions_from(parts) == actions_from(parts.take(upto)),
    decreases parts.len() - upto,
{
    if upto == parts.len() {
        assert(parts.take(upto) =~= parts);
    } else {
        assert(parts.take(upto + 1).drop_last() =~= parts.take(upto));
        lemma_refused_action(parts, upto + 1);
    }
}

/// Appends `word` to `out`.
fn push_word(out: &mut Vec<u8>, word: &[u8])
    ensures
        final(out)@ == old(out)@ + word@,
{
    let mut i: usize = 0;
    while i < word.len()
        invariant
            i <= word.len(),
            out@ == old(out)@ + word@.take(i as int),
        decreases word.len() - i,
    {
        out.push(word[i]);
        assert(word@.take(i + 1) =~= word@.take(i as int).push(word[i as int]));
        i += 1;
    }
    assert(word@.take(i as int) =~= word@);
}

/// Appends `n` in decimal to `out`.
fn push_decimal(out: &mut Vec<u8>, n: u64)
    ensures
        final(out)@ == old(out)@ + digits_of(n as nat),
    decreases n,
{
    if n >= 10 {
        push_decimal(out, n / 10);
    }
    out.push(48 + (n % 10) as u8);
    assert(out@ =~= old(out)@ + digits_of(n as nat));
}

/// Appends `v` in decimal to `out`, with its sign where it is negative.
fn push_signed(out: &mut Vec<u8>, v: i32)
    ensures
        final(out)@ == old(out)@ + signed_text(v as int),
{
    if v < 0 {
        out.push(45);
        push_decimal(out, (-(v as i64)) as u64);
        assert(out@ =~= old(out)@ + signed_text(v as int));
    } else {
        push_decimal(out, v as u64);
    }
}

/// Appends the text of `action` to `out`.
pub fn format_action(out: &mut Vec<u8>, action: &Action)
    ensures
        final(out)@ == old(out)@ + action_text(*action),
{
    match *action {
        Action::Wait => {
            let word: [u8; 4] = [87, 65, 73, 84];
            assert(word@ =~= word_wait());
            push_word(out, word.as_slice());
        },
        Action::Bomb { source, target } => {
            let word: [u8; 4] = [66, 79, 77, 66];
            assert(word@ =~= word_bomb());
            push_word(out, word.as_slice());
            out.push(SPACE);
            push_decimal(out, source as u64);
            out.push(SPACE);
            push_decimal(out, target as u64);
            assert(out@ =~= old(out)@ + action_text(*action));
        },
        Action::Troop { source, target, cyborgs } => {
            let word: [u8; 5] = [84, 82, 79, 79, 80];
            assert(word@ =~= word_troop());
            push_word(out, word.as_slice());
            out.push(SPACE);
            push_decimal(out, source as u64);
            out.push(SPACE);
            push_decimal(out, target as u64);
            out.push(SPACE);
            push_signed(out, cyborgs);
            assert(out@ =~= old(out)@ + action_text(*action));
        },
        Action::Inc { factory } => {
            let word: [u8; 3] = [73, 78, 67];
            assert(word@ =~= word_inc());
            push_word(out, word.as_slice());
            out.push(SPACE);
            push_decimal(out, factory as u64);
            assert(out@ =~= old(out)@ + action_text(*action));
        },
    }
}

/// Writes the answer line of a turn, without a line end.
pub fn format_actions(actions: &Vec<Action>) -> (line: Vec<u8>)
    ensures
        line@ == actions_text(actions@),
{
    let mut line: Vec<u8> = Vec::new();
    if actions.len() == 0 {
        format_action(&mut line, &Action::Wait);
        assert(line@ =~= word_wait());
        return line;
    }
    let mut i: usize = 0;
    while i < actions.len()
        invariant
            i <= actions.len(),
            actions.len() > 0,
            i == 0 ==> line@ == Seq::<u8>::empty(),
            i > 0 ==> line@ == actions_text(actions@.take(i as int)),
        decreases actions.len() - i,
    {
        let ghost before = line@;
        proof {
            assert(actions@.take(i + 1).drop_last() =~= actions@.take(i as int));
            assert(actions@.take(i + 1).last() == actions[i as int]);
        }
        if i > 0 {
            line.push(SEMICOLON);
        }
        format_action(&mut line, &actions[i]);
        proof {
            if i == 0 {
                assert(actions@.take(1)[0] == actions[0]);
                assert(line@ =~= action_text(actions[0]));
            } else {
                assert(line@ =~= before + seq![SEMICOLON] + action_text(actions[i as int]));
            }
        }
        i += 1;
    }
    assert(actions@.take(i as int) =~= actions@);
    line
}

} // verus!
