//! Writing the actions of a turn and reading the line back gives the same
//! actions.

use vstd::prelude::*;
use crate::protocol::{
    action_of, action_text, actions_from, actions_of, actions_text, digits_of, i32_at,
    signed_text, usize_at, word_bomb, word_inc, word_move, word_troop, word_wait,
};
use crate::text::{
    all_digits, digits_value, fields, i32_field, is_blank, is_digit, trimmed, usize_field,
    SEMICOLON, SPACE,
};
use crate::world::Action;

verus! {

/// No byte of `s` is `b`.
pub open spec fn free_of(s: Seq<u8>, b: u8) -> bool {
    forall|i: int| 0 <= i < s.len() ==> #[trigger] s[i] != b
}

/// `s` is made of digits, capital letters, minus signs and spaces.
pub open spec fn plain(s: Seq<u8>) -> bool {
    forall|i: int|
        0 <= i < s.len() ==> {
            let b = #[trigger] s[i];
            is_digit(b) || (65 <= b && b <= 90) || b == 45 || b == 32
        }
}

/// The digits of a number are digits, at least one, and write the number.
pub proof fn lemma_digits_write(n: nat)
    ensures
        digits_of(n).len() >= 1,
        all_digits(digits_of(n)),
        digits_value(digits_of(n)) == n,
    decreases n,
{
    if n >= 10 {
        lemma_digits_write(n / 10);
        let d = digits_of(n);
        assert(d.drop_last() =~= digits_of(n / 10));
    } else {
        let d = digits_of(n);
        assert(d.drop_last() =~= Seq::<u8>::empty());
        assert(digits_value(d.drop_last()) == 0);
    }
}

/// A text that neither begins nor ends with a blank is its own trimming.
pub proof fn lemma_trimmed_as_is(s: Seq<u8>)
    requires
        s.len() > 0 ==> !is_blank(s[0]) && !is_blank(s.last()),
    ensures
        trimmed(s) == s,
{
}

/// A field that holds the digits of `n` reads as `n`.
pub proof fn lemma_usize_round_trip(n: usize)
    ensures
        usize_field(digits_of(n as nat)) == Some(n),
{
    let d = digits_of(n as nat);
    lemma_digits_write(n as nat);
    assert(is_digit(d[0]) && is_digit(d.last()));
    lemma_trimmed_as_is(d);
}

/// A field that holds `v` with its sign reads as `v`.
pub proof fn lemma_i32_round_trip(v: i32)
    ensures
        i32_field(signed_text(v as int)) == Some(v),
{
    let text = signed_text(v as int);
    if v < 0 {
        let d = digits_of((-v) as nat);
        lemma_digits_write((-v) as nat);
        assert(text.drop_first() =~= d);
        assert(text.last() == d.last());
        assert(is_digit(d.last()));
        lemma_trimmed_as_is(text);
    } else {
        lemma_digits_write(v as nat);
        assert(is_digit(text[0]) && is_digit(text.last()));
        lemma_trimmed_as_is(text);
    }
}

/// A text without the separator is one field.
pub proof fn lemma_one_field(x: Seq<u8>, sep: u8)
    requires
        free_of(x, sep),
    ensures
        fields(x, sep) == seq![x],
    decreases x.len(),
{
    if x.len() > 0 {
        lemma_one_field(x.drop_last(), sep);
        assert(fields(x, sep) =~= seq![x.drop_last().push(x.last())]);
        assert(x.drop_last().push(x.last()) =~= x);
    } else {
        assert(x =~= Seq::<u8>::empty());
    }
}

/// A separator and a text without it add one field to a line.
pub proof fn lemma_one_more_field(a: Seq<u8>, x: Seq<u8>, sep: u8)
    requires
        free_of(x, sep),
    ensures
        fields(a + seq![sep] + x, sep) == fields(a, sep).push(x),
    decreases x.len(),
{
    let whole = a + seq![sep] + x;
    if x.len() == 0 {
        assert(whole.drop_last() =~= a);
        assert(x =~= Seq::<u8>::empty());
    } else {
        let shorter = x.drop_last();
        lemma_one_more_field(a, shorter, sep);
        assert(whole.drop_last() =~= a + seq![sep] + shorter);
        assert(whole.last() == x.last());
        assert(shorter.push(x.last()) =~= x);
        assert(fields(whole, sep) =~= fields(a, sep).push(x));
    }
}

/// The six words of the protocol are capital letters.
proof fn lemma_words_plain()
    ensures
        plain(word_wait()),
        plain(word_bomb()),
        plain(word_troop()),
        plain(word_move()),
        plain(word_inc()),
        free_of(word_wait(), SPACE),
        free_of(word_bomb(), SPACE),
        free_of(word_troop(), SPACE),
        free_of(word_inc(), SPACE),
        trimmed(word_wait()) == word_wait(),
        trimmed(word_bomb()) == word_bomb(),
        trimmed(word_troop()) == word_troop(),
        trimmed(word_inc()) == word_inc(),
        word_bomb() != word_wait(),
        word_troop() != word_wait(),
        word_troop() != word_bomb(),
        word_inc() != word_wait(),
        word_inc() != word_bomb(),
        word_inc() != word_troop(),
        word_inc() != word_move(),
{
    lemma_trimmed_as_is(word_wait());
    lemma_trimmed_as_is(word_bomb());
    lemma_trimmed_as_is(word_troop());
    lemma_trimmed_as_is(word_inc());
    assert(word_bomb()[0] != word_wait()[0]);
    assert(word_troop().len() != word_wait().len());
    assert(word_troop().len() != word_bomb().len());
    assert(word_inc().len() != word_wait().len());
    assert(word_inc().len() != word_bomb().len());
    assert(word_inc().len() != word_troop().len());
    assert(word_inc().len() != word_move().len());
}

/// The digits of a number hold no space and no semicolon.
proof fn lemma_digits_plain(n: nat)
    ensures
        plain(digits_of(n)),
        free_of(digits_of(n), SPACE),
        free_of(digits_of(n), SEMICOLON),
{
    lemma_digits_write(n);
    let d = digits_of(n);
    assert forall|i: int| 0 <= i < d.len() implies #[trigger] d[i] != SPACE && d[i]
        != SEMICOLON && is_digit(d[i]) by {
        assert(is_digit(d[i]));
    }
}

/// A number with its sign holds no space and no semicolon.
proof fn lemma_signed_plain(v: int)
    ensures
        plain(signed_text(v)),
        free_of(signed_text(v), SPACE),
        free_of(signed_text(v), SEMICOLON),
{
    if v < 0 {
        lemma_digits_plain((-v) as nat);
    } else {
        lemma_digits_plain(v as nat);
    }
}

/// The text of an action holds no semicolon.
pub proof fn lemma_action_text_whole(a: Action)
    ensures
        free_of(action_text(a), SEMICOLON),
{
    lemma_words_plain();
    match a {
        Action::Wait => {},
        Action::Bomb { source, target } => {
            lemma_digits_plain(source as nat);
            lemma_digits_plain(target as nat);
        },
        Action::Troop { source, target, cyborgs } => {
            lemma_digits_plain(source as nat);
            lemma_digits_plain(target as nat);
            lemma_signed_plain(cyborgs as int);
        },
        Action::Inc { factory } => {
            lemma_digits_plain(factory as nat);
        },
    }
    let text = action_text(a);
    assert(plain(text));
    assert forall|i: int| 0 <= i < text.len() implies #[trigger] text[i] != SEMICOLON by {
        let b = text[i];
        assert(is_digit(b) || (65 <= b && b <= 90) || b == 45 || b == 32);
    }
}

/// Reading the text of an action gives the action.
pub proof fn lemma_action_round_trip(a: Action)
    ensures
        action_of(action_text(a)) == Ok::<Action, crate::protocol::ProtocolError>(a),
{
    lemma_words_plain();
    match a {
        Action::Wait => {
            lemma_one_field(word_wait(), SPACE);
        },
        Action::Bomb { source, target } => {
            let d1 = digits_of(source as nat);
            let d2 = digits_of(target as nat);
            lemma_digits_plain(source as nat);
            lemma_digits_plain(target as nat);
            lemma_one_field(word_bomb(), SPACE);
            lemma_one_more_field(word_bomb(), d1, SPACE);
            lemma_one_more_field(word_bomb() + seq![SPACE] + d1, d2, SPACE);
            let f = fields(action_text(a), SPACE);
            assert(f =~= seq![word_bomb(), d1, d2]);
            lemma_usize_round_trip(source);
            lemma_usize_round_trip(target);
            assert(usize_at(f, 1) == Ok::<usize, crate::protocol::ProtocolError>(source));
            assert(usize_at(f, 2) == Ok::<usize, crate::protocol::ProtocolError>(target));
        },
        Action::Troop { source, target, cyborgs } => {
            let d1 = digits_of(source as nat);
            let d2 = digits_of(target as nat);
            let d3 = signed_text(cyborgs as int);
            lemma_digits_plain(source as nat);
            lemma_digits_plain(target as nat);
            lemma_signed_plain(cyborgs as int);
            lemma_one_field(word_troop(), SPACE);
            lemma_one_more_field(word_troop(), d1, SPACE);
            lemma_one_more_field(word_troop() + seq![SPACE] + d1, d2, SPACE);
            lemma_one_more_field(word_troop() + seq![SPACE] + d1 + seq![SPACE] + d2, d3, SPACE);
            let f = fields(action_text(a), SPACE);
            assert(f =~= seq![word_troop(), d1, d2, d3]);
            lemma_usize_round_trip(source);
            lemma_usize_round_trip(target);
            lemma_i32_round_trip(cyborgs);
            assert(usize_at(f, 1) == Ok::<usize, crate::protocol::ProtocolError>(source));
            assert(usize_at(f, 2) == Ok::<usize, crate::protocol::ProtocolError>(target));
            assert(i32_at(f, 3) == Ok::<i32, crate::protocol::ProtocolError>(cyborgs));
        },
        Action::Inc { factory } => {
            let d1 = digits_of(factory as nat);
            lemma_digits_plain(factory as nat);
            lemma_one_field(word_inc(), SPACE);
            lemma_one_more_field(word_inc(), d1, SPACE);
            let f = fields(action_text(a), SPACE);
            assert(f =~= seq![word_inc(), d1]);
            lemma_usize_round_trip(factory);
            assert(usize_at(f, 1) == Ok::<usize, crate::protocol::ProtocolError>(factory));
        },
    }
}

/// The answer line of a turn has one field for every action.
proof fn lemma_actions_fields(actions: Seq<Action>)
    requires
        actions.len() > 0,
    ensures
        fields(actions_text(actions), SEMICOLON) == Seq::new(
            actions.len(),
            |i: int| action_text(actions[i]),
        ),
    decreases actions.len(),
{
    let texts = Seq::new(actions.len(), |i: int| action_text(actions[i]));
    if actions.len() == 1 {
        lemma_action_text_whole(actions[0]);
        lemma_one_field(action_text(actions[0]), SEMICOLON);
        assert(seq![action_text(actions[0])] =~= texts);
    } else {
        let before = actions.drop_last();
        lemma_actions_fields(before);
        lemma_action_text_whole(actions.last());
        lemma_one_more_field(actions_text(before), action_text(actions.last()), SEMICOLON);
        assert(fields(actions_text(before), SEMICOLON).push(action_text(actions.last()))
            =~= texts);
    }
}

/// Reading the texts of the first `upto` actions gives those actions.
proof fn lemma_actions_from_texts(actions: Seq<Action>, upto: int)
    requires
        0 <= upto <= actions.len(),
    ensures
        actions_from(Seq::new(upto as nat, |i: int| action_text(actions[i]))) == Ok::<
            Seq<Action>,
            crate::protocol::ProtocolError,
        >(actions.take(upto)),
    decreases upto,
{
    let texts = Seq::new(upto as nat, |i: int| action_text(actions[i]));
    if upto == 0 {
        assert(actions.take(0) =~= Seq::<Action>::empty());
    } else {
        lemma_actions_from_texts(actions, upto - 1);
        assert(texts.drop_last() =~= Seq::new(
            (upto - 1) as nat,
            |i: int| action_text(actions[i]),
        ));
        lemma_action_round_trip(actions[upto - 1]);
        assert(texts.last() == action_text(actions[upto - 1]));
        assert(actions.take(upto - 1).push(actions[upto - 1]) =~= actions.take(upto));
    }
}

/// Writing the actions of a turn and reading the line back gives the same
/// actions, in the same order and with the same numbers. (No actions at
/// all are written as `WAIT`, and read back as that one action.)
pub proof fn lemma_actions_round_trip(actions: Seq<Action>)
    requires
        actions.len() > 0,
    ensures
        actions_of(actions_text(actions)) == Ok::<Seq<Action>, crate::protocol::ProtocolError>(
            actions,
        ),
{
    lemma_actions_fields(actions);
    lemma_actions_from_texts(actions, actions.len() as int);
    assert(actions.take(actions.len() as int) =~= actions);
}

/// No actions at all are written as `WAIT` and read back as that action.
pub proof fn lemma_no_actions_read_as_wait()
    ensures
        actions_of(actions_text(Seq::<Action>::empty())) == Ok::<
            Seq<Action>,
            crate::protocol::ProtocolError,
        >(seq![Action::Wait]),
{
    lemma_actions_round_trip(seq![Action::Wait]);
    assert(actions_text(seq![Action::Wait]) == action_text(Action::Wait));
}

} // verus!
