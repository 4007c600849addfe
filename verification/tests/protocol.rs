use factory_command::graph::Link;
use factory_command::protocol::{
    format_action, format_actions, parse_action, parse_actions, parse_count, parse_entity,
    parse_link, ProtocolError,
};
use factory_command::text::{blank, parse_i32, parse_usize, split_fields, trim_bounds};
use factory_command::world::{Action, Bomb, EntityRecord, Troop};

#[test]
fn fields_lie_between_separators() {
    assert_eq!(split_fields(b"a bc  d", b' '), vec![
        b"a".to_vec(),
        b"bc".to_vec(),
        b"".to_vec(),
        b"d".to_vec()
    ]);
    assert_eq!(split_fields(b"", b' '), vec![b"".to_vec()]);
    assert_eq!(split_fields(b";", b';'), vec![b"".to_vec(), b"".to_vec()]);
    assert_eq!(split_fields(b"WAIT", b';'), vec![b"WAIT".to_vec()]);
}

#[test]
fn blanks_are_trimmed_at_both_ends() {
    assert_eq!(trim_bounds(b"  12\r\n"), (2, 4));
    assert_eq!(trim_bounds(b"1 2"), (0, 3));
    assert_eq!(trim_bounds(b" \t\n"), (3, 3));
    assert_eq!(trim_bounds(b""), (0, 0));
    assert!(blank(b' ') && blank(b'\t') && blank(b'\n') && blank(b'\r') && blank(11) && blank(12));
    assert!(!blank(b'0') && !blank(8) && !blank(14) && !blank(b'-'));
}

#[test]
fn numbers_are_read_as_std_reads_them() {
    assert_eq!(parse_usize(b"0"), Some(0));
    assert_eq!(parse_usize(b" 42\n"), Some(42));
    assert_eq!(parse_usize(b"+7"), Some(7));
    assert_eq!(parse_usize(b"007"), Some(7));
    assert_eq!(parse_usize(b"-1"), None);
    assert_eq!(parse_usize(b""), None);
    assert_eq!(parse_usize(b"+"), None);
    assert_eq!(parse_usize(b"1 2"), None);
    assert_eq!(parse_usize(b"12a"), None);
    assert_eq!(parse_usize(usize::MAX.to_string().as_bytes()), Some(usize::MAX));
    assert_eq!(parse_usize(b"18446744073709551616"), None);
    assert_eq!(parse_usize(b"99999999999999999999999999999999999999999"), None);
    assert_eq!(parse_i32(b"-1"), Some(-1));
    assert_eq!(parse_i32(b"-0"), Some(0));
    assert_eq!(parse_i32(b"+15"), Some(15));
    assert_eq!(parse_i32(b"2147483647"), Some(i32::MAX));
    assert_eq!(parse_i32(b"2147483648"), None);
    assert_eq!(parse_i32(b"-2147483648\n"), Some(i32::MIN));
    assert_eq!(parse_i32(b"-2147483649"), None);
    assert_eq!(parse_i32(b"--1"), None);
    assert_eq!(parse_i32(b"-+1"), None);
    assert_eq!(parse_i32(b"-"), None);
    assert_eq!(parse_i32(b"1.5"), None);
    for text in ["0", "+0", "-0", " 12 ", "x", "", "4294967296", "-2147483648", "1e3"] {
        assert_eq!(parse_i32(text.as_bytes()), text.trim().parse::<i32>().ok());
        assert_eq!(parse_usize(text.as_bytes()), text.trim().parse::<usize>().ok());
    }
}

#[test]
fn counts_and_links() {
    assert_eq!(parse_count(b"15\n"), Ok(15));
    assert_eq!(parse_count(b"-3"), Err(ProtocolError::MalformedNumber));
    assert_eq!(parse_count(b""), Err(ProtocolError::MalformedNumber));
    assert_eq!(parse_link(b"0 1 3\n"), Ok(Link { a: 0, b: 1, distance: 3 }));
    assert_eq!(parse_link(b"4 2 -7 extra"), Ok(Link { a: 4, b: 2, distance: -7 }));
    assert_eq!(parse_link(b"0 1"), Err(ProtocolError::TruncatedInput));
    assert_eq!(parse_link(b"0"), Err(ProtocolError::TruncatedInput));
    assert_eq!(parse_link(b""), Err(ProtocolError::MalformedNumber));
    assert_eq!(parse_link(b"0 x 3"), Err(ProtocolError::MalformedNumber));
    assert_eq!(parse_link(b"0  3"), Err(ProtocolError::MalformedNumber));
    assert_eq!(parse_link(b"x"), Err(ProtocolError::MalformedNumber));
}

#[test]
fn records_of_a_turn() {
    assert_eq!(
        parse_entity(b"2 FACTORY -1 10 5 0\n"),
        Ok(EntityRecord::Factory { entity_id: 2, owner: -1, cyborgs: 10, production: 5, cooldown: 0 })
    );
    assert_eq!(
        parse_entity(b"7 TROOP 1 0 2 12 3"),
        Ok(EntityRecord::Troop(Troop {
            entity_id: 7,
            owner: 1,
            source: 0,
            target: 2,
            cyborgs: 12,
            cooldown: 3
        }))
    );
    assert_eq!(
        parse_entity(b"9 BOMB -1 2 0 4 0"),
        Ok(EntityRecord::Bomb(Bomb { entity_id: 9, owner: -1, source: 2, target: 0, cooldown: 4 }))
    );
}

#[test]
fn refused_records() {
    assert_eq!(parse_entity(b"2 TOWER 1 2 3 4"), Err(ProtocolError::UnknownEntityType));
    assert_eq!(parse_entity(b"2 factory 1 2 3 4"), Err(ProtocolError::UnknownEntityType));
    assert_eq!(parse_entity(b"2"), Err(ProtocolError::TruncatedInput));
    assert_eq!(parse_entity(b"2 FACTORY 1 2 3"), Err(ProtocolError::TruncatedInput));
    assert_eq!(parse_entity(b"2 TROOP 1 0 2 12"), Err(ProtocolError::TruncatedInput));
    assert_eq!(parse_entity(b"2 BOMB 1 0 2"), Err(ProtocolError::TruncatedInput));
    assert_eq!(parse_entity(b"x FACTORY 1 2 3 4"), Err(ProtocolError::MalformedNumber));
    assert_eq!(parse_entity(b"2 FACTORY one 2 3 4"), Err(ProtocolError::MalformedNumber));
    assert_eq!(parse_entity(b"2 TROOP 1 -1 2 12 3"), Err(ProtocolError::MalformedNumber));
    assert_eq!(parse_entity(b"2 BOMB 1 0 2 4.5"), Err(ProtocolError::MalformedNumber));
    assert_eq!(parse_entity(b""), Err(ProtocolError::MalformedNumber));
    // The first field in error decides.
    assert_eq!(parse_entity(b"2 FACTORY x"), Err(ProtocolError::MalformedNumber));
    assert_eq!(parse_entity(b"x"), Err(ProtocolError::MalformedNumber));
}

#[test]
fn answers_are_written_with_semicolons() {
    let actions = vec![
        Action::Bomb { source: 0, target: 2 },
        Action::Troop { source: 0, target: 12, cyborgs: 10 },
        Action::Inc { factory: 3 },
        Action::Wait,
    ];
    assert_eq!(format_actions(&actions), b"BOMB 0 2;TROOP 0 12 10;INC 3;WAIT".to_vec());
    assert_eq!(format_actions(&vec![]), b"WAIT".to_vec());
    assert_eq!(format_actions(&vec![Action::Wait]), b"WAIT".to_vec());
    let mut out = b"> ".to_vec();
    format_action(&mut out, &Action::Troop { source: 10, target: 0, cyborgs: -2147483648 });
    assert_eq!(out, b"> TROOP 10 0 -2147483648".to_vec());
    let mut out = Vec::new();
    format_action(&mut out, &Action::Inc { factory: usize::MAX });
    assert_eq!(out, format!("INC {}", usize::MAX).into_bytes());
}

#[test]
fn answers_are_read_back() {
    assert_eq!(parse_action(b"WAIT"), Ok(Action::Wait));
    assert_eq!(parse_action(b"BOMB 1 2"), Ok(Action::Bomb { source: 1, target: 2 }));
    assert_eq!(parse_action(b"MOVE 1 2 3"), Ok(Action::Troop { source: 1, target: 2, cyborgs: 3 }));
    assert_eq!(parse_action(b"TROOP 1 2 3"), Ok(Action::Troop { source: 1, target: 2, cyborgs: 3 }));
    assert_eq!(parse_action(b"INC 4\n"), Ok(Action::Inc { factory: 4 }));
    assert_eq!(parse_action(b"MSG hello"), Err(ProtocolError::UnknownAction));
    assert_eq!(parse_action(b""), Err(ProtocolError::UnknownAction));
    assert_eq!(parse_action(b"BOMB 1"), Err(ProtocolError::TruncatedInput));
    assert_eq!(parse_action(b"TROOP 1 2"), Err(ProtocolError::TruncatedInput));
    assert_eq!(parse_action(b"INC"), Err(ProtocolError::TruncatedInput));
    assert_eq!(parse_action(b"INC x"), Err(ProtocolError::MalformedNumber));
    assert_eq!(parse_actions(b"WAIT;INC 2"), Ok(vec![Action::Wait, Action::Inc { factory: 2 }]));
    assert_eq!(parse_actions(b"WAIT;;INC 2"), Err(ProtocolError::UnknownAction));
    assert_eq!(parse_actions(b"INC x;NOPE"), Err(ProtocolError::MalformedNumber));
    assert_eq!(parse_actions(b""), Err(ProtocolError::UnknownAction));
}

#[test]
fn writing_and_reading_gives_the_same_actions() {
    let lists = vec![
        vec![Action::Wait],
        vec![Action::Bomb { source: 0, target: 2 }, Action::Troop { source: 0, target: 2, cyborgs: 10 }],
        vec![
            Action::Inc { factory: 0 },
            Action::Inc { factory: usize::MAX },
            Action::Troop { source: 14, target: 7, cyborgs: i32::MIN },
            Action::Troop { source: 1, target: 2, cyborgs: i32::MAX },
            Action::Troop { source: 100, target: 1000, cyborgs: 0 },
            Action::Wait,
            Action::Bomb { source: 9, target: 10 },
            Action::Troop { source: 3, target: 4, cyborgs: -1 },
        ],
    ];
    for actions in lists {
        assert_eq!(parse_actions(&format_actions(&actions)), Ok(actions));
    }
    assert_eq!(parse_actions(&format_actions(&vec![])), Ok(vec![Action::Wait]));
}
