use poker_sim::{Card, cards_well_formed, parse_card, parse_cards};

#[test]
fn reads_each_rank_and_suit() {
    assert_eq!(parse_card(b'2', b'h'), Some(Card { value: 2, suit: 0 }));
    assert_eq!(parse_card(b'9', b'd'), Some(Card { value: 9, suit: 1 }));
    assert_eq!(parse_card(b'T', b'c'), Some(Card { value: 10, suit: 2 }));
    assert_eq!(parse_card(b'J', b's'), Some(Card { value: 11, suit: 3 }));
    assert_eq!(parse_card(b'Q', b'h'), Some(Card { value: 12, suit: 0 }));
    assert_eq!(parse_card(b'K', b'h'), Some(Card { value: 13, suit: 0 }));
    assert_eq!(parse_card(b'A', b's'), Some(Card { value: 14, suit: 3 }));
}

#[test]
fn rejects_unknown_characters() {
    assert_eq!(parse_card(b'1', b'h'), None);
    assert_eq!(parse_card(b'a', b'h'), None);
    assert_eq!(parse_card(b'A', b'x'), None);
    assert_eq!(parse_card(b'A', b'H'), None);
}

#[test]
fn reads_whitespace_separated_tokens() {
    assert!(cards_well_formed(b"  Ah\tKd 2c\n"));
    assert_eq!(
        parse_cards(b"  Ah\tKd 2c\n"),
        vec![
            Card { value: 14, suit: 0 },
            Card { value: 13, suit: 1 },
            Card { value: 2, suit: 2 },
        ]
    );
    assert_eq!(
        parse_cards(b"As Td 2h"),
        vec![
            Card { value: 14, suit: 3 },
            Card { value: 10, suit: 1 },
            Card { value: 2, suit: 0 },
        ]
    );
    assert!(cards_well_formed(b""));
    assert_eq!(parse_cards(b""), vec![]);
    assert_eq!(parse_cards(b"   "), vec![]);
}

#[test]
fn unicode_whitespace_separates_tokens() {
    let expected = vec![Card { value: 14, suit: 3 }, Card { value: 13, suit: 1 }];
    for sep in ["\u{0B}", "\u{0C}", "\u{85}", "\u{A0}", "\u{1680}", "\u{2003}", "\u{200A}",
        "\u{2028}", "\u{2029}", "\u{202F}", "\u{205F}", "\u{3000}"]
    {
        let input = format!("As{}Kd", sep);
        let split: Vec<&str> = input.split_whitespace().collect();
        assert_eq!(split.len(), 2);
        assert!(cards_well_formed(input.as_bytes()));
        assert_eq!(parse_cards(input.as_bytes()), expected);
    }
}

#[test]
fn other_characters_do_not_separate() {
    assert!(!cards_well_formed("As\u{200B}Kd".as_bytes()));
    assert!(!cards_well_formed("As\u{00A9}Kd".as_bytes()));
}

#[test]
fn rejects_bad_tokens() {
    assert!(!cards_well_formed(b"Ah K"));
    assert!(!cards_well_formed(b"AhKd"));
    assert!(!cards_well_formed(b"Ah 10d"));
    assert!(!cards_well_formed(b"10h Kd"));
    assert!(!cards_well_formed(b"Zh"));
    assert!(!cards_well_formed(b"Xs Kd"));
    assert!(!cards_well_formed(b"Ax"));
    assert!(!cards_well_formed(b"Ah Kx"));
}
