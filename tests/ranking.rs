use poker_sim::{Card, HandRank, check_multiples, check_straight, compare_hands, evaluate_hand};

#[test]
fn test_straight_exists() {
    let cards = vec![
        Card { value: 2, suit: 0 },
        Card { value: 3, suit: 0 },
        Card { value: 4, suit: 0 },
        Card { value: 5, suit: 0 },
        Card { value: 6, suit: 0 },
    ];
    assert_eq!(check_straight(&cards), Some(vec![6]));
}

#[test]
fn test_no_straight() {
    let cards = vec![
        Card { value: 2, suit: 0 },
        Card { value: 4, suit: 0 },
        Card { value: 6, suit: 0 },
        Card { value: 8, suit: 0 },
        Card { value: 10, suit: 0 },
    ];
    assert_eq!(check_straight(&cards), None);
}

#[test]
fn test_straight_with_duplicates() {
    let cards = vec![
        Card { value: 3, suit: 0 },
        Card { value: 4, suit: 0 },
        Card { value: 4, suit: 0 },
        Card { value: 5, suit: 0 },
        Card { value: 6, suit: 0 },
        Card { value: 7, suit: 0 },
    ];
    assert_eq!(check_straight(&cards), Some(vec![7]));
}

#[test]
fn test_straight_with_ace_high() {
    let cards = vec![
        Card { value: 10, suit: 0 },
        Card { value: 11, suit: 0 },
        Card { value: 12, suit: 0 },
        Card { value: 13, suit: 0 },
        Card { value: 14, suit: 0 },
    ];
    assert_eq!(check_straight(&cards), Some(vec![14]));
}

#[test]
fn test_straight_with_ace_low() {
    let cards = vec![
        Card { value: 2, suit: 0 },
        Card { value: 3, suit: 0 },
        Card { value: 4, suit: 0 },
        Card { value: 5, suit: 0 },
        Card { value: 14, suit: 0 },
    ];
    assert_eq!(check_straight(&cards), Some(vec![5]));
}

#[test]
fn test_straight_seven_cards() {
    let cards = vec![
        Card { value: 2, suit: 0 },
        Card { value: 3, suit: 0 },
        Card { value: 4, suit: 0 },
        Card { value: 5, suit: 0 },
        Card { value: 6, suit: 0 },
        Card { value: 7, suit: 0 },
        Card { value: 8, suit: 0 },
    ];
    assert_eq!(check_straight(&cards), Some(vec![8, 7, 6]));
}

#[test]
fn test_straight_seven_non_continuous_cards() {
    let cards = vec![
        Card { value: 2, suit: 0 },
        Card { value: 3, suit: 0 },
        Card { value: 4, suit: 0 },
        Card { value: 5, suit: 0 },
        Card { value: 6, suit: 0 },
        Card { value: 8, suit: 0 },
        Card { value: 9, suit: 0 },
    ];
    assert_eq!(check_straight(&cards), Some(vec![6]));
}

#[test]
fn test_no_pairs_threes_or_fours() {
    let cards = [
        Card { value: 2, suit: 0 },
        Card { value: 4, suit: 1 },
        Card { value: 6, suit: 2 },
        Card { value: 8, suit: 3 },
        Card { value: 10, suit: 0 },
    ];
    assert_eq!(
        check_multiples(&cards),
        (None, vec![], vec![], vec![10, 8, 6, 4, 2])
    );
}

#[test]
fn test_one_pair() {
    let cards = [
        Card { value: 3, suit: 0 },
        Card { value: 3, suit: 1 },
        Card { value: 6, suit: 2 },
        Card { value: 8, suit: 3 },
        Card { value: 10, suit: 0 },
    ];
    assert_eq!(
        check_multiples(&cards),
        (None, vec![], vec![3], vec![10, 8, 6])
    );
}

#[test]
fn test_two_pairs() {
    let cards = [
        Card { value: 5, suit: 0 },
        Card { value: 5, suit: 1 },
        Card { value: 6, suit: 2 },
        Card { value: 6, suit: 3 },
        Card { value: 10, suit: 0 },
    ];
    assert_eq!(
        check_multiples(&cards),
        (None, vec![], vec![6, 5], vec![10])
    );
}

#[test]
fn test_three_pairs() {
    let cards = [
        Card { value: 7, suit: 0 },
        Card { value: 7, suit: 1 },
        Card { value: 5, suit: 2 },
        Card { value: 5, suit: 3 },
        Card { value: 6, suit: 0 },
        Card { value: 6, suit: 1 },
    ];
    assert_eq!(
        check_multiples(&cards),
        (None, vec![], vec![7, 6, 5], vec![])
    );
}

#[test]
fn test_three_of_a_kind() {
    let cards = [
        Card { value: 7, suit: 0 },
        Card { value: 7, suit: 1 },
        Card { value: 7, suit: 2 },
        Card { value: 8, suit: 3 },
        Card { value: 10, suit: 0 },
    ];
    assert_eq!(
        check_multiples(&cards),
        (None, vec![7], vec![], vec![10, 8])
    );
}

#[test]
fn test_double_three_of_a_kind() {
    let cards = [
        Card { value: 7, suit: 0 },
        Card { value: 8, suit: 1 },
        Card { value: 7, suit: 2 },
        Card { value: 8, suit: 0 },
        Card { value: 7, suit: 1 },
        Card { value: 8, suit: 2 },
    ];
    assert_eq!(check_multiples(&cards), (None, vec![8, 7], vec![], vec![]));
}

#[test]
fn test_four_of_a_kind() {
    let cards = [
        Card { value: 9, suit: 0 },
        Card { value: 9, suit: 1 },
        Card { value: 9, suit: 2 },
        Card { value: 9, suit: 3 },
        Card { value: 10, suit: 0 },
    ];
    assert_eq!(check_multiples(&cards), (Some(9), vec![], vec![], vec![10]));
}

#[test]
fn test_a_pair_and_three_of_a_kind() {
    let cards = [
        Card { value: 2, suit: 0 },
        Card { value: 2, suit: 1 },
        Card { value: 2, suit: 2 },
        Card { value: 3, suit: 3 },
        Card { value: 3, suit: 0 },
    ];
    assert_eq!(check_multiples(&cards), (None, vec![2], vec![3], vec![]));
}

#[test]
fn test_full_house_1() {
    let cards = [Card { value: 2, suit: 0 }, Card { value: 2, suit: 1 }];
    let boards = [
        Card { value: 2, suit: 2 },
        Card { value: 3, suit: 3 },
        Card { value: 3, suit: 0 },
        Card { value: 3, suit: 1 },
    ];
    assert_eq!(evaluate_hand(&cards, &boards), HandRank::FullHouse(3, 2));
}
#[test]
fn test_full_house_2() {
    let cards = [Card { value: 2, suit: 0 }, Card { value: 2, suit: 1 }];
    let boards = [
        Card { value: 2, suit: 2 },
        Card { value: 3, suit: 0 },
        Card { value: 3, suit: 1 },
    ];
    assert_eq!(evaluate_hand(&cards, &boards), HandRank::FullHouse(3, 2));
}
#[test]
fn test_straight_flush() {
    let cards = [Card { value: 2, suit: 0 }, Card { value: 3, suit: 0 }];
    let boards = [
        Card { value: 4, suit: 0 },
        Card { value: 5, suit: 0 },
        Card { value: 6, suit: 1 },
        Card { value: 8, suit: 0 },
    ];
    assert_ne!(evaluate_hand(&cards, &boards), HandRank::StraightFlush(6));
}

#[test]
fn test_straight_flush_2() {
    let cards = [Card { value: 2, suit: 0 }, Card { value: 3, suit: 0 }];
    let boards = [
        Card { value: 4, suit: 0 },
        Card { value: 5, suit: 0 },
        Card { value: 6, suit: 0 },
        Card { value: 8, suit: 1 },
    ];
    assert_eq!(evaluate_hand(&cards, &boards), HandRank::StraightFlush(6));
}

#[test]
fn test_compare_hands_three_1() {
    let hand1 = HandRank::ThreeOfAKind(10, 9, 8);
    let hand2 = HandRank::ThreeOfAKind(10, 9, 8);
    assert_eq!(compare_hands(hand1, hand2), 0);
}

#[test]
fn test_compare_hands_three_2() {
    let hand1 = HandRank::ThreeOfAKind(10, 9, 6);
    let hand2 = HandRank::ThreeOfAKind(10, 8, 6);
    assert_eq!(compare_hands(hand1, hand2), 1);
}

#[test]
fn test_compare_hands_three_3() {
    let hand1 = HandRank::ThreeOfAKind(10, 9, 8);
    let hand2 = HandRank::ThreeOfAKind(10, 9, 7);
    assert_eq!(compare_hands(hand1, hand2), 1);
}

#[test]
fn test_compare_hands_flush_1() {
    let hand1 = HandRank::Flush(10, 9, 8, 7, 4);
    let hand2 = HandRank::Flush(10, 9, 8, 7, 5);
    assert_eq!(compare_hands(hand1, hand2), -1);
}

#[test]
fn test_compare_hands_two_pairs_1() {
    let hand1 = HandRank::TwoPair(10, 9, 8);
    let hand2 = HandRank::TwoPair(10, 9, 7);
    assert_eq!(compare_hands(hand1, hand2), 1);
}

#[test]
fn test_compare_hands_one_pairs_1() {
    let hand1 = HandRank::OnePair(10, 9, 8, 7);
    let hand2 = HandRank::OnePair(10, 9, 8, 6);
    assert_eq!(compare_hands(hand1, hand2), 1);
}

#[test]
fn test_compare_hands_tie_1() {
    let hand1 = HandRank::Flush(10, 9, 8, 7, 4);
    let hand2 = HandRank::Flush(10, 9, 8, 7, 4);
    assert_eq!(compare_hands(hand1, hand2), 0);
}

#[test]
fn test_compare_hands_tie_2() {
    let hand1 = HandRank::HighCard(10, 9, 8, 7, 4);
    let hand2 = HandRank::HighCard(10, 9, 8, 7, 4);
    assert_eq!(compare_hands(hand1, hand2), 0);
}

#[test]
fn test_four_of_a_kind_1() {
    let cards = [Card { value: 2, suit: 0 }, Card { value: 2, suit: 1 }];
    let boards = [
        Card { value: 2, suit: 2 },
        Card { value: 2, suit: 3 },
        Card { value: 9, suit: 0 },
        Card { value: 8, suit: 0 },
        Card { value: 8, suit: 1 },
    ];
    assert_eq!(evaluate_hand(&cards, &boards), HandRank::FourOfAKind(2, 9));
}

#[test]
fn test_four_of_a_kind_2() {
    let cards = [Card { value: 2, suit: 0 }, Card { value: 2, suit: 1 }];
    let boards = [
        Card { value: 2, suit: 2 },
        Card { value: 2, suit: 3 },
        Card { value: 6, suit: 0 },
        Card { value: 8, suit: 0 },
        Card { value: 8, suit: 1 },
    ];
    assert_eq!(evaluate_hand(&cards, &boards), HandRank::FourOfAKind(2, 8));
}

#[test]
fn test_four_of_a_kind_3() {
    let cards = [Card { value: 2, suit: 0 }, Card { value: 2, suit: 1 }];
    let boards = [
        Card { value: 2, suit: 2 },
        Card { value: 2, suit: 3 },
        Card { value: 7, suit: 0 },
        Card { value: 7, suit: 1 },
        Card { value: 7, suit: 2 },
    ];
    assert_eq!(evaluate_hand(&cards, &boards), HandRank::FourOfAKind(2, 7));
}

#[test]
fn test_four_of_a_kind_4() {
    let cards = [Card { value: 2, suit: 0 }, Card { value: 2, suit: 1 }];
    let boards = [
        Card { value: 2, suit: 2 },
        Card { value: 2, suit: 3 },
        Card { value: 6, suit: 0 },
        Card { value: 10, suit: 1 },
        Card { value: 5, suit: 2 },
    ];
    assert_eq!(evaluate_hand(&cards, &boards), HandRank::FourOfAKind(2, 10));
}

#[test]
fn test_straight_ace_both_high_and_low() {
    let cards = vec![
        Card { value: 10, suit: 0 },
        Card { value: 11, suit: 1 },
        Card { value: 12, suit: 2 },
        Card { value: 13, suit: 3 },
        Card { value: 14, suit: 0 },
        Card { value: 2, suit: 1 },
    ];
    assert_eq!(check_straight(&cards), Some(vec![14]));
}

#[test]
fn test_two_three_of_a_kinds() {
    let cards = [
        Card { value: 6, suit: 0 },
        Card { value: 6, suit: 1 },
        Card { value: 6, suit: 2 },
        Card { value: 8, suit: 3 },
        Card { value: 8, suit: 0 },
        Card { value: 8, suit: 1 },
    ];
    assert_eq!(check_multiples(&cards), (None, vec![8, 6], vec![], vec![]));
}

#[test]
fn test_straight_and_one_pair() {
    let cards = [
        Card { value: 2, suit: 0 },
        Card { value: 3, suit: 1 },
        Card { value: 4, suit: 2 },
        Card { value: 5, suit: 3 },
        Card { value: 6, suit: 0 },
        Card { value: 6, suit: 2 },
    ];
    assert_eq!(
        check_multiples(&cards),
        (None, vec![], vec![6], vec![5, 4, 3, 2])
    );
}

#[test]
fn test_full_house_tiebreaker() {
    let cards1 = [Card { value: 2, suit: 0 }, Card { value: 5, suit: 1 }];
    let cards2 = [Card { value: 3, suit: 0 }, Card { value: 4, suit: 0 }];

    let boards = [
        Card { value: 2, suit: 1 },
        Card { value: 2, suit: 2 },
        Card { value: 3, suit: 1 },
        Card { value: 3, suit: 2 },
    ];

    assert_eq!(evaluate_hand(&cards1, &boards), HandRank::FullHouse(3, 2));
    assert_eq!(evaluate_hand(&cards2, &boards), HandRank::FullHouse(3, 2));

    assert_eq!(
        compare_hands(
            evaluate_hand(&cards2, &boards),
            evaluate_hand(&cards1, &boards)
        ),
        0
    );
}

#[test]
fn test_straight_flush_ace_low() {
    let cards = [Card { value: 14, suit: 0 }, Card { value: 3, suit: 0 }];
    let boards = [
        Card { value: 4, suit: 0 },
        Card { value: 5, suit: 0 },
        Card { value: 2, suit: 0 },
        Card { value: 8, suit: 1 },
    ];
    assert_eq!(evaluate_hand(&cards, &boards), HandRank::StraightFlush(5));
}

#[test]
fn test_straight_ace_low() {
    let cards = [Card { value: 14, suit: 0 }, Card { value: 3, suit: 0 }];
    let boards = [
        Card { value: 4, suit: 0 },
        Card { value: 5, suit: 0 },
        Card { value: 2, suit: 1 },
        Card { value: 8, suit: 1 },
    ];
    assert_eq!(evaluate_hand(&cards, &boards), HandRank::Straight(5));
}

#[test]
fn test_straight_flush_1() {
    let cards = [Card { value: 8, suit: 0 }, Card { value: 8, suit: 1 }];
    let boards = [
        Card { value: 9, suit: 0 },
        Card { value: 10, suit: 0 },
        Card { value: 11, suit: 0 },
        Card { value: 12, suit: 0 },
    ];
    assert_eq!(evaluate_hand(&cards, &boards), HandRank::StraightFlush(12));
}

#[test]
fn test_full_house_3() {
    let cards = [Card { value: 5, suit: 0 }, Card { value: 5, suit: 1 }];
    let boards = [
        Card { value: 5, suit: 2 },
        Card { value: 9, suit: 3 },
        Card { value: 9, suit: 0 },
    ];
    assert_eq!(evaluate_hand(&cards, &boards), HandRank::FullHouse(9, 5));
}

#[test]
fn test_full_house_tiebreaker_2() {
    let cards = [Card { value: 7, suit: 0 }, Card { value: 7, suit: 1 }];

    let boards = [
        Card { value: 7, suit: 1 },
        Card { value: 5, suit: 2 },
        Card { value: 5, suit: 3 },
        Card { value: 8, suit: 0 },
        Card { value: 4, suit: 0 },
    ];

    assert_eq!(evaluate_hand(&cards, &boards), HandRank::FullHouse(7, 5));
}

#[test]
fn test_high_card_multiple_kickers() {
    let cards = [Card { value: 3, suit: 0 }, Card { value: 5, suit: 1 }];
    let boards = [
        Card { value: 6, suit: 3 },
        Card { value: 7, suit: 0 },
        Card { value: 9, suit: 0 },
        Card { value: 11, suit: 2 },
        Card { value: 13, suit: 1 },
    ];
    assert_eq!(
        evaluate_hand(&cards, &boards),
        HandRank::HighCard(13, 11, 9, 7, 6)
    );
}

#[test]
fn test_flush_1() {
    let cards = [Card { value: 5, suit: 1 }, Card { value: 8, suit: 1 }];
    let boards = [
        Card { value: 8, suit: 2 },
        Card { value: 14, suit: 0 },
        Card { value: 4, suit: 1 },
        Card { value: 14, suit: 1 },
        Card { value: 6, suit: 1 },
    ];
    assert_eq!(
        evaluate_hand(&cards, &boards),
        HandRank::Flush(14, 8, 6, 5, 4)
    );
}

#[test]
fn test_straight_flush_3() {
    let cards = [Card { value: 8, suit: 1 }, Card { value: 8, suit: 2 }];
    let boards = [
        Card { value: 10, suit: 1 },
        Card { value: 11, suit: 1 },
        Card { value: 12, suit: 1 },
        Card { value: 9, suit: 1 },
        Card { value: 13, suit: 1 },
    ];
    assert_eq!(evaluate_hand(&cards, &boards), HandRank::StraightFlush(13));
}

#[test]
fn test_royal_flush() {
    let cards = [Card { value: 9, suit: 1 }, Card { value: 9, suit: 2 }];
    let boards = [
        Card { value: 10, suit: 1 },
        Card { value: 11, suit: 1 },
        Card { value: 12, suit: 1 },
        Card { value: 13, suit: 1 },
        Card { value: 14, suit: 0 },
    ];
    assert_eq!(evaluate_hand(&cards, &boards), HandRank::StraightFlush(13));
}

#[test]
fn test_royal_flush_2() {
    let cards = [Card { value: 9, suit: 1 }, Card { value: 9, suit: 2 }];
    let boards = [
        Card { value: 10, suit: 1 },
        Card { value: 11, suit: 1 },
        Card { value: 12, suit: 1 },
        Card { value: 13, suit: 1 },
        Card { value: 14, suit: 1 },
    ];
    assert_eq!(evaluate_hand(&cards, &boards), HandRank::RoyalFlush);
}
