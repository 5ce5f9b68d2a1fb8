use game_server::round::{CardPlay, PlacementError, Round, Turn, LAST_ROUND};

#[test]
fn the_round_counter_tells_when_the_game_is_over() {
    let mut round = Round(1);
    for expected in 2..=10u8 {
        assert!(!round.inc());
        assert_eq!(round, Round(expected));
    }
    assert!(round.inc());
    assert_eq!(round, Round(LAST_ROUND + 1));
}

#[test]
fn plays_stand_in_order_of_their_cards() {
    let mut plays = CardPlay::new();
    assert_eq!(plays.num(), 0);
    assert_eq!(plays.play_card("b".to_owned(), 50), Ok(()));
    assert_eq!(plays.play_card("a".to_owned(), 70), Ok(()));
    assert_eq!(plays.play_card("c".to_owned(), 3), Ok(()));
    assert_eq!(plays.play_card("d".to_owned(), 60), Ok(()));
    assert_eq!(plays.num(), 4);
    let order: Vec<(String, u8)> =
        (0..4).map(|k| plays.play_at(k)).map(|(id, card)| (id.clone(), card)).collect();
    assert_eq!(
        order,
        vec![
            ("c".to_owned(), 3),
            ("b".to_owned(), 50),
            ("d".to_owned(), 60),
            ("a".to_owned(), 70)
        ]
    );
}

#[test]
fn a_later_play_of_the_same_card_stands_behind_the_earlier_one() {
    let mut plays = CardPlay::new();
    plays.play_card("x".to_owned(), 9).unwrap();
    plays.play_card("y".to_owned(), 9).unwrap();
    plays.play_card("z".to_owned(), 1).unwrap();
    assert_eq!(plays.play_at(0), (&"z".to_owned(), 1));
    assert_eq!(plays.play_at(1), (&"x".to_owned(), 9));
    assert_eq!(plays.play_at(2), (&"y".to_owned(), 9));
}

#[test]
fn a_second_play_is_turned_down_and_changes_nothing() {
    let mut plays = CardPlay::new();
    plays.play_card("x".to_owned(), 9).unwrap();
    assert_eq!(plays.play_card("x".to_owned(), 4), Err(PlacementError::RepeatedPlacement));
    assert_eq!(plays.num(), 1);
    assert_eq!(plays.played_card_for("x"), Some(9));
    assert_eq!(plays.played_card_for("y"), None);
}

#[test]
fn a_play_can_be_taken_out_again() {
    let mut plays = CardPlay::new();
    plays.play_card("x".to_owned(), 9).unwrap();
    plays.play_card("y".to_owned(), 4).unwrap();
    plays.play_card("z".to_owned(), 30).unwrap();
    assert_eq!(plays.remove_card("nobody"), None);
    assert_eq!(plays.num(), 3);
    assert_eq!(plays.remove_card("x"), Some(9));
    assert_eq!(plays.num(), 2);
    assert_eq!(plays.played_card_for("x"), None);
    assert_eq!(plays.play_at(0), (&"y".to_owned(), 4));
    assert_eq!(plays.play_at(1), (&"z".to_owned(), 30));

    let copy = plays.duplicate();
    assert_eq!(copy.num(), 2);
    assert_eq!(copy.play_at(1), (&"z".to_owned(), 30));
}

#[test]
fn the_turn_knows_the_cards_played() {
    let mut plays = CardPlay::new();
    plays.play_card("x".to_owned(), 9).unwrap();
    let turn = Turn::CardPlay(plays.duplicate());
    assert_eq!(turn.played_card_for("x"), Some(9));
    assert_eq!(turn.played_card_for("y"), None);
    let turn = Turn::PileSelection("x".to_owned(), plays);
    assert_eq!(turn.played_card_for("x"), Some(9));
    assert_eq!(turn.played_card_for("y"), None);
}
