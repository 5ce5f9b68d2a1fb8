use std::collections::hash_map::DefaultHasher;
use std::hash::{Hash, Hasher};

use game_server::deck::Deck;
use game_server::error::{GameStartError, StateError};
use game_server::game::Game;
use game_server::lobby::Lobby;
use game_server::pile::PileIndex;
use game_server::player::derive_identity;
use game_server::registry::PlayerMapping;
use game_server::round::{PlacementError, Round, Turn};
use game_server::state::{Message, State};
use game_server::table::Table;
use game_server::view::{ClientView, PlayedState, TurnPhase};

/// A session whose deck deals `piles` to the table and then each hand of
/// `hands` to the players in the order in which they join.
fn session_with(piles: [u8; 4], hands: &[[u8; 10]]) -> State {
    let mut cards: Vec<u8> = Vec::new();
    for hand in hands.iter().rev() {
        cards.extend(hand.iter());
    }
    cards.extend(piles.iter());
    let deck = Deck::from_cards(cards).unwrap();
    let table = Table::with_deck(deck).unwrap();
    State::Lobby(Lobby::new_from_parts(table, PlayerMapping::new()))
}

const LOW: [u8; 10] = [1, 2, 3, 4, 5, 6, 7, 8, 9, 10];
const MID: [u8; 10] = [11, 12, 13, 14, 15, 16, 17, 18, 19, 20];

fn game_of_two(piles: [u8; 4]) -> (State, String, String) {
    let mut state = session_with(piles, &[LOW, MID]);
    let a = state.join("Ann".to_owned()).unwrap();
    let b = state.join("Bob".to_owned()).unwrap();
    state.start_game().unwrap();
    (state, a, b)
}

fn hand_of(state: &State, id: &str) -> Vec<u8> {
    state.get_player(id).unwrap().hand().clone()
}

fn round_of(state: &State) -> Round {
    match state {
        State::Game(game) => game.round(),
        _ => panic!("no game is running"),
    }
}

fn piles_of(state: &State) -> Vec<Vec<u8>> {
    match state {
        State::Game(game) => game.piles().serialize(),
        _ => panic!("no game is running"),
    }
}

#[test]
fn an_identity_is_the_decimal_hash_of_the_name() {
    let mut hasher = DefaultHasher::new();
    "Bill".to_owned().hash(&mut hasher);
    let expected = hasher.finish().to_string();
    assert_eq!(derive_identity(&"Bill".to_owned()), expected);
    assert_ne!(derive_identity(&"Bill".to_owned()), "Bill");
    assert_ne!(derive_identity(&"Bill".to_owned()), derive_identity(&"Ted".to_owned()));

    let mut state = State::new();
    assert_eq!(state.join("Bill".to_owned()), Ok(expected));
}

#[test]
fn joining_deals_ten_cards_that_nobody_else_holds() {
    let mut state = State::new();
    let mut seen = [false; 105];
    for name in ["a", "b", "c", "d", "e", "f", "g", "h", "i", "j"] {
        let id = state.join(name.to_owned()).unwrap();
        let player = state.get_player(&id).unwrap();
        assert_eq!(player.name(), name);
        assert_eq!(player.id(), &id);
        assert_eq!(player.points(), 0);
        assert_eq!(player.hand().len(), 10);
        for pair in player.hand().windows(2) {
            assert!(pair[0] < pair[1]);
        }
        for card in player.hand() {
            assert!((1..=104).contains(card));
            assert!(!seen[*card as usize]);
            seen[*card as usize] = true;
        }
    }
}

#[test]
fn the_eleventh_player_finds_the_deck_exhausted() {
    let mut state = State::new();
    for name in ["a", "b", "c", "d", "e", "f", "g", "h", "i", "j"] {
        assert!(state.join(name.to_owned()).is_ok());
    }
    assert_eq!(state.join("k".to_owned()), Err(StateError::DeckExhausted));
    assert_eq!(state.get_player(&derive_identity(&"k".to_owned())).map(|p| p.points()), None);
}

#[test]
fn a_name_joins_once() {
    let mut state = State::new();
    let id = state.join("Bill".to_owned()).unwrap();
    let hand = hand_of(&state, &id);
    assert_eq!(state.join("Bill".to_owned()), Err(StateError::NameTaken));
    assert_eq!(hand_of(&state, &id), hand);
    match &state {
        State::Lobby(lobby) => assert_eq!(lobby.players(), vec!["Bill"]),
        _ => panic!("the session left the lobby"),
    }
}

#[test]
fn a_game_needs_two_players() {
    let mut state = State::new();
    assert_eq!(state.start_game(), Err(StateError::NotEnoughPlayers));
    state.join("Bill".to_owned()).unwrap();
    assert_eq!(state.start_game(), Err(StateError::NotEnoughPlayers));
    assert!(matches!(state, State::Lobby(_)));
    state.join("Ted".to_owned()).unwrap();
    assert_eq!(state.start_game(), Ok(()));
    assert!(matches!(state, State::Game(_)));
    assert_eq!(round_of(&state), Round(1));

    let mut lobby = Lobby::new();
    lobby.join("Bill".to_owned()).unwrap();
    assert_eq!(lobby.start_game().err(), Some(GameStartError::NotEnoughPlayers(1)));
}

#[test]
fn the_lobby_takes_no_cards_and_the_game_no_players() {
    let mut state = State::new();
    let id = state.join("Bill".to_owned()).unwrap();
    let card = hand_of(&state, &id)[0];
    assert_eq!(state.play_card(&id, card), Err(StateError::PhaseViolation));
    assert_eq!(state.select_pile(&id, PileIndex::Zero), Err(StateError::PhaseViolation));
    state.join("Ted".to_owned()).unwrap();
    state.start_game().unwrap();
    assert_eq!(state.join("Rufus".to_owned()), Err(StateError::PhaseViolation));
    assert_eq!(state.start_game(), Err(StateError::PhaseViolation));
}

#[test]
fn two_players_play_the_first_round() {
    let (mut state, a, b) = game_of_two([21, 40, 60, 80]);
    assert_eq!(hand_of(&state, &a), LOW);
    assert_eq!(hand_of(&state, &b), MID);
    assert_eq!(piles_of(&state), vec![vec![21], vec![40], vec![60], vec![80]]);

    let mut state = session_with([1, 2, 3, 4], &[[5, 6, 7, 8, 9, 10, 21, 22, 23, 30], MID]);
    let a = state.join("Ann".to_owned()).unwrap();
    let b = state.join("Bob".to_owned()).unwrap();
    state.start_game().unwrap();

    // Ann plays her highest card, Bob his lowest
    assert_eq!(state.play_card(&a, 30), Ok(()));
    assert_eq!(round_of(&state), Round(1));
    assert_eq!(hand_of(&state, &a).len(), 10);
    assert_eq!(state.play_card(&b, 11), Ok(()));

    assert_eq!(round_of(&state), Round(2));
    assert_eq!(hand_of(&state, &a), vec![5, 6, 7, 8, 9, 10, 21, 22, 23]);
    assert_eq!(hand_of(&state, &b), vec![12, 13, 14, 15, 16, 17, 18, 19, 20]);
    // 11 was placed first, 30 on top of it
    assert_eq!(piles_of(&state), vec![vec![1], vec![2], vec![3], vec![4, 11, 30]]);
    assert_eq!(state.get_player(&a).unwrap().points(), 0);
    assert_eq!(state.get_player(&b).unwrap().points(), 0);
}

#[test]
fn a_card_below_every_pile_waits_for_a_pile_choice() {
    let (mut state, a, b) = game_of_two([50, 60, 70, 80]);
    assert_eq!(state.select_pile(&a, PileIndex::Zero), Err(StateError::PhaseViolation));
    assert_eq!(state.play_card(&b, 11), Ok(()));
    assert_eq!(state.play_card(&a, 1), Ok(()));

    // nothing was applied, and the round waits for Ann
    assert_eq!(round_of(&state), Round(1));
    assert_eq!(piles_of(&state), vec![vec![50], vec![60], vec![70], vec![80]]);
    assert_eq!(hand_of(&state, &a), LOW);
    match &state {
        State::Game(game) => {
            match game.turn() {
                Turn::PileSelection(blocked, plays) => {
                    assert_eq!(blocked, &a);
                    assert_eq!(plays.num(), 2);
                    assert_eq!(plays.play_at(0), (&a, 1));
                    assert_eq!(plays.play_at(1), (&b, 11));
                },
                Turn::CardPlay(_) => panic!("cards are still awaited"),
            }
            assert_eq!(game.played_state(&a), PlayedState::MustPickPile);
            assert_eq!(game.played_state(&b), PlayedState::Played);
        },
        _ => panic!("no game is running"),
    }

    assert_eq!(state.play_card(&a, 2), Err(StateError::PhaseViolation));
    assert_eq!(state.select_pile(&b, PileIndex::One), Err(StateError::WrongTurnActor));
    assert_eq!(state.select_pile("nobody", PileIndex::One), Err(StateError::UnknownPlayer));
    assert_eq!(round_of(&state), Round(1));

    assert_eq!(state.select_pile(&a, PileIndex::One), Ok(()));
    assert_eq!(round_of(&state), Round(2));
    // Ann took the pile of 60, Bob's 11 went on top of her 1
    assert_eq!(piles_of(&state), vec![vec![50], vec![1, 11], vec![70], vec![80]]);
    assert_eq!(state.get_player(&a).unwrap().points(), 3);
    assert_eq!(state.get_player(&b).unwrap().points(), 0);
    assert_eq!(hand_of(&state, &a), vec![2, 3, 4, 5, 6, 7, 8, 9, 10]);
    assert_eq!(hand_of(&state, &b), vec![12, 13, 14, 15, 16, 17, 18, 19, 20]);
}

#[test]
fn plays_are_checked_against_the_player_and_the_hand() {
    let (mut state, a, b) = game_of_two([21, 40, 60, 80]);
    assert_eq!(state.play_card("nobody", 1), Err(StateError::UnknownPlayer));
    assert_eq!(state.play_card(&a, 11), Err(StateError::CardNotInHand));
    assert_eq!(state.play_card(&a, 0), Err(StateError::CardNotInHand));
    assert_eq!(state.play_card(&a, 200), Err(StateError::CardNotInHand));
    assert_eq!(state.play_card(&b, 12), Ok(()));
    assert_eq!(state.play_card(&b, 13), Err(StateError::RepeatedPlacement));
    assert_eq!(state.play_card(&b, 12), Err(StateError::RepeatedPlacement));
    assert_eq!(round_of(&state), Round(1));
    assert_eq!(hand_of(&state, &b), MID);
}

#[test]
fn the_game_reports_its_own_errors() {
    let table = Table::with_deck(Deck::from_cards(vec![50, 60, 70, 80]).unwrap()).unwrap();
    let spare: [u8; 10] = [21, 22, 23, 24, 25, 26, 27, 28, 29, 30];
    let mut deck = Deck::from_cards([spare, MID, LOW].concat()).unwrap();
    let mut players = PlayerMapping::new();
    let a = players.join("Ann".to_owned(), &mut deck).unwrap();
    let b = players.join("Bob".to_owned(), &mut deck).unwrap();
    assert_eq!(players.join("Ann".to_owned(), &mut deck), None);
    assert_eq!(players.num(), 2);
    let mut game = Game::new(table, players);

    assert_eq!(game.play_card("nobody", 1), Err(PlacementError::NoUser));
    assert_eq!(game.play_card(&a, 11), Err(PlacementError::CardNotInHand));
    assert_eq!(game.select_pile(&a, PileIndex::Zero), Err(PlacementError::PlacementOutOfTurn));
    assert_eq!(game.play_card(&a, 1), Ok(false));
    assert_eq!(game.play_card(&a, 2), Err(PlacementError::RepeatedPlacement));
    assert_eq!(game.played_card_for(&a), Some(1));
    assert_eq!(game.played_card_for(&b), None);
    assert_eq!(game.play_card(&b, 11), Ok(false));
    assert_eq!(game.play_card(&b, 12), Err(PlacementError::PlacementOutOfTurn));
    assert_eq!(game.select_pile(&b, PileIndex::Zero), Err(PlacementError::WrongPlayer));
    assert_eq!(game.select_pile("nobody", PileIndex::Zero), Err(PlacementError::NoUser));
    assert_eq!(game.select_pile(&a, PileIndex::Three), Ok(false));
    assert_eq!(game.round(), Round(2));
    assert_eq!(game.piles().serialize(), vec![vec![50], vec![60], vec![70], vec![1, 11]]);
    assert_eq!(game.hand_for(&a).unwrap(), &vec![2, 3, 4, 5, 6, 7, 8, 9, 10]);
    assert_eq!(game.hand_for("nobody"), None);
}

const ODD: [u8; 10] = [11, 13, 15, 17, 19, 21, 23, 25, 27, 29];
const EVEN: [u8; 10] = [12, 14, 16, 18, 20, 22, 24, 26, 28, 30];

/// A game in which every card goes on the one pile that lies below the hands.
fn game_on_one_pile() -> (State, String, String) {
    let mut state = session_with([10, 100, 101, 102], &[ODD, EVEN]);
    let a = state.join("Ann".to_owned()).unwrap();
    let b = state.join("Bob".to_owned()).unwrap();
    state.start_game().unwrap();
    (state, a, b)
}

#[test]
fn a_sixth_card_converts_the_pile_for_its_player() {
    let (mut state, a, b) = game_on_one_pile();
    for round in 0..2 {
        state.play_card(&b, EVEN[round]).unwrap();
        state.play_card(&a, ODD[round]).unwrap();
    }
    assert_eq!(piles_of(&state)[0], vec![10, 11, 12, 13, 14]);
    assert_eq!(round_of(&state), Round(3));

    state.play_card(&a, 15).unwrap();
    state.play_card(&b, 16).unwrap();
    // Ann's 15 was the sixth card: 10 -> 3, 11 -> 5, 12 13 14 -> 1 each
    assert_eq!(state.get_player(&a).unwrap().points(), 11);
    assert_eq!(state.get_player(&b).unwrap().points(), 0);
    assert_eq!(piles_of(&state), vec![vec![15, 16], vec![100], vec![101], vec![102]]);
    assert_eq!(round_of(&state), Round(4));
}

#[test]
fn ten_rounds_end_the_game() {
    let (mut state, a, b) = game_on_one_pile();
    for round in 0..10 {
        assert_eq!(round_of(&state), Round(round as u8 + 1));
        assert_eq!(hand_of(&state, &a).len(), 10 - round);
        assert_eq!(state.play_card(&a, ODD[round]), Ok(()));
        assert_eq!(state.play_card(&b, EVEN[round]), Ok(()));
    }
    match &state {
        State::GameOver(players) => {
            // Ann converted the piles under 15 and 25, Bob those under 20 and 30
            assert_eq!(
                players.player_scores(),
                vec![("Ann".to_owned(), 11 + 11), ("Bob".to_owned(), 6 + 6)]
            );
            assert_eq!(players.get(&a).unwrap().hand().len(), 0);
            assert_eq!(players.get(&b).unwrap().hand().len(), 0);
        },
        _ => panic!("the game is not over"),
    }
    assert_eq!(state.play_card(&a, 11), Err(StateError::PhaseViolation));
    assert_eq!(state.select_pile(&a, PileIndex::Zero), Err(StateError::PhaseViolation));
    assert_eq!(state.join("Cyd".to_owned()), Err(StateError::PhaseViolation));
    assert_eq!(state.start_game(), Err(StateError::PhaseViolation));

    state.restart();
    match &state {
        State::Lobby(lobby) => assert_eq!(lobby.players(), vec!["Ann", "Bob"]),
        _ => panic!("the session is not back in the lobby"),
    }
    let ann = state.get_player(&a).unwrap();
    let bob = state.get_player(&b).unwrap();
    assert_eq!((ann.name().as_str(), ann.points(), ann.hand().len()), ("Ann", 0, 10));
    assert_eq!((bob.name().as_str(), bob.points(), bob.hand().len()), ("Bob", 0, 10));
    for card in ann.hand() {
        assert!(!bob.hand().contains(card));
    }
    assert_eq!(state.start_game(), Ok(()));
    assert_eq!(round_of(&state), Round(1));
}

#[test]
fn a_random_game_ends_after_ten_rounds() {
    let mut state = State::new();
    let ids: Vec<String> =
        ["Ann", "Bob", "Cyd"].iter().map(|name| state.join(name.to_string()).unwrap()).collect();
    state.start_game().unwrap();
    for round in 1..=10u8 {
        assert_eq!(round_of(&state), Round(round));
        for id in &ids {
            let card = hand_of(&state, id)[0];
            assert_eq!(state.play_card(id, card), Ok(()));
        }
        let blocked = match &state {
            State::Game(game) => match game.turn() {
                Turn::PileSelection(blocked, _) => Some(blocked.clone()),
                Turn::CardPlay(plays) => {
                    assert_eq!(plays.num(), 0);
                    None
                },
            },
            _ => None,
        };
        if let Some(blocked) = blocked {
            assert_eq!(round_of(&state), Round(round));
            assert_eq!(state.select_pile(&blocked, PileIndex::Zero), Ok(()));
        }
        if round < 10 {
            let stacks = piles_of(&state);
            let mut on_table = [false; 105];
            for stack in &stacks {
                assert!((1..=5).contains(&stack.len()));
                for pair in stack.windows(2) {
                    assert!(pair[0] < pair[1]);
                }
                for card in stack {
                    assert!(!on_table[*card as usize]);
                    on_table[*card as usize] = true;
                }
            }
            for id in &ids {
                let hand = hand_of(&state, id);
                assert_eq!(hand.len(), 10 - round as usize);
                for card in hand {
                    assert!(!on_table[card as usize]);
                }
            }
        }
    }
    assert!(matches!(state, State::GameOver(_)));
}

#[test]
fn a_restart_leaves_a_lobby_alone() {
    let mut state = State::new();
    let id = state.join("Bill".to_owned()).unwrap();
    let hand = hand_of(&state, &id);
    state.restart();
    assert!(matches!(state, State::Lobby(_)));
    assert_eq!(hand_of(&state, &id), hand);
}

#[test]
fn a_restart_in_the_middle_of_a_game_deals_anew() {
    let (mut state, a, b) = game_on_one_pile();
    for round in 0..3 {
        state.play_card(&a, ODD[round]).unwrap();
        state.play_card(&b, EVEN[round]).unwrap();
    }
    assert_eq!(state.get_player(&a).unwrap().points(), 11);
    state.restart();
    assert!(matches!(state, State::Lobby(_)));
    assert_eq!(state.get_player(&a).unwrap().points(), 0);
    assert_eq!(hand_of(&state, &a).len(), 10);
    assert_eq!(hand_of(&state, &b).len(), 10);
    assert!(state.join("Cyd".to_owned()).is_ok());
}

#[test]
fn messages_are_dispatched_for_players_at_the_table() {
    let (mut state, a, b) = game_of_two([50, 60, 70, 80]);
    assert_eq!(
        state.handle_message("nobody", Message::PlayCard { card: 1 }),
        Err(StateError::UnknownPlayer)
    );
    assert_eq!(state.handle_message(&a, Message::Debug), Ok(()));
    assert_eq!(state.handle_message(&a, Message::StartGame), Err(StateError::PhaseViolation));
    assert_eq!(
        state.handle_message(&a, Message::SelectPile { pile_index: 4 }),
        Err(StateError::InvalidPileIndex)
    );
    assert_eq!(
        state.handle_message(&a, Message::SelectPile { pile_index: 3 }),
        Err(StateError::PhaseViolation)
    );
    assert_eq!(state.handle_message(&a, Message::PlayCard { card: 3 }), Ok(()));
    assert_eq!(state.handle_message(&b, Message::PlayCard { card: 15 }), Ok(()));
    assert_eq!(
        state.handle_message(&b, Message::SelectPile { pile_index: 3 }),
        Err(StateError::WrongTurnActor)
    );
    assert_eq!(state.handle_message(&a, Message::SelectPile { pile_index: 3 }), Ok(()));
    assert_eq!(piles_of(&state), vec![vec![50], vec![60], vec![70], vec![3, 15]]);
    assert_eq!(state.get_player(&a).unwrap().points(), 3);
    assert_eq!(state.handle_message(&b, Message::RestartGame), Ok(()));
    assert!(matches!(state, State::Lobby(_)));
    assert_eq!(state.handle_message(&b, Message::StartGame), Ok(()));
    assert!(matches!(state, State::Game(_)));
}

#[test]
fn pile_numbers_name_the_four_piles() {
    assert_eq!(PileIndex::try_from(0), Ok(PileIndex::Zero));
    assert_eq!(PileIndex::try_from(1), Ok(PileIndex::One));
    assert_eq!(PileIndex::try_from(2), Ok(PileIndex::Two));
    assert_eq!(PileIndex::try_from(3), Ok(PileIndex::Three));
    assert_eq!(PileIndex::try_from(4), Err(()));
    assert_eq!(PileIndex::Three.position(), 3);
}

#[test]
fn the_lobby_shows_the_names() {
    let mut state = State::new();
    state.join("Bill".to_owned()).unwrap();
    state.join("Ted".to_owned()).unwrap();
    match state.serialize_for_user("nobody", &vec![]) {
        Ok(ClientView::Lobby { names }) => assert_eq!(names, vec!["Bill", "Ted"]),
        _ => panic!("the lobby was not shown"),
    }
}

#[test]
fn the_game_shows_each_player_their_own_hand() {
    let (mut state, a, b) = game_of_two([50, 60, 70, 80]);
    assert_eq!(state.serialize_for_user("nobody", &vec![]).err(), Some(StateError::UnknownPlayer));
    state.play_card(&b, 11).unwrap();

    match state.serialize_for_user(&a, &vec![b.clone()]) {
        Ok(ClientView::Game { players, round, piles, hand, points }) => {
            assert_eq!(players.len(), 2);
            assert_eq!(players[0].name, "Ann");
            assert_eq!((players[0].me, players[0].online), (true, false));
            assert_eq!(players[0].played, PlayedState::MustPlay);
            assert_eq!(players[1].name, "Bob");
            assert_eq!((players[1].me, players[1].online), (false, true));
            assert_eq!(players[1].played, PlayedState::Played);
            assert_eq!((players[0].points, players[1].points), (0, 0));
            assert_eq!(round.number, 1);
            assert_eq!(round.phase, TurnPhase::Play);
            assert_eq!(round.waiting_for, vec!["Ann"]);
            assert_eq!(round.played, None);
            assert_eq!(piles, vec![vec![50], vec![60], vec![70], vec![80]]);
            assert_eq!(hand, LOW);
            assert_eq!(points, 0);
        },
        _ => panic!("the game was not shown"),
    }
    match state.serialize_for_user(&b, &vec![]) {
        Ok(ClientView::Game { round, hand, .. }) => {
            assert_eq!(round.played, Some(11));
            assert_eq!(hand, MID);
        },
        _ => panic!("the game was not shown"),
    }

    state.play_card(&a, 1).unwrap();
    match state.serialize_for_user(&a, &vec![]) {
        Ok(ClientView::Game { players, round, .. }) => {
            assert_eq!(players[0].played, PlayedState::MustPickPile);
            assert_eq!(players[1].played, PlayedState::Played);
            assert_eq!(round.phase, TurnPhase::SelectPile);
            assert_eq!(round.waiting_for, vec!["Ann"]);
            assert_eq!(round.played, Some(1));
        },
        _ => panic!("the game was not shown"),
    }
    match state.serialize_for_user(&b, &vec![]) {
        Ok(ClientView::Game { round, .. }) => assert_eq!(round.phase, TurnPhase::OtherSelectPile),
        _ => panic!("the game was not shown"),
    }

    state.select_pile(&a, PileIndex::Two).unwrap();
    match state.serialize_for_user(&a, &vec![a.clone(), b.clone()]) {
        Ok(ClientView::Game { players, round, piles, hand, points }) => {
            assert_eq!((players[0].points, players[1].points), (3, 0));
            assert_eq!((players[0].online, players[1].online), (true, true));
            assert_eq!(round.number, 2);
            assert_eq!(round.waiting_for, vec!["Ann", "Bob"]);
            assert_eq!(piles, vec![vec![50], vec![60], vec![1, 11], vec![80]]);
            assert_eq!(hand, vec![2, 3, 4, 5, 6, 7, 8, 9, 10]);
            assert_eq!(points, 3);
        },
        _ => panic!("the game was not shown"),
    }
}

#[test]
fn the_end_shows_the_scores() {
    let (mut state, a, b) = game_on_one_pile();
    for round in 0..10 {
        state.play_card(&a, ODD[round]).unwrap();
        state.play_card(&b, EVEN[round]).unwrap();
    }
    match state.serialize_for_user("nobody", &vec![]) {
        Ok(ClientView::GameOver { scores }) => {
            assert_eq!(scores, vec![("Ann".to_owned(), 22), ("Bob".to_owned(), 12)]);
        },
        _ => panic!("the scores were not shown"),
    }
}
