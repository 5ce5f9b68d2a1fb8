use game_server::deck::Deck;
use game_server::game::Game;
use game_server::lobby::Lobby;
use game_server::registry::PlayerMapping;
use game_server::round::Round;
use game_server::table::Table;

#[test]
fn test_lobby() {
    let mut lobby = Lobby::new();
    lobby.join("Bill".to_owned()).unwrap();
    let ted_id = lobby.join("Ted".to_owned()).unwrap();

    let mut players = lobby.players();
    players.sort();
    assert_eq!(players, vec!["Bill", "Ted"]);

    let ted = lobby.get_player(&ted_id).unwrap();
    assert_eq!(ted.name(), "Ted");
    assert_eq!(ted.hand().len(), 10);

    assert!(lobby.start_game().is_ok());
}

#[test]
fn test_game() {
    let table = Table::new();
    let mut deck = Deck::new();
    let mut players = PlayerMapping::new();
    let bill_id = players.join("Bill".to_owned(), &mut deck).unwrap();
    let ted_id = players.join("Ted".to_owned(), &mut deck).unwrap();
    let mut game = Game::new(table, players);
    let bill = game.player_mapping().get(&bill_id).unwrap();
    let ted = game.player_mapping().get(&ted_id).unwrap();

    let ted_last = *ted.hand().last().unwrap();
    let bill_first = *bill.hand().first().unwrap();
    let bill_last = *bill.hand().last().unwrap();

    // Can't play another player's card
    assert!(game.play_card(&bill_id, ted_last).is_err());
    // Can play player's own card
    assert!(game.play_card(&bill_id, bill_last).is_ok());
    // Can't play twice
    assert!(game.play_card(&bill_id, bill_first).is_err());

    assert!(game.play_card(&ted_id, ted_last).is_ok());

    assert_eq!(game.round(), Round(2));

    let cards_in_piles: usize = game.piles().serialize().iter().map(|p| p.len()).sum();
    assert_eq!(cards_in_piles, 6);
}
