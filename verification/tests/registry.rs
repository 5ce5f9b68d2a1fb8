use game_server::deck::Deck;
use game_server::game::is_listed;
use game_server::player::{derive_identity, Player};
use game_server::registry::PlayerMapping;

fn deck_of(cards: std::ops::RangeInclusive<u8>) -> Deck {
    Deck::from_cards(cards.collect()).unwrap()
}

#[test]
fn a_new_player_holds_the_top_cards_in_order() {
    let mut deck = Deck::from_cards(vec![1, 90, 3, 80, 5, 70, 7, 60, 9, 50, 11, 40]).unwrap();
    let player = Player::new("7".to_owned(), "Bill".to_owned(), &mut deck);
    assert_eq!(player.id(), "7");
    assert_eq!(player.name(), "Bill");
    assert_eq!(player.points(), 0);
    assert_eq!(player.hand(), &vec![3, 5, 7, 9, 11, 40, 50, 60, 70, 80]);
    assert!(player.holds(40));
    assert!(!player.holds(90));
    assert_eq!(deck.len(), 2);

    let copy = player.duplicate();
    assert_eq!((copy.id(), copy.name(), copy.points()), (player.id(), player.name(), 0));
    assert_eq!(copy.hand(), player.hand());
}

#[test]
fn a_settled_play_costs_the_card_and_brings_the_points() {
    let mut deck = deck_of(1..=10);
    let mut player = Player::new("7".to_owned(), "Bill".to_owned(), &mut deck);
    player.settle(4, 0);
    player.settle(9, 13);
    assert_eq!(player.hand(), &vec![1, 2, 3, 5, 6, 7, 8, 10]);
    assert_eq!(player.points(), 13);
    player.settle(1, 30);
    assert_eq!(player.points(), 43);
}

#[test]
fn the_registry_finds_players_by_identity() {
    let mut deck = deck_of(1..=30);
    let mut players = PlayerMapping::new();
    assert_eq!(players.num(), 0);
    let bill = players.join("Bill".to_owned(), &mut deck).unwrap();
    let ted = players.join("Ted".to_owned(), &mut deck).unwrap();
    assert_eq!(bill, derive_identity(&"Bill".to_owned()));
    assert_eq!(players.num(), 2);
    assert_eq!(players.seat_of(&bill), Some(0));
    assert_eq!(players.seat_of(&ted), Some(1));
    assert_eq!(players.seat_of("Bill"), None);
    assert_eq!(players.get(&ted).unwrap().name(), "Ted");
    assert!(players.get("").is_none());
    assert_eq!(players.player_at(0).name(), "Bill");
    assert_eq!(players.players(), vec!["Bill", "Ted"]);
    assert_eq!(players.get(&bill).unwrap().hand(), &(21..=30).collect::<Vec<u8>>());
    assert_eq!(players.get(&ted).unwrap().hand(), &(11..=20).collect::<Vec<u8>>());
    assert_eq!(deck.len(), 10);
}

#[test]
fn the_registry_settles_and_deals_anew() {
    let mut deck = deck_of(1..=20);
    let mut players = PlayerMapping::new();
    let bill = players.join("Bill".to_owned(), &mut deck).unwrap();
    let ted = players.join("Ted".to_owned(), &mut deck).unwrap();
    players.settle(&bill, 15, 7);
    players.settle(&ted, 1, 0);
    assert_eq!(players.player_scores(), vec![("Bill".to_owned(), 7), ("Ted".to_owned(), 0)]);
    assert_eq!(players.get(&bill).unwrap().hand().len(), 9);
    assert!(!players.get(&bill).unwrap().holds(15));

    let copy = players.duplicate();
    assert_eq!(copy.player_scores(), players.player_scores());
    assert_eq!(copy.get(&ted).unwrap().hand(), players.get(&ted).unwrap().hand());

    let mut fresh = deck_of(31..=60);
    players.reset(&mut fresh);
    assert_eq!(fresh.len(), 10);
    assert_eq!(players.players(), vec!["Bill", "Ted"]);
    assert_eq!(players.player_scores(), vec![("Bill".to_owned(), 0), ("Ted".to_owned(), 0)]);
    assert_eq!(players.get(&bill).unwrap().hand(), &(51..=60).collect::<Vec<u8>>());
    assert_eq!(players.get(&ted).unwrap().hand(), &(41..=50).collect::<Vec<u8>>());
    // the copy was made before and is as it was
    assert_eq!(copy.get(&bill).unwrap().points(), 7);
}

#[test]
fn identities_are_listed_by_their_text() {
    let online = vec!["12".to_owned(), "345".to_owned()];
    assert!(is_listed(&online, "345"));
    assert!(is_listed(&online, "12"));
    assert!(!is_listed(&online, "34"));
    assert!(!is_listed(&vec![], "12"));
}
