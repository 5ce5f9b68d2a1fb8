use game_server::cards::{copy_cards, holds_card, insert_card, points_of_card, remove_card};
use game_server::deck::Deck;
use game_server::pile::{Pile, PileIndex, Piles};
use game_server::table::Table;

fn pile_of(cards: &[u8]) -> Pile {
    let mut pile = Pile::new(PileIndex::Zero, cards[0]);
    for card in &cards[1..] {
        assert_eq!(pile.place(*card), None);
    }
    pile
}

fn deck_of(cards: &[u8]) -> Deck {
    Deck::from_cards(cards.to_vec()).unwrap()
}

#[test]
fn single_cards_score_by_divisibility() {
    assert_eq!(pile_of(&[55]).points(), 6);
    assert_eq!(pile_of(&[11]).points(), 5);
    assert_eq!(pile_of(&[20]).points(), 3);
    assert_eq!(pile_of(&[25]).points(), 2);
    assert_eq!(pile_of(&[7]).points(), 1);
}

#[test]
fn a_pile_scores_the_sum_of_its_cards() {
    assert_eq!(pile_of(&[11, 20, 55]).points(), 14);
}

#[test]
fn every_card_scores_between_one_and_six() {
    let mut total: u16 = 0;
    for card in 1..=104u8 {
        let points = points_of_card(card);
        assert!((1..=6).contains(&points));
        total += points;
    }
    // 9 multiples of eleven (one of them 55), 10 multiples of ten,
    // 9 further multiples of five (without 55), 76 other cards.
    assert_eq!(total, 8 * 5 + 6 + 10 * 3 + 9 * 2 + 76);
    assert_eq!(points_of_card(110), 5);
    assert_eq!(points_of_card(100), 3);
    assert_eq!(points_of_card(99), 5);
}

#[test]
fn a_fresh_deck_deals_each_card_once() {
    let mut deck = Deck::new();
    assert_eq!(deck.len(), 104);
    let mut seen = [false; 105];
    for _ in 0..104 {
        let card = deck.deal();
        assert!((1..=104).contains(&card));
        assert!(!seen[card as usize]);
        seen[card as usize] = true;
    }
    assert_eq!(deck.len(), 0);
}

#[test]
fn fresh_decks_are_shuffled() {
    let ordered: Vec<u8> = (1..=104u8).rev().collect();
    let mut all_ordered = true;
    for _ in 0..3 {
        let mut deck = Deck::new();
        let dealt: Vec<u8> = (0..104).map(|_| deck.deal()).collect();
        if dealt != ordered {
            all_ordered = false;
        }
    }
    assert!(!all_ordered);
}

#[test]
fn a_given_deck_deals_from_the_last_card() {
    let mut deck = deck_of(&[5, 9, 2]);
    assert_eq!(deck.deal(), 2);
    assert_eq!(deck.deal(), 9);
    assert_eq!(deck.len(), 1);
    assert_eq!(deck.deal(), 5);
}

#[test]
fn a_deck_needs_distinct_valid_cards() {
    assert!(Deck::from_cards(vec![1, 2, 1]).is_none());
    assert!(Deck::from_cards(vec![0, 2]).is_none());
    assert!(Deck::from_cards(vec![105]).is_none());
    assert!(Deck::from_cards(vec![]).is_some());
    assert!(Deck::from_cards(vec![104, 1]).is_some());
}

#[test]
fn dealt_cards_come_sorted() {
    let mut deck = deck_of(&[40, 7, 90, 3, 55]);
    assert_eq!(deck.deal_sorted(3), vec![3, 55, 90]);
    assert_eq!(deck.len(), 2);
    assert_eq!(deck.deal_sorted(2), vec![7, 40]);
}

#[test]
fn hands_keep_their_order() {
    let mut hand = vec![3, 8, 20];
    insert_card(&mut hand, 10);
    insert_card(&mut hand, 1);
    insert_card(&mut hand, 99);
    assert_eq!(hand, vec![1, 3, 8, 10, 20, 99]);
    assert!(holds_card(&hand, 10));
    assert!(!holds_card(&hand, 11));
    remove_card(&mut hand, 10);
    remove_card(&mut hand, 11);
    assert_eq!(hand, vec![1, 3, 8, 20, 99]);
    assert_eq!(copy_cards(&hand), hand);
}

#[test]
fn a_pile_grows_to_five_cards_and_then_converts() {
    let mut pile = Pile::new(PileIndex::Two, 10);
    assert_eq!(pile.top_card(), 10);
    for card in [11, 20, 30, 55] {
        assert_eq!(pile.place(card), None);
        assert_eq!(pile.top_card(), card);
    }
    assert_eq!(pile.num(), 5);
    assert_eq!(pile.cards(), vec![10, 11, 20, 30, 55]);
    // 10 -> 3, 11 -> 5, 20 -> 3, 30 -> 3, 55 -> 6
    assert_eq!(pile.place(60), Some(20));
    assert_eq!(pile.cards(), vec![60]);
    assert_eq!(pile.index(), PileIndex::Two);
}

#[test]
fn piles_are_seeded_in_order_of_value() {
    let mut deck = deck_of(&[1, 70, 20, 90, 40]);
    let piles = Piles::new(&mut deck);
    assert_eq!(deck.len(), 1);
    assert_eq!(piles.serialize(), vec![vec![20], vec![40], vec![70], vec![90]]);
}

#[test]
fn a_card_goes_on_the_closest_lower_pile() {
    let mut piles = Piles::new(&mut deck_of(&[20, 40, 70, 90]));
    assert_eq!(piles.pile_for_card(75), Some(2));
    assert_eq!(piles.pile_for_card(21), Some(0));
    assert_eq!(piles.pile_for_card(104), Some(3));
    assert_eq!(piles.pile_for_card(20), None);
    assert_eq!(piles.pile_for_card(5), None);
    assert!(piles.can_place(41));
    assert!(!piles.can_place(19));

    assert_eq!(piles.place(75), Some(None));
    assert_eq!(piles.place(5), None);
    assert_eq!(piles.serialize(), vec![vec![20], vec![40], vec![70, 75], vec![90]]);
}

#[test]
fn a_given_up_pile_restarts_and_moves_to_its_place() {
    let mut piles = Piles::new(&mut deck_of(&[20, 40, 70, 90]));
    assert_eq!(piles.place(80), Some(None));
    // the pile named Two holds 70 and 80
    assert_eq!(piles.replace_pile(PileIndex::Two, 5), 3 + 3);
    assert_eq!(piles.serialize(), vec![vec![20], vec![40], vec![5], vec![90]]);
    // the pile named Two now has the lowest top card
    assert_eq!(piles.seat_of(PileIndex::Two), 0);
    assert_eq!(piles.seat_of(PileIndex::Zero), 1);
    assert_eq!(piles.place(6), Some(None));
    assert_eq!(piles.serialize(), vec![vec![20], vec![40], vec![5, 6], vec![90]]);
}

#[test]
fn the_order_of_placements_decides_who_converts_a_pile() {
    let seeds = [10, 50, 70, 90];
    let mut ascending = Piles::new(&mut deck_of(&seeds));
    let mut descending = Piles::new(&mut deck_of(&seeds));
    for card in [11, 12, 13, 14] {
        assert_eq!(ascending.place(card), Some(None));
        assert_eq!(descending.place(card), Some(None));
    }
    // lowest first: 15 converts the full pile, 16 goes on top of 15
    assert_eq!(ascending.place(15), Some(Some(3 + 5 + 1 + 1 + 1)));
    assert_eq!(ascending.place(16), Some(None));
    assert_eq!(ascending.serialize()[0], vec![15, 16]);
    // highest first: 16 converts the pile, and 15 finds no pile below it
    assert_eq!(descending.place(16), Some(Some(3 + 5 + 1 + 1 + 1)));
    assert_eq!(descending.place(15), None);
    assert_eq!(descending.serialize()[0], vec![16]);
}

#[test]
fn a_table_is_opened_from_the_top_of_the_deck() {
    assert!(Table::with_deck(deck_of(&[1, 2, 3])).is_none());
    let mut table = Table::with_deck(deck_of(&[9, 30, 10, 40, 20])).unwrap();
    assert_eq!(table.piles().serialize(), vec![vec![10], vec![20], vec![30], vec![40]]);
    assert_eq!(table.deck().len(), 1);
    assert_eq!(table.deck_mut().deal(), 9);
    assert_eq!(table.piles_mut().place(35), Some(None));
    assert_eq!(table.piles().serialize(), vec![vec![10], vec![20], vec![30, 35], vec![40]]);
}

#[test]
fn a_fresh_table_holds_every_card_once() {
    let mut table = Table::new();
    let stacks = table.piles().serialize();
    assert_eq!(stacks.len(), 4);
    let mut seen = [false; 105];
    let mut tops = Vec::new();
    for stack in &stacks {
        assert_eq!(stack.len(), 1);
        tops.push(stack[0]);
        seen[stack[0] as usize] = true;
    }
    // the piles are named in order of their seeds
    assert!(tops.windows(2).all(|pair| pair[0] < pair[1]));
    assert_eq!(table.deck().len(), 100);
    for _ in 0..100 {
        let card = table.deck_mut().deal();
        assert!(!seen[card as usize]);
        seen[card as usize] = true;
    }
    assert!((1..=104).all(|card| seen[card]));
}

#[test]
fn piles_with_equal_top_cards_keep_their_order() {
    // the pile named Zero restarts from the top card of the pile named One
    let mut piles = Piles::new(&mut deck_of(&[20, 40, 70, 90]));
    assert_eq!(piles.replace_pile(PileIndex::Zero, 40), 3);
    assert_eq!(piles.seat_of(PileIndex::Zero), 0);
    assert_eq!(piles.seat_of(PileIndex::One), 1);
    // the later of the two is the one that takes the next card
    assert_eq!(piles.place(41), Some(None));
    assert_eq!(piles.serialize(), vec![vec![40], vec![40, 41], vec![70], vec![90]]);

    // the pile named Three restarts from that card and comes behind the pile named One
    let mut piles = Piles::new(&mut deck_of(&[20, 40, 70, 90]));
    assert_eq!(piles.replace_pile(PileIndex::Three, 40), 3);
    assert_eq!(piles.seat_of(PileIndex::One), 1);
    assert_eq!(piles.seat_of(PileIndex::Three), 2);
    assert_eq!(piles.seat_of(PileIndex::Two), 3);
    assert_eq!(piles.place(41), Some(None));
    assert_eq!(piles.serialize(), vec![vec![20], vec![40], vec![70], vec![40, 41]]);
}

#[test]
fn sorting_piles_in_order_changes_nothing() {
    let mut piles = Piles::new(&mut deck_of(&[20, 40, 70, 90]));
    piles.sort();
    assert_eq!(piles.serialize(), vec![vec![20], vec![40], vec![70], vec![90]]);
    assert_eq!(piles.seat_of(PileIndex::Two), 2);
}
