use poker_eval::card::new_card;
use poker_eval::evaluate::EvalError;
use poker_eval::lookup::LookupTables;
use poker_eval::{simulate_hand, simulate_hand_with_deck, Deck};

fn rigged_deck() -> Deck {
    let order = vec![
        new_card("As").unwrap(), new_card("Ah").unwrap(), // hero
        new_card("7c").unwrap(), new_card("7d").unwrap(), // villain
        new_card("2s").unwrap(), new_card("3s").unwrap(), new_card("4s").unwrap(), // flop
        new_card("9s").unwrap(), // turn
        new_card("6s").unwrap(), // river
        // remaining 45 cards don't matter for this test
    ];

    Deck { cards: order }
}

#[test]
fn check_aces_win() {
    let tables = LookupTables::new();
    let mut deck = rigged_deck();
    let starting_hand = vec![new_card("As").unwrap(), new_card("Ah").unwrap()];
    let result = simulate_hand_with_deck(&tables, starting_hand, &mut deck).unwrap();
    assert_eq!(result, 1);
}

#[test]
fn showdown_uses_up_the_deck_from_the_end() {
    let tables = LookupTables::new();
    let mut deck = rigged_deck();
    let starting_hand = vec![new_card("As").unwrap(), new_card("Ah").unwrap()];
    let _ = simulate_hand_with_deck(&tables, starting_hand, &mut deck);
    assert!(deck.cards.is_empty());

    let mut deck = Deck::new_from_cards(vec![]);
    let starting_hand = vec![new_card("As").unwrap(), new_card("Ah").unwrap()];
    let result = simulate_hand_with_deck(&tables, starting_hand, &mut deck);
    assert_eq!(deck.cards.len(), 43);
    // opponent: Kd Ad; board: Jd Qd Td 9d 8d: both play the board's straight flush
    // but the opponent holds the royal flush
    assert_eq!(result, Ok(1));
}

#[test]
fn showdown_outcomes() {
    let tables = LookupTables::new();
    let cards = |texts: &[&str]| -> Vec<u32> { texts.iter().map(|t| new_card(t).unwrap()).collect() };
    // drawn from the end: opponent 2c 7d, flop Ks Kh Kd, turn 3c, river 4h
    let mut deck = Deck { cards: cards(&["4h", "3c", "Ks", "Kh", "Kd", "2c", "7d"]) };
    // the first hand: kings full of aces, stronger, so the smaller number
    assert_eq!(simulate_hand_with_deck(&tables, cards(&["As", "Ah"]), &mut deck), Ok(-1));
    // both play the board
    let mut deck = Deck { cards: cards(&["As", "Ks", "Qs", "Js", "Ts", "2c", "3d"]) };
    assert_eq!(simulate_hand_with_deck(&tables, cards(&["2h", "3h"]), &mut deck), Ok(0));
}

#[test]
fn showdown_from_a_short_deck_is_refused() {
    let tables = LookupTables::new();
    let mut deck = Deck { cards: vec![new_card("As").unwrap(), new_card("Ks").unwrap()] };
    let starting_hand = vec![new_card("2s").unwrap(), new_card("2h").unwrap()];
    assert_eq!(
        simulate_hand_with_deck(&tables, starting_hand, &mut deck),
        Err(EvalError::MalformedHandSize)
    );
    assert!(deck.cards.is_empty());
}

#[test]
fn fresh_deck_has_each_card_once() {
    let deck = Deck::new();
    assert_eq!(deck.cards.len(), 52);
    let mut sorted = deck.cards.clone();
    sorted.sort();
    sorted.dedup();
    assert_eq!(sorted.len(), 52);
    let mut expected = Deck::new_from_cards(vec![]).cards;
    expected.sort();
    assert_eq!(sorted, expected);
}

#[test]
fn deck_from_cards_puts_them_last() {
    let deck = Deck::new_from_cards(vec![]);
    assert_eq!(deck.cards.len(), 52);
    assert_eq!(deck.cards[0], new_card("2s").unwrap());
    assert_eq!(deck.cards[12], new_card("As").unwrap());
    assert_eq!(deck.cards[13], new_card("2c").unwrap());
    assert_eq!(deck.cards[26], new_card("2h").unwrap());
    assert_eq!(deck.cards[39], new_card("2d").unwrap());
    assert_eq!(deck.cards[51], new_card("Ad").unwrap());

    let picked = vec![new_card("As").unwrap(), new_card("7c").unwrap()];
    let deck = Deck::new_from_cards(picked.clone());
    assert_eq!(deck.cards.len(), 52);
    assert_eq!(&deck.cards[50..], &picked[..]);
    assert_eq!(deck.cards[12], new_card("2c").unwrap());
    assert!(!deck.cards[..50].contains(&picked[0]));
    assert!(!deck.cards[..50].contains(&picked[1]));
}

#[test]
fn draw_takes_from_the_end() {
    let mut deck = Deck::new_from_cards(vec![]);
    let hand = deck.draw(2);
    assert_eq!(hand, vec![new_card("Kd").unwrap(), new_card("Ad").unwrap()]);
    assert_eq!(deck.cards.len(), 50);
    assert_eq!(deck.draw(0), Vec::<u32>::new());
    assert_eq!(deck.draw(100).len(), 50);
    assert!(deck.cards.is_empty());
    assert_eq!(deck.draw(3), Vec::<u32>::new());
}

#[test]
fn remove_takes_one_card_out() {
    let mut deck = Deck::new_from_cards(vec![]);
    let card = new_card("Th").unwrap();
    assert!(deck.remove(card));
    assert_eq!(deck.cards.len(), 51);
    assert!(!deck.cards.contains(&card));
    assert!(!deck.remove(card));
    assert_eq!(deck.cards.len(), 51);
    assert!(!deck.remove(0));

    let mut twice = Deck { cards: vec![5, 7, 5, 9] };
    assert!(twice.remove(5));
    assert_eq!(twice.cards, vec![7, 5, 9]);
}

#[test]
fn random_showdown_has_an_outcome() {
    let tables = LookupTables::new();
    for _ in 0..20 {
        let starting_hand = vec![new_card("As").unwrap(), new_card("Ah").unwrap()];
        let result = simulate_hand(&tables, starting_hand).unwrap();
        assert!(result == 1 || result == -1 || result == 0);
    }
}

#[test]
fn fresh_decks_come_in_different_orders() {
    let unshuffled = Deck::new_from_cards(vec![]).cards;
    let decks: Vec<Vec<u32>> = (0..8).map(|_| Deck::new().cards).collect();
    assert!(decks.iter().any(|deck| *deck != unshuffled));
    assert!(decks.iter().any(|deck| *deck != decks[0]));
}
