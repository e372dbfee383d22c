use poker_eval::card::{new_card, Card};
use poker_eval::evaluate::{check_flush, evaluate_board, evaluate_hand, EvalError};
use poker_eval::lookup::LookupTables;

#[test]
fn check_real_flush() {
    let a = new_card("As").unwrap();
    let b = new_card("Ks").unwrap();
    let c = new_card("Qs").unwrap();
    let d = new_card("Js").unwrap();
    let e = new_card("Ts").unwrap();

    let card_vector: &[Card] = &[a, b, c, d, e];
    let ret = check_flush(&card_vector);
    assert!(ret)
}

#[test]
fn check_no_flush() {
    let a = new_card("As").unwrap();
    let b = new_card("Ks").unwrap();
    let c = new_card("Qs").unwrap();
    let d = new_card("Js").unwrap();
    let e = new_card("Tc").unwrap();

    let card_vector: &[Card] = &[a, b, c, d, e];
    let ret = check_flush(&card_vector);
    assert!(!ret)
}

#[test]
fn check_flush_with_eval() {
    let tables = LookupTables::new();
    let a = new_card("As").unwrap();
    let b = new_card("Ks").unwrap();
    let c = new_card("Qs").unwrap();
    let d = new_card("Js").unwrap();
    let e = new_card("8s").unwrap();

    let card_vector: Vec<Card> = vec![a, b, c, d, e];
    let val = evaluate_hand(&tables, card_vector).unwrap();
    assert_eq!(val, 324)
}

#[test]
fn check_random_hand_with_eval() {
    let tables = LookupTables::new();
    let a = new_card("As").unwrap();
    let b = new_card("Ac").unwrap();
    let c = new_card("Ah").unwrap();
    let d = new_card("Js").unwrap();
    let e = new_card("Jd").unwrap();

    let card_vector: Vec<Card> = vec![a, b, c, d, e];
    let val = evaluate_hand(&tables, card_vector).unwrap();
    assert_eq!(val, 169)
}

fn hand(texts: &[&str]) -> Vec<Card> {
    texts.iter().map(|t| new_card(t).unwrap()).collect()
}

#[test]
fn royal_flush_is_the_strongest_hand() {
    let tables = LookupTables::new();
    for s in ['s', 'h', 'd', 'c'] {
        let royal: Vec<Card> = ['A', 'K', 'Q', 'J', 'T']
            .iter()
            .map(|r| new_card(&format!("{r}{s}")).unwrap())
            .collect();
        assert_eq!(evaluate_hand(&tables, royal), Ok(1));
    }
    assert_eq!(evaluate_hand(&tables, hand(&["Ks", "Qs", "Js", "Ts", "9s"])), Ok(2));
    assert_eq!(evaluate_hand(&tables, hand(&["5h", "4h", "3h", "2h", "Ah"])), Ok(10));
    assert_eq!(evaluate_hand(&tables, hand(&["As", "Ah", "Ad", "Ac", "Ks"])), Ok(11));
}

#[test]
fn suited_ranks_beat_the_same_ranks_unsuited() {
    let tables = LookupTables::new();
    let suited = evaluate_hand(&tables, hand(&["As", "Ks", "Qs", "Js", "8s"])).unwrap();
    let unsuited = evaluate_hand(&tables, hand(&["As", "Ks", "Qs", "Js", "8h"])).unwrap();
    assert_eq!(suited, 324);
    assert_eq!(unsuited, 6187);
    assert!(suited < unsuited);
    // the best flush that is no straight flush
    assert_eq!(evaluate_hand(&tables, hand(&["As", "Ks", "Qs", "Js", "9s"])), Ok(323));
    // the king-high flush with the same kickers
    assert_eq!(evaluate_hand(&tables, hand(&["Ks", "Qs", "Js", "Ts", "8s"])), Ok(816));
}

#[test]
fn quad_aces_beat_quad_deuces() {
    let tables = LookupTables::new();
    let aces = evaluate_hand(&tables, hand(&["As", "Ac", "Ad", "Ah", "8s"])).unwrap();
    let deuces = evaluate_hand(&tables, hand(&["2s", "2c", "2d", "2h", "8s"])).unwrap();
    assert_eq!(aces, 16);
    assert_eq!(deuces, 161);
    assert!(aces < deuces);
}

#[test]
fn category_bands_are_in_order() {
    let tables = LookupTables::new();
    let strengths = [
        evaluate_hand(&tables, hand(&["9s", "8s", "7s", "6s", "5s"])).unwrap(),
        evaluate_hand(&tables, hand(&["9s", "9h", "9d", "9c", "5s"])).unwrap(),
        evaluate_hand(&tables, hand(&["9s", "9h", "9d", "5c", "5s"])).unwrap(),
        evaluate_hand(&tables, hand(&["9s", "2s", "7s", "6s", "5s"])).unwrap(),
        evaluate_hand(&tables, hand(&["9s", "8h", "7s", "6s", "5s"])).unwrap(),
        evaluate_hand(&tables, hand(&["9s", "9h", "9d", "6c", "5s"])).unwrap(),
        evaluate_hand(&tables, hand(&["9s", "9h", "6d", "6c", "5s"])).unwrap(),
        evaluate_hand(&tables, hand(&["9s", "9h", "7d", "6c", "5s"])).unwrap(),
        evaluate_hand(&tables, hand(&["9s", "2h", "7d", "6c", "5s"])).unwrap(),
    ];
    assert_eq!(strengths, [6, 79, 235, 1569, 1605, 1996, 3047, 4626, 7432]);
}

#[test]
fn first_and_last_of_each_band() {
    let tables = LookupTables::new();
    assert_eq!(evaluate_hand(&tables, hand(&["As", "Ah", "Ad", "Ac", "Ks"])), Ok(11));
    assert_eq!(evaluate_hand(&tables, hand(&["2s", "2h", "2d", "2c", "3s"])), Ok(166));
    assert_eq!(evaluate_hand(&tables, hand(&["As", "Ah", "Ad", "Kc", "Ks"])), Ok(167));
    assert_eq!(evaluate_hand(&tables, hand(&["2s", "2h", "2d", "3c", "3s"])), Ok(322));
    assert_eq!(evaluate_hand(&tables, hand(&["7s", "5s", "4s", "3s", "2s"])), Ok(1599));
    assert_eq!(evaluate_hand(&tables, hand(&["As", "Kh", "Qd", "Jc", "Ts"])), Ok(1600));
    assert_eq!(evaluate_hand(&tables, hand(&["As", "Ah", "Ad", "Kc", "Qs"])), Ok(1610));
    assert_eq!(evaluate_hand(&tables, hand(&["2s", "2h", "2d", "4c", "3s"])), Ok(2467));
    assert_eq!(evaluate_hand(&tables, hand(&["As", "Ah", "Kd", "Kc", "Qs"])), Ok(2468));
    assert_eq!(evaluate_hand(&tables, hand(&["3s", "3h", "2d", "2c", "4s"])), Ok(3325));
    assert_eq!(evaluate_hand(&tables, hand(&["As", "Ah", "Kd", "Qc", "Js"])), Ok(3326));
    assert_eq!(evaluate_hand(&tables, hand(&["As", "Kh", "Qd", "Jc", "9s"])), Ok(6186));
    assert_eq!(evaluate_hand(&tables, hand(&["7s", "5h", "4d", "3c", "2s"])), Ok(7462));
}

#[test]
fn order_of_the_cards_does_not_matter() {
    let tables = LookupTables::new();
    let a = evaluate_hand(&tables, hand(&["As", "Jd", "Ah", "Js", "Ac"]));
    let b = evaluate_hand(&tables, hand(&["Js", "Jd", "As", "Ac", "Ah"]));
    assert_eq!(a, Ok(169));
    assert_eq!(b, Ok(169));
}

#[test]
fn hands_of_another_size_are_refused() {
    let tables = LookupTables::new();
    assert_eq!(evaluate_hand(&tables, vec![]), Err(EvalError::MalformedHandSize));
    assert_eq!(
        evaluate_hand(&tables, hand(&["As", "Ks", "Qs", "Js"])),
        Err(EvalError::MalformedHandSize)
    );
    assert_eq!(
        evaluate_hand(&tables, hand(&["As", "Ks", "Qs", "Js", "Ts", "9s"])),
        Err(EvalError::MalformedHandSize)
    );
    assert_eq!(
        evaluate_board(&tables, hand(&["As", "Ks", "Qs", "Js"])),
        Err(EvalError::MalformedHandSize)
    );
    assert_eq!(evaluate_board(&tables, vec![]), Err(EvalError::MalformedHandSize));
}

#[test]
fn hands_outside_the_tables_are_refused() {
    let tables = LookupTables::new();
    let ace = new_card("As").unwrap();
    // five times the same card: a flush of one rank
    assert_eq!(
        evaluate_hand(&tables, vec![ace, ace, ace, ace, ace]),
        Err(EvalError::MissingLookupEntry)
    );
    // five aces in two suits
    let other = new_card("Ah").unwrap();
    assert_eq!(
        evaluate_hand(&tables, vec![ace, ace, ace, other, other]),
        Err(EvalError::MissingLookupEntry)
    );
    // no cards at all
    assert_eq!(evaluate_hand(&tables, vec![0, 0, 0, 0, 0]), Err(EvalError::MissingLookupEntry));
    // all bits set: a flush whose rank product does not fit
    assert_eq!(
        evaluate_hand(&tables, vec![u32::MAX; 5]),
        Err(EvalError::MissingLookupEntry)
    );
    assert_eq!(
        evaluate_board(&tables, vec![ace, ace, ace, ace, ace, other]),
        Err(EvalError::MissingLookupEntry)
    );
}

#[test]
fn board_of_five_is_the_hand() {
    let tables = LookupTables::new();
    let cards = hand(&["As", "Ac", "Ah", "Js", "Jd"]);
    assert_eq!(evaluate_board(&tables, cards.clone()), evaluate_hand(&tables, cards));
}

#[test]
fn board_strength_is_the_least_over_all_hands_of_five() {
    let tables = LookupTables::new();
    let boards = [
        hand(&["As", "Ah", "2s", "3s", "4s", "9s", "6s"]),
        hand(&["7c", "7d", "2s", "3s", "4s", "9s", "6s"]),
        hand(&["Kd", "Kh", "Ks", "2c", "2d", "9h", "Tc"]),
        hand(&["2c", "7d", "9h", "Js", "Kc", "3d", "4h"]),
        hand(&["5c", "6c", "7c", "8c", "9c", "Tc", "Jc"]),
        hand(&["Ah", "2d", "3c", "4s", "5h", "9d"]),
    ];
    for board in boards.iter() {
        let n = board.len();
        let mut least = u32::MAX;
        let mut hands = 0;
        for a in 0..n {
            for b in a + 1..n {
                for c in b + 1..n {
                    for d in c + 1..n {
                        for e in d + 1..n {
                            let five = vec![board[a], board[b], board[c], board[d], board[e]];
                            least = least.min(evaluate_hand(&tables, five).unwrap());
                            hands += 1;
                        }
                    }
                }
            }
        }
        assert_eq!(hands, if n == 7 { 21 } else { 6 });
        assert_eq!(evaluate_board(&tables, board.clone()), Ok(least));
    }
    assert_eq!(evaluate_board(&tables, boards[4].clone()), Ok(4));
    assert_eq!(evaluate_board(&tables, boards[2].clone()), Ok(190));
}

#[test]
fn hero_with_the_ace_high_flush_wins() {
    let tables = LookupTables::new();
    let board = ["2s", "3s", "4s", "9s", "6s"];
    let mut hero = hand(&["As", "Ah"]);
    hero.extend(hand(&board));
    let mut villain = hand(&["7c", "7d"]);
    villain.extend(hand(&board));
    let hero_score = evaluate_board(&tables, hero).unwrap();
    let villain_score = evaluate_board(&tables, villain).unwrap();
    assert!(hero_score < villain_score);
    assert_eq!(villain_score, evaluate_hand(&tables, hand(&board)).unwrap());
}

#[test]
fn every_hand_lies_in_the_band_of_its_rank() {
    let tables = LookupTables::new();
    let mut deck: Vec<(u32, usize, char)> = Vec::new();
    for s in ['s', 'h', 'd', 'c'] {
        for (index, r) in "23456789TJQKA".chars().enumerate() {
            deck.push((new_card(&format!("{r}{s}")).unwrap(), index, s));
        }
    }
    // straight flush, quads, full house, flush, straight, trips, two pair, pair, high card
    let bands = [
        (1u32, 10u32),
        (11, 166),
        (167, 322),
        (323, 1599),
        (1600, 1609),
        (1610, 2467),
        (2468, 3325),
        (3326, 6185),
        (6186, 7462),
    ];
    let mut lowest = [u32::MAX; 9];
    let mut highest = [0u32; 9];
    let mut seen = vec![false; 7463];
    let mut hands = 0u32;
    for a in 0..52 {
        for b in a + 1..52 {
            for c in b + 1..52 {
                for d in c + 1..52 {
                    for e in d + 1..52 {
                        let five = [deck[a], deck[b], deck[c], deck[d], deck[e]];
                        let mut counts = [0u8; 13];
                        for card in five.iter() {
                            counts[card.1] += 1;
                        }
                        let flush = five.iter().all(|card| card.2 == five[0].2);
                        let most = *counts.iter().max().unwrap();
                        let kinds = counts.iter().filter(|n| **n > 0).count();
                        let top = counts.iter().rposition(|n| *n > 0).unwrap();
                        let bottom = counts.iter().position(|n| *n > 0).unwrap();
                        let wheel = counts[12] == 1 && counts[..4] == [1, 1, 1, 1];
                        let straight = kinds == 5 && (top - bottom == 4 || wheel);
                        let rank = if flush && straight {
                            0
                        } else if most == 4 {
                            1
                        } else if most == 3 && kinds == 2 {
                            2
                        } else if flush {
                            3
                        } else if straight {
                            4
                        } else if most == 3 {
                            5
                        } else if most == 2 && kinds == 3 {
                            6
                        } else if most == 2 {
                            7
                        } else {
                            8
                        };
                        let cards = vec![five[0].0, five[1].0, five[2].0, five[3].0, five[4].0];
                        let strength = evaluate_hand(&tables, cards).unwrap();
                        assert!(bands[rank].0 <= strength && strength <= bands[rank].1);
                        lowest[rank] = lowest[rank].min(strength);
                        highest[rank] = highest[rank].max(strength);
                        seen[strength as usize] = true;
                        hands += 1;
                    }
                }
            }
        }
    }
    assert_eq!(hands, 2598960);
    for rank in 0..9 {
        assert_eq!((lowest[rank], highest[rank]), bands[rank]);
    }
    assert!(seen[1..].iter().all(|s| *s));
}
