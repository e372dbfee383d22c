use poker_eval::card::{
    new_card, pack, prime, prime_prod_from_pbits, prime_prod_from_rank, rank, rank_mask, suit,
    checked_prime_prod_from_rank,
};

#[test]
fn test_ace_of_king_diamonds() {
    let card = new_card("Kd").unwrap();

    assert_eq!(card, 134236965);
}

#[test]
fn test_five_of_spades() {
    let card: u32 = new_card("5s").unwrap();

    assert_eq!(card, 529159)
}

#[test]
fn test_prime_from_rank_bits() {
    let a = new_card("As").unwrap();
    let b = new_card("Ks").unwrap();
    let c = new_card("Qs").unwrap();
    let d = new_card("Js").unwrap();
    let e = new_card("Ts").unwrap();

    let cards = &[a, b, c, d, e];

    let combined_cards = cards.iter().copied().fold(0b0, |acc, x| acc | x);

    let clean_cards = combined_cards >> 16;

    let predicted = prime_prod_from_rank(clean_cards);

    let expected = 41 * 37 * 31 * 29 * 23;

    assert_eq!(predicted, expected)
}

#[test]
fn every_card_text_round_trips_through_its_fields() {
    let ranks = ['2', '3', '4', '5', '6', '7', '8', '9', 'T', 'J', 'Q', 'K', 'A'];
    let primes = [2u32, 3, 5, 7, 11, 13, 17, 19, 23, 29, 31, 37, 41];
    let suits = [('s', 1u32), ('h', 2), ('d', 4), ('c', 8)];
    for (index, r) in ranks.iter().enumerate() {
        for (s, bit) in suits.iter() {
            let text = format!("{r}{s}");
            let card = new_card(&text).unwrap();
            assert_eq!(rank(card), index as u32);
            assert_eq!(suit(card), *bit);
            assert_eq!(rank_mask(card), 1u32 << index);
            assert_eq!(prime(card), primes[index]);
            assert_eq!(card, pack(index as u32, *bit));
            assert_eq!(ranks[rank(card) as usize], *r);
        }
    }
}

#[test]
fn card_layout_is_exact() {
    // ace of clubs: rank bit 12, suit 8, index 12, prime 41
    assert_eq!(new_card("Ac"), Some((1 << 28) | (8 << 12) | (12 << 8) | 41));
    // deuce of spades: rank bit 0, suit 1, index 0, prime 2
    assert_eq!(new_card("2s"), Some((1 << 16) | (1 << 12) | 2));
    assert_eq!(new_card("Th"), Some((1 << 24) | (2 << 12) | (8 << 8) | 23));
}

#[test]
fn malformed_text_gives_no_card() {
    assert_eq!(new_card(""), None);
    assert_eq!(new_card("A"), None);
    assert_eq!(new_card("Asx"), None);
    assert_eq!(new_card("As "), None);
    assert_eq!(new_card("1s"), None);
    assert_eq!(new_card("as"), None);
    assert_eq!(new_card("AS"), None);
    assert_eq!(new_card("sA"), None);
    assert_eq!(new_card("Ax"), None);
    assert_eq!(new_card("10"), None);
    assert_eq!(new_card("é"), None);
    assert_eq!(new_card("Aé"), None);
    assert_eq!(new_card("éé"), None);
}

#[test]
fn rank_product_takes_the_low_thirteen_bits() {
    assert_eq!(prime_prod_from_rank(0), 1);
    assert_eq!(prime_prod_from_rank(1), 2);
    assert_eq!(prime_prod_from_rank(0b1_0000_0000_0000), 41);
    assert_eq!(prime_prod_from_rank(0b11), 6);
    assert_eq!(prime_prod_from_rank(0b1_0000_0000_1111), 2 * 3 * 5 * 7 * 41);
    // bits above the thirteenth do not count
    assert_eq!(prime_prod_from_rank(0b110_0000_0000_0001), 2);
}

#[test]
fn checked_rank_product_refuses_what_does_not_fit() {
    assert_eq!(checked_prime_prod_from_rank(0b1_1111_0000_0000), Some(31367009));
    assert_eq!(checked_prime_prod_from_rank(0), Some(1));
    // 2 * 3 * ... * 29 = 6469693230 is above 2^32
    assert_eq!(checked_prime_prod_from_rank(0b11_1111_1111), None);
    // 2 * 3 * ... * 23 = 223092870 fits
    assert_eq!(checked_prime_prod_from_rank(0b1_1111_1111), Some(223092870));
    assert_eq!(checked_prime_prod_from_rank(0x1fff), None);
}

#[test]
fn hand_product_counts_repeats() {
    let a = new_card("As").unwrap();
    let b = new_card("Ah").unwrap();
    let c = new_card("2d").unwrap();
    assert_eq!(prime_prod_from_pbits(vec![a, b]), 41 * 41);
    assert_eq!(prime_prod_from_pbits(vec![a, b, c]), 41 * 41 * 2);
    assert_eq!(prime_prod_from_pbits(vec![]), 1);
    assert_eq!(prime_prod_from_pbits(vec![a, a, a, a, a]), 115856201);
}
