use poker_eval::card::{new_card, prime_prod_from_pbits, prime_prod_from_rank};
use poker_eval::lookup::{
    build_flush_table, build_unsuited_table, is_straight, next_bit_permutation, straight_keys,
    straights, BitSubset, LookupTables,
};

#[test]
fn check_ryl_flush_rank() {
    let ryl_flush = 0b1_1111_0000_0000;
    let prime_val = prime_prod_from_rank(ryl_flush);
    let val = build_flush_table().get(&prime_val).copied().expect("Royal flush missing");
    let expected: u32 = 1;
    assert_eq!(val, expected);
}

#[test]
fn check_random_flush() {
    let kng_flsh = 0b111101000000;
    let prime_val = prime_prod_from_rank(kng_flsh);
    let val = build_flush_table().get(&prime_val).copied().expect("king flush missing");
    let expected = 816;
    assert_eq!(val, expected);
}

#[test]
fn check_quad_aces() {
    let a = new_card("As").unwrap();
    let b = new_card("Ac").unwrap();
    let c = new_card("Ad").unwrap();
    let d = new_card("Ah").unwrap();
    let e = new_card("8s").unwrap();

    let hand = vec![a, b, c, d, e];

    let key = prime_prod_from_pbits(hand);

    let predicted = build_unsuited_table().get(&key).copied().expect("Quad aces missing");
    let expected = 16;
    assert_eq!(predicted, expected);
}

#[test]
fn check_quad_deuces() {
    let a = new_card("2s").unwrap();
    let b = new_card("2c").unwrap();
    let c = new_card("2d").unwrap();
    let d = new_card("2h").unwrap();
    let e = new_card("8s").unwrap();

    let hand = vec![a, b, c, d, e];

    let key = prime_prod_from_pbits(hand);

    let predicted = build_unsuited_table().get(&key).copied().expect("Quad deuces missing");
    let expected = 161;
    assert_eq!(predicted, expected);
}

#[test]
fn check_four_full_over_three() {
    let a = new_card("4s").unwrap();
    let b = new_card("4c").unwrap();
    let c = new_card("4d").unwrap();
    let d = new_card("3h").unwrap();
    let e = new_card("3s").unwrap();

    let hand = vec![a, b, c, d, e];

    let key = prime_prod_from_pbits(hand);

    let predicted = build_unsuited_table().get(&key).copied().expect("FH missing");
    let expected = 297;
    assert_eq!(predicted, expected);
}

#[test]
fn check_wheel() {
    let a = new_card("As").unwrap();
    let b = new_card("5c").unwrap();
    let c = new_card("4d").unwrap();
    let d = new_card("3h").unwrap();
    let e = new_card("2s").unwrap();

    let hand = vec![a, b, c, d, e];

    let key = prime_prod_from_pbits(hand);

    let predicted = build_unsuited_table().get(&key).copied().expect("FH missing");
    let expected = 1609;
    assert_eq!(predicted, expected);
}

#[test]
fn check_set_of_jacks() {
    let a = new_card("Js").unwrap();
    let b = new_card("Jc").unwrap();
    let c = new_card("Jd").unwrap();
    let d = new_card("3h").unwrap();
    let e = new_card("2s").unwrap();

    let hand = vec![a, b, c, d, e];

    let key = prime_prod_from_pbits(hand);

    let predicted = build_unsuited_table().get(&key).copied().expect("FH missing");
    let expected = 1873;
    assert_eq!(predicted, expected);
}

#[test]
fn check_five_and_two() {
    let a = new_card("5s").unwrap();
    let b = new_card("5c").unwrap();
    let c = new_card("2d").unwrap();
    let d = new_card("2h").unwrap();
    let e = new_card("As").unwrap();

    let hand = vec![a, b, c, d, e];

    let key = prime_prod_from_pbits(hand);

    let predicted = build_unsuited_table().get(&key).copied().expect("FH missing");
    let expected = 3282;
    assert_eq!(predicted, expected);
}

#[test]
fn check_pair() {
    let a = new_card("2s").unwrap();
    let b = new_card("2c").unwrap();
    let c = new_card("5d").unwrap();
    let d = new_card("4h").unwrap();
    let e = new_card("3s").unwrap();

    let hand = vec![a, b, c, d, e];

    let key = prime_prod_from_pbits(hand);

    let predicted = build_unsuited_table().get(&key).copied().expect("FH missing");
    let expected = 6185;
    assert_eq!(predicted, expected);
}

#[test]
fn check_worst_hand() {
    let a = new_card("7s").unwrap();
    let b = new_card("5c").unwrap();
    let c = new_card("4d").unwrap();
    let d = new_card("3h").unwrap();
    let e = new_card("2s").unwrap();

    let hand = vec![a, b, c, d, e];

    let key = prime_prod_from_pbits(hand);

    let predicted = build_unsuited_table().get(&key).copied().expect("FH missing");
    let expected = 7462;
    assert_eq!(predicted, expected);
}

#[test]
fn tables_have_the_expected_sizes() {
    assert_eq!(build_flush_table().len(), 1287);
    assert_eq!(build_unsuited_table().len(), 6175);
    let tables = LookupTables::new();
    assert_eq!(tables.flush_len(), 1287);
    assert_eq!(tables.unsuited_len(), 6175);
}

#[test]
fn tables_are_the_same_when_built_again() {
    assert_eq!(build_flush_table(), build_flush_table());
    assert_eq!(build_unsuited_table(), build_unsuited_table());
    let a = LookupTables::new();
    let b = LookupTables::new();
    for key in [31367009u32, 2 * 3 * 5 * 7 * 41, 41 * 41 * 41 * 41 * 37, 7, 0] {
        assert_eq!(a.flush_strength(key), b.flush_strength(key));
        assert_eq!(a.unsuited_strength(key), b.unsuited_strength(key));
    }
}

#[test]
fn strengths_fill_the_range_without_gaps() {
    let mut seen = vec![false; 7463];
    for (_, strength) in build_flush_table().iter().chain(build_unsuited_table().iter()) {
        assert!(1 <= *strength && *strength <= 7462);
        assert!(!seen[*strength as usize]);
        seen[*strength as usize] = true;
    }
    assert!(seen[1..].iter().all(|s| *s));
}

#[test]
fn table_lookups_by_key() {
    let tables = LookupTables::new();
    assert_eq!(tables.flush_strength(31367009), Some(1));
    assert_eq!(tables.flush_strength(2 * 3 * 5 * 7 * 41), Some(10));
    assert_eq!(tables.flush_strength(2 * 3 * 5 * 7 * 11), Some(9));
    assert_eq!(tables.flush_strength(2 * 3 * 5 * 7 * 13), Some(1599));
    assert_eq!(tables.flush_strength(41), None);
    assert_eq!(tables.unsuited_strength(31367009), Some(1600));
    assert_eq!(tables.unsuited_strength(41 * 41 * 41 * 41 * 37), Some(11));
    assert_eq!(tables.unsuited_strength(41 * 41 * 41 * 41 * 41), None);
    assert_eq!(tables.unsuited_strength(1), None);
}

#[test]
fn next_pattern_keeps_the_number_of_ones() {
    assert_eq!(next_bit_permutation(0b1), Some(0b10));
    assert_eq!(next_bit_permutation(0b0111), Some(0b1011));
    assert_eq!(next_bit_permutation(0b1011), Some(0b1101));
    assert_eq!(next_bit_permutation(0b1101), Some(0b1110));
    assert_eq!(next_bit_permutation(0b1110), Some(0b10011));
    assert_eq!(next_bit_permutation(0b1_1111), Some(0b10_1111));
    assert_eq!(next_bit_permutation(0x7fff_ffff), Some(0xbfff_ffff));
    assert_eq!(next_bit_permutation(0x4000_0000), Some(0x8000_0000));
    let mut v: u32 = 0b1_1111;
    for _ in 0..2000 {
        let w = next_bit_permutation(v).unwrap();
        assert!(w > v);
        assert_eq!(w.count_ones(), 5);
        for between in v + 1..w {
            assert_ne!(between.count_ones(), 5);
        }
        v = w;
    }
}

#[test]
fn bit_subset_enumerates_every_pattern_once() {
    let all = BitSubset::new(13, 5).collect();
    assert_eq!(all.len(), 1287);
    assert_eq!(all[0], 0b1_1111);
    assert_eq!(all[1286], 0b1_1111_0000_0000);
    assert!(all.windows(2).all(|w| w[0] < w[1]));
    assert!(all.iter().all(|p| p.count_ones() == 5 && *p < 1 << 13));

    assert_eq!(BitSubset::new(4, 2).collect(), vec![0b0011, 0b0101, 0b0110, 0b1001, 0b1010, 0b1100]);
    assert_eq!(BitSubset::new(3, 3).collect(), vec![0b111]);
    assert_eq!(BitSubset::new(2, 3).collect(), Vec::<u32>::new());
    assert_eq!(BitSubset::new(0, 1).collect(), Vec::<u32>::new());
    assert_eq!(BitSubset::new(31, 31).collect(), vec![0x7fff_ffff]);
    assert_eq!(BitSubset::new(31, 1).collect().len(), 31);
}

#[test]
fn bit_subset_hands_out_one_by_one() {
    let mut subset = BitSubset::new(3, 2);
    assert_eq!(subset.next(), Some(0b011));
    assert_eq!(subset.next(), Some(0b101));
    assert_eq!(subset.next(), Some(0b110));
    assert_eq!(subset.next(), None);
    assert_eq!(subset.next(), None);
}

#[test]
fn straights_are_ten_masks_of_five_ranks() {
    let masks = straights();
    assert_eq!(masks.len(), 10);
    assert_eq!(masks[0], 0b1_1111_0000_0000);
    assert_eq!(masks[9], 0b1_0000_0000_1111);
    for mask in masks.iter() {
        assert_eq!(mask.count_ones(), 5);
        assert!(is_straight(*mask));
    }
    assert!(!is_straight(0b1_1110_1000_0000));
    assert!(!is_straight(0));
    let keys = straight_keys();
    assert_eq!(keys.len(), 10);
    assert_eq!(keys[0], 41 * 37 * 31 * 29 * 23);
    assert_eq!(keys[8], 2 * 3 * 5 * 7 * 11);
    assert_eq!(keys[9], 2 * 3 * 5 * 7 * 41);
}

#[test]
fn bit_subset_counts_are_binomials() {
    let mut row: Vec<usize> = vec![1];
    for n in 0..14u8 {
        for k in 1..=5u8 {
            let expected = if (k as usize) < row.len() { row[k as usize] } else { 0 };
            assert_eq!(BitSubset::new(n, k).collect().len(), expected);
        }
        let mut next = vec![1];
        for i in 1..row.len() {
            next.push(row[i - 1] + row[i]);
        }
        next.push(1);
        row = next;
    }
}
