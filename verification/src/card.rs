//! The packed card: one `u32` that holds a rank as a one-hot mask, as an
//! index and as a prime, together with a one-hot suit.
//!
//! ```text
//! bits 16..=28   rank mask, bit `16 + r` for rank `r`
//! bits 12..=15   suit mask (spade 1, heart 2, diamond 4, club 8)
//! bits  8..=11   rank index, 0 (deuce) to 12 (ace)
//! bits  0..=7    the prime of the rank
//! ```
use vstd::prelude::*;
use vstd::string::StrSliceExecFns;

verus! {

/// A card in its packed form.
pub type Card = u32;

/// The prime that stands for a rank; 1 for anything that is no rank.
pub open spec fn rank_prime(rank: int) -> nat {
    if rank == 0 {
        2
    } else if rank == 1 {
        3
    } else if rank == 2 {
        5
    } else if rank == 3 {
        7
    } else if rank == 4 {
        11
    } else if rank == 5 {
        13
    } else if rank == 6 {
        17
    } else if rank == 7 {
        19
    } else if rank == 8 {
        23
    } else if rank == 9 {
        29
    } else if rank == 10 {
        31
    } else if rank == 11 {
        37
    } else if rank == 12 {
        41
    } else {
        1
    }
}

/// The rank index that a character names.
pub open spec fn rank_of_char(c: char) -> Option<u32> {
    match c {
        '2' => Some(0u32),
        '3' => Some(1u32),
        '4' => Some(2u32),
        '5' => Some(3u32),
        '6' => Some(4u32),
        '7' => Some(5u32),
        '8' => Some(6u32),
        '9' => Some(7u32),
        'T' => Some(8u32),
        'J' => Some(9u32),
        'Q' => Some(10u32),
        'K' => Some(11u32),
        'A' => Some(12u32),
        _ => None,
    }
}

/// The one-hot suit that a character names.
pub open spec fn suit_of_char(c: char) -> Option<u32> {
    match c {
        's' => Some(1u32),
        'h' => Some(2u32),
        'd' => Some(4u32),
        'c' => Some(8u32),
        _ => None,
    }
}

/// The character of a rank index; `'?'` where there is none.
pub open spec fn char_of_rank(rank: u32) -> char {
    if rank == 0 {
        '2'
    } else if rank == 1 {
        '3'
    } else if rank == 2 {
        '4'
    } else if rank == 3 {
        '5'
    } else if rank == 4 {
        '6'
    } else if rank == 5 {
        '7'
    } else if rank == 6 {
        '8'
    } else if rank == 7 {
        '9'
    } else if rank == 8 {
        'T'
    } else if rank == 9 {
        'J'
    } else if rank == 10 {
        'Q'
    } else if rank == 11 {
        'K'
    } else if rank == 12 {
        'A'
    } else {
        '?'
    }
}

/// The character of a one-hot suit; `'?'` where there is none.
pub open spec fn char_of_suit(suit: u32) -> char {
    if suit == 1 {
        's'
    } else if suit == 2 {
        'h'
    } else if suit == 4 {
        'd'
    } else if suit == 8 {
        'c'
    } else {
        '?'
    }
}

/// Whether `suit` is one of the four one-hot suit codes.
pub open spec fn is_suit(suit: u32) -> bool {
    suit == 1 || suit == 2 || suit == 4 || suit == 8
}

/// The packed card of a rank index and a one-hot suit.
pub open spec fn pack_card(rank: u32, suit: u32) -> Card {
    ((1u32 << rank) << 16) | (suit << 12) | (rank << 8) | (rank_prime(rank as int) as u32)
}

/// The value of the one-hot mask of a rank: two to the power of the rank.
pub open spec fn rank_bit(rank: u32) -> nat {
    if rank == 0 {
        1
    } else if rank == 1 {
        2
    } else if rank == 2 {
        4
    } else if rank == 3 {
        8
    } else if rank == 4 {
        16
    } else if rank == 5 {
        32
    } else if rank == 6 {
        64
    } else if rank == 7 {
        128
    } else if rank == 8 {
        256
    } else if rank == 9 {
        512
    } else if rank == 10 {
        1024
    } else if rank == 11 {
        2048
    } else {
        4096
    }
}

/// The packed card as a number: each field counts by the place it
/// starts at.
pub open spec fn card_value(rank: u32, suit: u32) -> nat {
    (rank_bit(rank) * 65536 + suit * 4096 + rank * 256 + rank_prime(rank as int)) as nat
}

/// The rank mask of a card, moved down to bit 0.
pub open spec fn card_rank_mask(card: Card) -> u32 {
    (card >> 16) & 0x1fff
}

/// The one-hot suit of a card.
pub open spec fn card_suit(card: Card) -> u32 {
    (card >> 12) & 0xf
}

/// The rank index of a card.
pub open spec fn card_rank(card: Card) -> u32 {
    (card >> 8) & 0xf
}

/// The prime of a card.
pub open spec fn card_prime(card: Card) -> u32 {
    card & 0xff
}

/// A well-formed card: the packed form of some rank and suit.
pub open spec fn is_card(card: Card) -> bool {
    &&& card_rank(card) < 13
    &&& is_suit(card_suit(card))
    &&& card == pack_card(card_rank(card), card_suit(card))
}

/// What a text encodes: a card for a rank character followed by a suit
/// character, nothing for any other text.
pub open spec fn card_of_text(text: Seq<char>) -> Option<Card> {
    if text.len() == 2 {
        match (rank_of_char(text[0]), suit_of_char(text[1])) {
            (Some(rank), Some(suit)) => Some(pack_card(rank, suit)),
            _ => None,
        }
    } else {
        None
    }
}

/// The two characters that a card stands for.
pub open spec fn text_of_card(card: Card) -> Seq<char> {
    seq![char_of_rank(card_rank(card)), char_of_suit(card_suit(card))]
}

/// The rank index that a character names.
fn char_to_rank(c: char) -> (rank: Option<u32>)
    ensures
        rank == rank_of_char(c),
{
    match c {
        '2' => Some(0),
        '3' => Some(1),
        '4' => Some(2),
        '5' => Some(3),
        '6' => Some(4),
        '7' => Some(5),
        '8' => Some(6),
        '9' => Some(7),
        'T' => Some(8),
        'J' => Some(9),
        'Q' => Some(10),
        'K' => Some(11),
        'A' => Some(12),
        _ => None,
    }
}

/// The one-hot rank mask that a character names.
fn char_to_bit(c: char) -> (bit: Option<u32>)
    ensures
        bit == match rank_of_char(c) {
            Some(rank) => Some(1u32 << rank),
            None => None,
        },
{
    match c {
        '2' => Some(1u32 << 0u32),
        '3' => Some(1u32 << 1u32),
        '4' => Some(1u32 << 2u32),
        '5' => Some(1u32 << 3u32),
        '6' => Some(1u32 << 4u32),
        '7' => Some(1u32 << 5u32),
        '8' => Some(1u32 << 6u32),
        '9' => Some(1u32 << 7u32),
        'T' => Some(1u32 << 8u32),
        'J' => Some(1u32 << 9u32),
        'Q' => Some(1u32 << 10u32),
        'K' => Some(1u32 << 11u32),
        'A' => Some(1u32 << 12u32),
        _ => None,
    }
}

/// The prime of the rank that a character names.
fn rank_to_prime(c: char) -> (prime: Option<u32>)
    ensures
        prime == match rank_of_char(c) {
            Some(rank) => Some(rank_prime(rank as int) as u32),
            None => None,
        },
{
    match c {
        '2' => Some(2),
        '3' => Some(3),
        '4' => Some(5),
        '5' => Some(7),
        '6' => Some(11),
        '7' => Some(13),
        '8' => Some(17),
        '9' => Some(19),
        'T' => Some(23),
        'J' => Some(29),
        'Q' => Some(31),
        'K' => Some(37),
        'A' => Some(41),
        _ => None,
    }
}

/// The one-hot suit that a character names.
fn suit_to_bit(s: char) -> (suit: Option<u32>)
    ensures
        suit == suit_of_char(s),
{
    match s {
        's' => Some(1),
        'h' => Some(2),
        'd' => Some(4),
        'c' => Some(8),
        _ => None,
    }
}

/// Encodes a two-character text, rank first and suit second, as a card.
/// Any other text gives `None`.
pub fn new_card(card_str: &str) -> (card: Option<Card>)
    ensures
        card == card_of_text(card_str@),
        card is None <==> card_str@.len() != 2 || rank_of_char(card_str@[0]) is None
            || suit_of_char(card_str@[1]) is None,
        card matches Some(packed) ==> is_card(packed) && packed == card_value(
            rank_of_char(card_str@[0]).unwrap(),
            suit_of_char(card_str@[1]).unwrap(),
        ),
{
    proof {
        if card_of_text(card_str@) is Some {
            lemma_text_round_trip(card_str@);
        }
    }
    if card_str.unicode_len() != 2 {
        return None;
    }
    let rank_char = card_str.get_char(0);
    let suit_char = card_str.get_char(1);

    let rank_b: u32 = match char_to_bit(rank_char) {
        Some(bit) => bit << 16u32,
        None => {
            return None;
        },
    };
    let suit: u32 = match suit_to_bit(suit_char) {
        Some(bit) => bit << 12u32,
        None => {
            return None;
        },
    };
    let rank_n: u32 = match char_to_rank(rank_char) {
        Some(rank) => rank << 8u32,
        None => {
            return None;
        },
    };
    let rank_p: u32 = match rank_to_prime(rank_char) {
        Some(prime) => prime,
        None => {
            return None;
        },
    };
    Some(rank_b | suit | rank_n | rank_p)
}

/// The packed card of a rank index and a one-hot suit.
pub fn pack(rank: u32, suit: u32) -> (card: Card)
    requires
        rank < 13,
        is_suit(suit),
    ensures
        card == pack_card(rank, suit),
        card == card_value(rank, suit),
        is_card(card),
{
    proof {
        lemma_card_fields(rank, suit);
    }
    ((1u32 << rank) << 16u32) | (suit << 12u32) | (rank << 8u32) | prime_of(rank)
}

/// The rank mask of a card, moved down to bit 0.
pub fn rank_mask(card: Card) -> (mask: u32)
    ensures
        mask == card_rank_mask(card),
{
    (card >> 16u32) & 0x1fff
}

/// The one-hot suit of a card.
pub fn suit(card: Card) -> (suit: u32)
    ensures
        suit == card_suit(card),
{
    (card >> 12u32) & 0xf
}

/// The rank index of a card.
pub fn rank(card: Card) -> (rank: u32)
    ensures
        rank == card_rank(card),
{
    (card >> 8u32) & 0xf
}

/// The prime of a card.
pub fn prime(card: Card) -> (prime: u32)
    ensures
        prime == card_prime(card),
{
    card & 0xff
}

/// Each of the four fields of a packed card gives back what was packed:
/// the rank as a one-hot mask, as an index and as its prime, and the suit.
pub proof fn lemma_card_fields(rank: u32, suit: u32)
    requires
        rank < 13,
        is_suit(suit),
    ensures
        card_rank_mask(pack_card(rank, suit)) == 1u32 << rank,
        card_suit(pack_card(rank, suit)) == suit,
        card_rank(pack_card(rank, suit)) == rank,
        card_prime(pack_card(rank, suit)) == rank_prime(rank as int),
        pack_card(rank, suit) & 0x3f == rank_prime(rank as int),
        is_card(pack_card(rank, suit)),
        pack_card(rank, suit) == card_value(rank, suit),
{
    lemma_card_value(rank, suit);
    let p: u32 = rank_prime(rank as int) as u32;
    let card: u32 = ((1u32 << rank) << 16) | (suit << 12) | (rank << 8) | p;
    assert(((card >> 16) & 0x1fff) == 1u32 << rank && ((card >> 12) & 0xf) == suit && ((card >> 8)
        & 0xf) == rank && (card & 0xff) == p && (card & 0x3f) == p) by (bit_vector)
        requires
            rank < 13,
            suit < 16,
            p < 64,
            card == ((1u32 << rank) << 16) | (suit << 12) | (rank << 8) | p,
    ;
}

/// The packed card is the sum of its fields, each moved to its place.
pub proof fn lemma_card_value(rank: u32, suit: u32)
    requires
        rank < 13,
        suit < 16,
    ensures
        pack_card(rank, suit) == card_value(rank, suit),
{
    let p: u32 = rank_prime(rank as int) as u32;
    let bit: u32 = rank_bit(rank) as u32;
    assert(bit == 1u32 << rank) by (bit_vector)
        requires
            rank < 13,
            bit == (if rank == 0 {
                1u32
            } else if rank == 1 {
                2u32
            } else if rank == 2 {
                4u32
            } else if rank == 3 {
                8u32
            } else if rank == 4 {
                16u32
            } else if rank == 5 {
                32u32
            } else if rank == 6 {
                64u32
            } else if rank == 7 {
                128u32
            } else if rank == 8 {
                256u32
            } else if rank == 9 {
                512u32
            } else if rank == 10 {
                1024u32
            } else if rank == 11 {
                2048u32
            } else {
                4096u32
            }),
    ;
    assert(((1u32 << rank) << 16) | (suit << 12) | (rank << 8) | p == (1u32 << rank) * 65536 + suit
        * 4096 + rank * 256 + p) by (bit_vector)
        requires
            rank < 13,
            suit < 16,
            p < 64,
    ;
}

/// Decoding a card that a text encodes gives the text back.
pub proof fn lemma_text_round_trip(text: Seq<char>)
    requires
        card_of_text(text) is Some,
    ensures
        text_of_card(card_of_text(text).unwrap()) == text,
        is_card(card_of_text(text).unwrap()),
        card_of_text(text).unwrap() == card_value(
            rank_of_char(text[0]).unwrap(),
            suit_of_char(text[1]).unwrap(),
        ),
{
    let rank = rank_of_char(text[0]).unwrap();
    let suit = suit_of_char(text[1]).unwrap();
    lemma_card_fields(rank, suit);
    lemma_card_value(rank, suit);
    assert(text_of_card(pack_card(rank, suit)) =~= text);
}

/// Encoding the text of a well-formed card gives the card back.
pub proof fn lemma_card_round_trip(card: Card)
    requires
        is_card(card),
    ensures
        card_of_text(text_of_card(card)) == Some(card),
{
}

/// Whether the rank mask `bits` holds the rank.
pub open spec fn has_rank(bits: u32, rank: u32) -> bool {
    bits & (1u32 << rank) != 0
}

/// What a rank contributes to the product of a rank mask.
pub open spec fn rank_factor(bits: u32, rank: u32) -> nat {
    if has_rank(bits, rank) {
        rank_prime(rank as int)
    } else {
        1
    }
}

/// The product of the primes of the ranks below `n` that `bits` holds.
pub open spec fn mask_product(bits: u32, n: nat) -> nat
    decreases n,
{
    if n == 0 {
        1
    } else {
        mask_product(bits, (n - 1) as nat) * rank_factor(bits, (n - 1) as u32)
    }
}

/// The fingerprint of a set of ranks: the product of the primes of the
/// ranks whose bit, among the low 13, is set in `bits`.
pub open spec fn rank_set_product(bits: u32) -> nat {
    mask_product(bits, 13)
}

/// The fingerprint of a hand: the product of the low six bits of each
/// card, which hold the prime of a well-formed card.
pub open spec fn hand_product(cards: Seq<Card>) -> nat
    decreases cards.len(),
{
    if cards.len() == 0 {
        1
    } else {
        hand_product(cards.drop_last()) * ((cards.last() & 0x3f) as nat)
    }
}

/// The product of the primes of all ranks below `n`.
pub open spec fn primorial(n: nat) -> nat
    decreases n,
{
    if n == 0 {
        1
    } else {
        primorial((n - 1) as nat) * rank_prime(n - 1)
    }
}

/// The product over a longer prefix of the ranks is no smaller.
pub proof fn lemma_mask_product_grows(bits: u32, a: nat, b: nat)
    requires
        a <= b,
    ensures
        1 <= mask_product(bits, a) <= mask_product(bits, b),
    decreases b,
{
    if b == 0 {
    } else if a == b {
        lemma_mask_product_grows(bits, (a - 1) as nat, (b - 1) as nat);
        let p = mask_product(bits, (b - 1) as nat);
        let f = rank_factor(bits, (b - 1) as u32);
        assert(1 <= p * f) by (nonlinear_arith)
            requires
                1 <= p,
                1 <= f,
        ;
    } else {
        lemma_mask_product_grows(bits, a, (b - 1) as nat);
        let p = mask_product(bits, (b - 1) as nat);
        let f = rank_factor(bits, (b - 1) as u32);
        assert(p <= p * f) by (nonlinear_arith)
            requires
                1 <= p,
                1 <= f,
        ;
    }
}

/// No rank mask has a product above that of all thirteen primes.
pub proof fn lemma_mask_product_bound(bits: u32, n: nat)
    requires
        n <= 13,
    ensures
        mask_product(bits, n) <= primorial(n) <= 304250263527210,
    decreases n,
{
    lemma_primorial_values();
    lemma_primorial_grows(n, 13);
    if n > 0 {
        lemma_mask_product_bound(bits, (n - 1) as nat);
        let p = mask_product(bits, (n - 1) as nat);
        let f = rank_factor(bits, (n - 1) as u32);
        let q = primorial((n - 1) as nat);
        let g = rank_prime(n - 1);
        assert(p * f <= q * g) by (nonlinear_arith)
            requires
                p <= q,
                f <= g,
        ;
    }
}

/// The product of all thirteen rank primes.
proof fn lemma_primorial_values()
    ensures
        primorial(13) == 304250263527210,
{
    assert(primorial(0) == 1);
    assert(1 * 2 == 2) by (nonlinear_arith);
    assert(primorial(1) == primorial(0) * rank_prime(0));
    assert(primorial(1) == 2);
    assert(2 * 3 == 6) by (nonlinear_arith);
    assert(primorial(2) == primorial(1) * rank_prime(1));
    assert(primorial(2) == 6);
    assert(6 * 5 == 30) by (nonlinear_arith);
    assert(primorial(3) == primorial(2) * rank_prime(2));
    assert(primorial(3) == 30);
    assert(30 * 7 == 210) by (nonlinear_arith);
    assert(primorial(4) == primorial(3) * rank_prime(3));
    assert(primorial(4) == 210);
    assert(210 * 11 == 2310) by (nonlinear_arith);
    assert(primorial(5) == primorial(4) * rank_prime(4));
    assert(primorial(5) == 2310);
    assert(2310 * 13 == 30030) by (nonlinear_arith);
    assert(primorial(6) == primorial(5) * rank_prime(5));
    assert(primorial(6) == 30030);
    assert(30030 * 17 == 510510) by (nonlinear_arith);
    assert(primorial(7) == primorial(6) * rank_prime(6));
    assert(primorial(7) == 510510);
    assert(510510 * 19 == 9699690) by (nonlinear_arith);
    assert(primorial(8) == primorial(7) * rank_prime(7));
    assert(primorial(8) == 9699690);
    assert(9699690 * 23 == 223092870) by (nonlinear_arith);
    assert(primorial(9) == primorial(8) * rank_prime(8));
    assert(primorial(9) == 223092870);
    assert(223092870 * 29 == 6469693230) by (nonlinear_arith);
    assert(primorial(10) == primorial(9) * rank_prime(9));
    assert(primorial(10) == 6469693230);
    assert(6469693230 * 31 == 200560490130) by (nonlinear_arith);
    assert(primorial(11) == primorial(10) * rank_prime(10));
    assert(primorial(11) == 200560490130);
    assert(200560490130 * 37 == 7420738134810) by (nonlinear_arith);
    assert(primorial(12) == primorial(11) * rank_prime(11));
    assert(primorial(12) == 7420738134810);
    assert(7420738134810 * 41 == 304250263527210) by (nonlinear_arith);
    assert(primorial(13) == primorial(12) * rank_prime(12));
    assert(primorial(13) == 304250263527210);
}

/// The product of the primes of more ranks is no smaller.
proof fn lemma_primorial_grows(a: nat, b: nat)
    requires
        a <= b,
    ensures
        1 <= primorial(a) <= primorial(b),
    decreases b,
{
    if b == 0 {
    } else if a == b {
        lemma_primorial_grows((a - 1) as nat, (b - 1) as nat);
        let p = primorial((b - 1) as nat);
        let f = rank_prime(b - 1);
        assert(1 <= p * f) by (nonlinear_arith)
            requires
                1 <= p,
                1 <= f,
        ;
    } else {
        lemma_primorial_grows(a, (b - 1) as nat);
        let p = primorial((b - 1) as nat);
        let f = rank_prime(b - 1);
        assert(p <= p * f) by (nonlinear_arith)
            requires
                1 <= p,
                1 <= f,
        ;
    }
}

/// The largest product that `n` factors below 64 can have.
pub open spec fn six_bit_power(n: nat) -> nat
    decreases n,
{
    if n == 0 {
        1
    } else {
        63 * six_bit_power((n - 1) as nat)
    }
}

/// A hand of `n` cards has a product of at most `63^n`.
pub proof fn lemma_hand_product_bound(cards: Seq<Card>)
    ensures
        hand_product(cards) <= six_bit_power(cards.len()),
    decreases cards.len(),
{
    if cards.len() > 0 {
        lemma_hand_product_bound(cards.drop_last());
        let last = cards.last();
        assert(last & 0x3f <= 63) by (bit_vector);
        let p = hand_product(cards.drop_last());
        let f = (last & 0x3f) as nat;
        let q = six_bit_power((cards.len() - 1) as nat);
        assert(p * f <= 63 * q) by (nonlinear_arith)
            requires
                p <= q,
                f <= 63,
        ;
    }
}

/// The product of a hand of at most five cards fits in 32 bits.
pub proof fn lemma_hand_product_fits(cards: Seq<Card>)
    requires
        cards.len() <= 5,
    ensures
        hand_product(cards) <= 992436543,
{
    lemma_hand_product_bound(cards);
    reveal_with_fuel(six_bit_power, 6);
}

/// The prime of a rank.
pub fn prime_of(rank: u32) -> (prime: u32)
    requires
        rank < 13,
    ensures
        prime == rank_prime(rank as int),
{
    if rank == 0 {
        2
    } else if rank == 1 {
        3
    } else if rank == 2 {
        5
    } else if rank == 3 {
        7
    } else if rank == 4 {
        11
    } else if rank == 5 {
        13
    } else if rank == 6 {
        17
    } else if rank == 7 {
        19
    } else if rank == 8 {
        23
    } else if rank == 9 {
        29
    } else if rank == 10 {
        31
    } else if rank == 11 {
        37
    } else {
        41
    }
}

/// The fingerprint of a rank mask: the product of the primes of the ranks
/// whose bit, among the low 13, is set. The product has to fit in 32 bits.
pub fn prime_prod_from_rank(cards: u32) -> (prod: u32)
    requires
        rank_set_product(cards) <= u32::MAX,
    ensures
        prod == rank_set_product(cards),
{
    let mut prod: u32 = 1;
    let mut i: u32 = 0;
    while i < 13
        invariant
            i <= 13,
            prod == mask_product(cards, i as nat),
            rank_set_product(cards) <= u32::MAX,
        decreases 13 - i,
    {
        proof {
            lemma_mask_product_grows(cards, (i + 1) as nat, 13);
        }
        if cards & (1u32 << i) != 0 {
            prod = prod * prime_of(i);
        }
        i += 1;
    }
    prod
}

/// The fingerprint of a rank mask where it fits in 32 bits, `None` where
/// it does not.
pub fn checked_prime_prod_from_rank(cards: u32) -> (prod: Option<u32>)
    ensures
        prod == if rank_set_product(cards) <= u32::MAX {
            Some(rank_set_product(cards) as u32)
        } else {
            None
        },
{
    let mut wide: u64 = 1;
    let mut i: u32 = 0;
    while i < 13
        invariant
            i <= 13,
            wide == mask_product(cards, i as nat),
        decreases 13 - i,
    {
        proof {
            lemma_mask_product_bound(cards, i as nat);
            lemma_mask_product_bound(cards, (i + 1) as nat);
        }
        if cards & (1u32 << i) != 0 {
            wide = wide * (prime_of(i) as u64);
        }
        i += 1;
    }
    if wide <= 0xffff_ffff {
        Some(wide as u32)
    } else {
        None
    }
}

/// The fingerprint of a hand of at most five cards: the product of the
/// primes that the cards hold in their low bits, repeats included.
pub fn prime_prod_from_pbits(cards: Vec<Card>) -> (prod: u32)
    requires
        cards@.len() <= 5,
    ensures
        prod == hand_product(cards@),
{
    let mut prod: u32 = 1;
    let mut i: usize = 0;
    while i < cards.len()
        invariant
            i <= cards@.len() <= 5,
            prod == hand_product(cards@.take(i as int)),
        decreases cards@.len() - i,
    {
        let low: u32 = cards[i] & 0x3f;
        proof {
            let next = cards@.take(i + 1);
            assert(next.drop_last() =~= cards@.take(i as int));
            assert(next.last() == cards@[i as int]);
            lemma_hand_product_fits(next);
        }
        prod = prod * low;
        i += 1;
    }
    proof {
        assert(cards@.take(cards@.len() as int) =~= cards@);
    }
    prod
}

} // verus!
