//! Ranking of poker hands by prime-product lookup: the packed card, the
//! two lookup tables, the evaluation of hands and boards, and a deck to
//! deal a showdown from.
use vstd::prelude::*;
use rand::thread_rng;
use rand::seq::SliceRandom;
use crate::card::{is_suit, lemma_card_fields, pack, pack_card, Card};
use crate::dealing::{all_cards, lemma_showdown_has_a_result, lemma_without_each};
use crate::evaluate::{board_strength, evaluate_board, EvalError};
use crate::lookup::LookupTables;

pub mod bits;
pub mod card;
pub mod census;
pub mod combinations;
pub mod coverage;
pub mod dealing;
pub mod entries;
pub mod evaluate;
pub mod factors;
pub mod lookup;
pub mod order;
pub mod primes;
pub mod ranking;
pub mod shapes;
pub mod strengths;

verus! {

/// The suit of the cards at the places `13 * block .. 13 * block + 13` of
/// a fresh deck: spades, clubs, hearts, diamonds.
pub open spec fn suit_of_block(block: int) -> u32 {
    if block == 0 {
        1
    } else if block == 1 {
        8
    } else if block == 2 {
        2
    } else {
        4
    }
}

/// The fresh deck: suit by suit, each from the deuce up to the ace.
pub open spec fn full_deck() -> Seq<Card> {
    Seq::new(52, |i: int| pack_card((i % 13) as u32, suit_of_block(i / 13)))
}

/// The deck without the first occurrence of each of the cards.
pub open spec fn without_each(deck: Seq<Card>, cards: Seq<Card>) -> Seq<Card>
    decreases cards.len(),
{
    if cards.len() == 0 {
        deck
    } else {
        without_each(deck, cards.drop_last()).remove_value(cards.last())
    }
}

/// How many cards a draw of `n` takes from a deck.
pub open spec fn taken(deck: Seq<Card>, n: nat) -> nat {
    if n < deck.len() {
        n
    } else {
        deck.len()
    }
}

/// The cards that a draw of `n` takes: the last of the deck, in their
/// order.
pub open spec fn drawn(deck: Seq<Card>, n: nat) -> Seq<Card> {
    deck.subrange(deck.len() - taken(deck, n), deck.len() as int)
}

/// The cards that a draw of `n` leaves.
pub open spec fn left(deck: Seq<Card>, n: nat) -> Seq<Card> {
    deck.take(deck.len() - taken(deck, n))
}

/// The result of comparing two strengths: 1 where the first is the larger
/// number, -1 where the second is, 0 where they are equal.
pub open spec fn outcome(hero_score: u32, villain_score: u32) -> i32 {
    if hero_score > villain_score {
        1i32
    } else if villain_score > hero_score {
        -1i32
    } else {
        0i32
    }
}

/// The seven cards of the hero in a showdown from a deck: the starting
/// hand, then the flop, the turn and the river. The starting hand leaves
/// the deck first, then two cards are drawn for the opponent.
pub open spec fn hero_board(hand: Seq<Card>, deck: Seq<Card>) -> Seq<Card> {
    let d1 = left(without_each(deck, hand), 2);
    let d2 = left(d1, 3);
    let d3 = left(d2, 1);
    hand + drawn(d1, 3) + drawn(d2, 1) + drawn(d3, 1)
}

/// The seven cards of the opponent in a showdown from a deck.
pub open spec fn villain_board(hand: Seq<Card>, deck: Seq<Card>) -> Seq<Card> {
    let d0 = without_each(deck, hand);
    let d1 = left(d0, 2);
    let d2 = left(d1, 3);
    let d3 = left(d2, 1);
    drawn(d0, 2) + drawn(d1, 3) + drawn(d2, 1) + drawn(d3, 1)
}

/// What is left of a deck after a showdown.
pub open spec fn after_showdown(hand: Seq<Card>, deck: Seq<Card>) -> Seq<Card> {
    left(left(left(left(without_each(deck, hand), 2), 3), 1), 1)
}

/// The result of a showdown from a deck.
pub open spec fn showdown(hand: Seq<Card>, deck: Seq<Card>) -> Result<i32, EvalError> {
    match board_strength(hero_board(hand, deck)) {
        Err(error) => Err(error),
        Ok(hero_score) => match board_strength(villain_board(hand, deck)) {
            Err(error) => Err(error),
            Ok(villain_score) => Ok(outcome(hero_score, villain_score)),
        },
    }
}

/// The cards of the fresh deck are well formed and differ from each
/// other.
pub proof fn lemma_full_deck_distinct()
    ensures
        full_deck().no_duplicates(),
        forall|i: int| 0 <= i < 52 ==> crate::card::is_card(#[trigger] full_deck()[i]),
{
    assert forall|i: int| 0 <= i < 52 implies crate::card::is_card(#[trigger] full_deck()[i])
        && crate::card::card_rank(full_deck()[i]) == i % 13 && crate::card::card_suit(
        full_deck()[i],
    ) == suit_of_block(i / 13) by {
        lemma_card_fields((i % 13) as u32, suit_of_block(i / 13));
    }
    assert forall|i: int, j: int| 0 <= i < 52 && 0 <= j < 52 && i != j implies full_deck()[i]
        != full_deck()[j] by {
        assert(crate::card::card_rank(full_deck()[i]) == i % 13);
        assert(crate::card::card_rank(full_deck()[j]) == j % 13);
        assert(crate::card::card_suit(full_deck()[i]) == suit_of_block(i / 13));
        assert(crate::card::card_suit(full_deck()[j]) == suit_of_block(j / 13));
    }
}

/// The suit of a block of thirteen cards of a fresh deck.
fn suit_bit(block: usize) -> (suit: u32)
    requires
        block < 4,
    ensures
        suit == suit_of_block(block as int),
        is_suit(suit),
{
    if block == 0 {
        1
    } else if block == 1 {
        8
    } else if block == 2 {
        2
    } else {
        4
    }
}

/// The 52 cards in their fresh order.
fn new_deck() -> (deck: Vec<Card>)
    ensures
        deck@ == full_deck(),
{
    let mut deck: Vec<Card> = Vec::with_capacity(52);
    let mut s: usize = 0;
    while s < 4
        invariant
            s <= 4,
            deck@.len() == 13 * s,
            forall|i: int| 0 <= i < deck@.len() ==> deck@[i] == full_deck()[i],
        decreases 4 - s,
    {
        let suit = suit_bit(s);
        let mut r: u32 = 0;
        while r < 13
            invariant
                s < 4,
                r <= 13,
                suit == suit_of_block(s as int),
                is_suit(suit),
                deck@.len() == 13 * s + r,
                forall|i: int| 0 <= i < deck@.len() ==> deck@[i] == full_deck()[i],
            decreases 13 - r,
        {
            let card = pack(r, suit);
            deck.push(card);
            r += 1;
        }
        s += 1;
    }
    proof {
        assert(deck@ =~= full_deck());
    }
    deck
}

/// Calls `SliceRandom::shuffle` of rand on the cards, with the generator
/// that `thread_rng` of rand hands out. The contract claims what holds of
/// every outcome: the cards are the same, each as often as before, in
/// some order. (`thread_rng` stops the process where the system gives it
/// no seed.)
#[verifier::external_body]
fn shuffle(cards: &mut Vec<Card>)
    ensures
        final(cards)@.to_multiset() == old(cards)@.to_multiset(),
{
    cards.shuffle(&mut thread_rng());
}

/// Takes the first occurrence of a card out of the cards, if there is
/// one, and says whether there was.
fn remove_card(cards: &mut Vec<Card>, card: Card) -> (found: bool)
    ensures
        found == old(cards)@.contains(card),
        final(cards)@ == old(cards)@.remove_value(card),
{
    let mut idx: usize = 0;
    while idx < cards.len()
        invariant
            idx <= cards@.len(),
            cards@ == old(cards)@,
            forall|j: int| 0 <= j < idx ==> cards@[j] != card,
        decreases cards@.len() - idx,
    {
        if cards[idx] == card {
            proof {
                cards@.index_of_first_ensures(card);
                assert(cards@.contains(card));
            }
            cards.remove(idx);
            return true;
        }
        idx += 1;
    }
    proof {
        cards@.index_of_first_ensures(card);
    }
    false
}

/// Puts the cards of `more` behind those of `cards`.
fn append_cards(cards: &mut Vec<Card>, more: &Vec<Card>)
    ensures
        final(cards)@ == old(cards)@ + more@,
{
    let mut i: usize = 0;
    while i < more.len()
        invariant
            i <= more@.len(),
            cards@ == old(cards)@ + more@.take(i as int),
        decreases more@.len() - i,
    {
        cards.push(more[i]);
        proof {
            assert(more@.take(i + 1) =~= more@.take(i as int).push(more@[i as int]));
            assert(cards@ =~= old(cards)@ + more@.take(i + 1));
        }
        i += 1;
    }
    proof {
        assert(more@.take(more@.len() as int) =~= more@);
    }
}

/// A deck of cards; cards are drawn from its end.
pub struct Deck {
    /// The cards, the next to be drawn last.
    pub cards: Vec<Card>,
}

impl Deck {
    /// No card is in the deck twice.
    pub open spec fn wf(&self) -> bool {
        self.cards@.no_duplicates()
    }

    /// A deck of the 52 cards in a random order.
    pub fn new() -> (deck: Deck)
        ensures
            deck.cards@.to_multiset() == full_deck().to_multiset(),
            deck.cards@.len() == 52,
            deck.wf(),
            all_cards(deck.cards@),
    {
        let mut cards = new_deck();
        shuffle(&mut cards);
        proof {
            lemma_full_deck_distinct();
            full_deck().lemma_multiset_has_no_duplicates();
            cards@.lemma_multiset_has_no_duplicates_conv();
            vstd::seq_lib::to_multiset_len(cards@);
            vstd::seq_lib::to_multiset_len(full_deck());
            assert forall|i: int| 0 <= i < cards@.len() implies crate::card::is_card(
                #[trigger] cards@[i],
            ) by {
                vstd::seq_lib::to_multiset_contains(cards@, cards@[i]);
                vstd::seq_lib::to_multiset_contains(full_deck(), cards@[i]);
                assert(cards@.contains(cards@[i]));
                let at = choose|at: int| 0 <= at < 52 && full_deck()[at] == cards@[i];
                assert(crate::card::is_card(full_deck()[at]));
            }
        }
        Deck { cards }
    }

    /// The 52 cards in their fresh order, but with the given cards moved
    /// to the end, where they are drawn first, the last of them first.
    pub fn new_from_cards(cards: Vec<Card>) -> (deck: Deck)
        ensures
            deck.cards@ == without_each(full_deck(), cards@) + cards@,
            cards@.no_duplicates() ==> deck.wf(),
    {
        proof {
            lemma_full_deck_distinct();
            lemma_without_each(full_deck(), cards@);
            if cards@.no_duplicates() {
                let rest = without_each(full_deck(), cards@);
                assert forall|i: int, j: int| 0 <= i < rest.len() && 0 <= j < cards@.len() implies rest[i]
                    != cards@[j] by {
                    assert(rest.contains(rest[i]));
                    assert(cards@.contains(cards@[j]));
                }
                vstd::seq_lib::lemma_no_dup_in_concat(rest, cards@);
            }
        }
        let mut deck = new_deck();
        let mut i: usize = 0;
        while i < cards.len()
            invariant
                i <= cards@.len(),
                deck@ == without_each(full_deck(), cards@.take(i as int)),
            decreases cards@.len() - i,
        {
            proof {
                assert(cards@.take(i + 1).drop_last() =~= cards@.take(i as int));
            }
            // remove card from deck
            let _ = remove_card(&mut deck, cards[i]);
            i += 1;
        }
        proof {
            assert(cards@.take(cards@.len() as int) =~= cards@);
        }
        // add cards back to deck to be in front
        append_cards(&mut deck, &cards);
        Deck { cards: deck }
    }

    /// Draws up to `n` cards from the end of the deck, in the order in
    /// which they lie there.
    pub fn draw(&mut self, n: usize) -> (hand: Vec<Card>)
        ensures
            hand@ == drawn(old(self).cards@, n as nat),
            final(self).cards@ == left(old(self).cards@, n as nat),
            old(self).wf() ==> final(self).wf(),
    {
        let take = if n < self.cards.len() {
            n
        } else {
            self.cards.len()
        };
        let at = self.cards.len() - take;
        self.cards.split_off(at)
    }

    /// Takes the first occurrence of a card out of the deck, if there is
    /// one, and says whether there was.
    pub fn remove(&mut self, card: Card) -> (found: bool)
        ensures
            found == old(self).cards@.contains(card),
            final(self).cards@ == old(self).cards@.remove_value(card),
            old(self).wf() ==> final(self).wf(),
    {
        proof {
            self.cards@.index_of_first_ensures(card);
        }
        remove_card(&mut self.cards, card)
    }
}

/// A showdown from a fresh deck in a random order.
pub fn simulate_hand(tables: &LookupTables, starting_hand: Vec<Card>) -> (result: Result<
    i32,
    EvalError,
>)
    ensures
        exists|deck: Seq<Card>|
            deck.to_multiset() == full_deck().to_multiset() && result == showdown(
                starting_hand@,
                deck,
            ),
        starting_hand@.len() <= 45 && starting_hand@.no_duplicates() && all_cards(starting_hand@)
            ==> result is Ok,
{
    let mut deck = Deck::new();
    let ghost before = deck.cards@;
    proof {
        lemma_without_each(before, starting_hand@);
    }
    let result = simulate_hand_with_deck(tables, starting_hand, &mut deck);
    proof {
        assert(before.to_multiset() == full_deck().to_multiset() && result == showdown(
            starting_hand@,
            before,
        ));
    }
    result
}

/// A showdown from a deck: the starting hand leaves the deck, then two
/// cards are drawn for the opponent, three for the flop, one for the turn
/// and one for the river. Both hands are evaluated with the five board
/// cards, and the two strengths are compared.
pub fn simulate_hand_with_deck(
    tables: &LookupTables,
    starting_hand: Vec<Card>,
    deck: &mut Deck,
) -> (result: Result<i32, EvalError>)
    ensures
        result == showdown(starting_hand@, old(deck).cards@),
        final(deck).cards@ == after_showdown(starting_hand@, old(deck).cards@),
        old(deck).wf() && all_cards(old(deck).cards@) && starting_hand@.no_duplicates()
            && all_cards(starting_hand@) && without_each(old(deck).cards@, starting_hand@).len()
            >= 7 ==> result is Ok,
{
    proof {
        if old(deck).wf() && all_cards(old(deck).cards@) && starting_hand@.no_duplicates()
            && all_cards(starting_hand@) && without_each(old(deck).cards@, starting_hand@).len()
            >= 7 {
            lemma_showdown_has_a_result(starting_hand@, old(deck).cards@);
        }
    }
    let mut i: usize = 0;
    while i < starting_hand.len()
        invariant
            i <= starting_hand@.len(),
            deck.cards@ == without_each(old(deck).cards@, starting_hand@.take(i as int)),
        decreases starting_hand@.len() - i,
    {
        proof {
            assert(starting_hand@.take(i + 1).drop_last() =~= starting_hand@.take(i as int));
        }
        let _ = deck.remove(starting_hand[i]);
        i += 1;
    }
    proof {
        assert(starting_hand@.take(starting_hand@.len() as int) =~= starting_hand@);
    }

    let opponent_start = deck.draw(2);
    let flop = deck.draw(3);
    let turn = deck.draw(1);
    let river = deck.draw(1);

    let mut hero_cards: Vec<Card> = Vec::new();
    append_cards(&mut hero_cards, &starting_hand);
    append_cards(&mut hero_cards, &flop);
    append_cards(&mut hero_cards, &turn);
    append_cards(&mut hero_cards, &river);

    let mut villain_cards: Vec<Card> = Vec::new();
    append_cards(&mut villain_cards, &opponent_start);
    append_cards(&mut villain_cards, &flop);
    append_cards(&mut villain_cards, &turn);
    append_cards(&mut villain_cards, &river);

    proof {
        assert(hero_cards@ =~= hero_board(starting_hand@, old(deck).cards@));
        assert(villain_cards@ =~= villain_board(starting_hand@, old(deck).cards@));
    }

    let hero_score = match evaluate_board(tables, hero_cards) {
        Ok(score) => score,
        Err(error) => {
            return Err(error);
        },
    };
    let villain_score = match evaluate_board(tables, villain_cards) {
        Ok(score) => score,
        Err(error) => {
            return Err(error);
        },
    };

    if hero_score > villain_score {
        Ok(1)
    } else if villain_score > hero_score {
        Ok(-1)
    } else {
        Ok(0)
    }
}

} // verus!
