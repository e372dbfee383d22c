//! Dealing from a deck in which no card lies twice: the cards that are
//! dealt are all different, so every board that is dealt has a strength.
use vstd::prelude::*;
use crate::{drawn, hero_board, left, showdown, taken, villain_board, without_each};
use crate::card::{is_card, Card};
use crate::coverage::lemma_every_board_has_a_strength;

verus! {

/// Whether all of the cards are well formed.
pub open spec fn all_cards(cards: Seq<Card>) -> bool {
    forall|i: int| 0 <= i < cards.len() ==> is_card(#[trigger] cards[i])
}

/// Taking a card out of cards that are all different leaves the others,
/// all different, and not the card.
pub proof fn lemma_remove_value(cards: Seq<Card>, card: Card)
    requires
        cards.no_duplicates(),
    ensures
        cards.remove_value(card).no_duplicates(),
        forall|x: Card| #[trigger]
            cards.remove_value(card).contains(x) <==> cards.contains(x) && x != card,
        cards.remove_value(card).len() == cards.len() - if cards.contains(card) {
            1int
        } else {
            0int
        },
{
    cards.index_of_first_ensures(card);
    let rest = cards.remove_value(card);
    match cards.index_of_first(card) {
        Some(at) => {
            assert(rest == cards.remove(at));
            assert forall|x: Card| #[trigger] rest.contains(x) <==> cards.contains(x) && x
                != card by {
                if rest.contains(x) {
                    let i = choose|i: int| 0 <= i < rest.len() && rest[i] == x;
                    if i < at {
                        assert(cards[i] == x);
                    } else {
                        assert(cards[i + 1] == x);
                    }
                }
                if cards.contains(x) && x != card {
                    let i = choose|i: int| 0 <= i < cards.len() && cards[i] == x;
                    if i < at {
                        assert(rest[i] == x);
                    } else {
                        assert(rest[i - 1] == x);
                    }
                }
            }
            assert forall|i: int, j: int|
                0 <= i < rest.len() && 0 <= j < rest.len() && i != j implies rest[i] != rest[j] by {
                let a = if i < at {
                    i
                } else {
                    i + 1
                };
                let b = if j < at {
                    j
                } else {
                    j + 1
                };
                assert(rest[i] == cards[a] && rest[j] == cards[b]);
            }
        },
        None => {},
    }
}

/// Taking cards out of a deck in which no card lies twice leaves the
/// cards of the deck that were not taken, each once.
pub proof fn lemma_without_each(deck: Seq<Card>, cards: Seq<Card>)
    requires
        deck.no_duplicates(),
    ensures
        without_each(deck, cards).no_duplicates(),
        forall|x: Card| #[trigger]
            without_each(deck, cards).contains(x) <==> deck.contains(x) && !cards.contains(x),
        deck.len() - cards.len() <= without_each(deck, cards).len() <= deck.len(),
    decreases cards.len(),
{
    if cards.len() > 0 {
        let short = cards.drop_last();
        let before = without_each(deck, short);
        lemma_without_each(deck, short);
        lemma_remove_value(before, cards.last());
        let rest = without_each(deck, cards);
        assert forall|x: Card| #[trigger] rest.contains(x) <==> deck.contains(x) && !cards.contains(
            x,
        ) by {
            if cards.contains(x) {
                let i = choose|i: int| 0 <= i < cards.len() && cards[i] == x;
                if i < short.len() {
                    assert(short[i] == x);
                }
            }
            if short.contains(x) {
                let i = choose|i: int| 0 <= i < short.len() && short[i] == x;
                assert(cards[i] == x);
            }
            assert(cards[cards.len() - 1] == cards.last());
        }
    } else {
        assert forall|x: Card| #[trigger] without_each(deck, cards).contains(x) <==> deck.contains(
            x,
        ) && !cards.contains(x) by {}
    }
}

/// A showdown from a deck of well-formed cards in which no card lies
/// twice, with a starting hand of such cards, has a result, wherever
/// seven cards are left to deal once the starting hand is out of the
/// deck.
pub proof fn lemma_showdown_has_a_result(hand: Seq<Card>, deck: Seq<Card>)
    requires
        deck.no_duplicates(),
        hand.no_duplicates(),
        all_cards(deck),
        all_cards(hand),
        without_each(deck, hand).len() >= 7,
    ensures
        showdown(hand, deck) is Ok,
{
    let d0 = without_each(deck, hand);
    lemma_without_each(deck, hand);
    let n = d0.len() as int;
    let d1 = left(d0, 2);
    let d2 = left(d1, 3);
    let d3 = left(d2, 1);
    let opp = drawn(d0, 2);
    let flop = drawn(d1, 3);
    let turn = drawn(d2, 1);
    let river = drawn(d3, 1);
    assert(taken(d0, 2) == 2 && taken(d1, 3) == 3 && taken(d2, 1) == 1 && taken(d3, 1) == 1);
    assert(opp =~= d0.subrange(n - 2, n));
    assert(flop =~= d0.subrange(n - 5, n - 2));
    assert(turn =~= d0.subrange(n - 6, n - 5));
    assert(river =~= d0.subrange(n - 7, n - 6));
    assert forall|i: int| 0 <= i < n implies is_card(#[trigger] d0[i]) && !hand.contains(d0[i]) by {
        assert(d0.contains(d0[i]));
        let at = choose|at: int| 0 <= at < deck.len() && deck[at] == d0[i];
        assert(is_card(deck[at]));
    }
    let hero = hero_board(hand, deck);
    let h = hand.len() as int;
    assert(hero =~= hand + flop + turn + river);
    assert(hero.len() == h + 5);
    assert forall|i: int| 0 <= i < hero.len() implies is_card(#[trigger] hero[i]) && (i < h
        ==> hero[i] == hand[i]) && (i >= h ==> hero[i] == d0[n - 5 + (i - h) - if i - h >= 3 {
        2 * (i - h) - 2
    } else {
        0
    }]) by {
        if i < h {
            assert(is_card(hand[i]));
        } else if i < h + 3 {
            assert(hero[i] == flop[i - h]);
        } else if i == h + 3 {
            assert(hero[i] == turn[0]);
        } else {
            assert(hero[i] == river[0]);
        }
    }
    assert(hero.no_duplicates()) by {
        assert forall|i: int, j: int|
            0 <= i < hero.len() && 0 <= j < hero.len() && i != j implies hero[i] != hero[j] by {
            if i < h && j >= h {
                assert(hand.contains(hand[i]));
            }
            if j < h && i >= h {
                assert(hand.contains(hand[j]));
            }
        }
    }
    lemma_every_board_has_a_strength(hero);

    let villain = villain_board(hand, deck);
    assert(villain =~= opp + flop + turn + river);
    assert(villain.len() == 7);
    assert forall|i: int| 0 <= i < 7 implies is_card(#[trigger] villain[i]) && villain[i] == d0[if i
        < 2 {
        n - 2 + i
    } else if i < 5 {
        n - 5 + (i - 2)
    } else if i == 5 {
        n - 6
    } else {
        n - 7
    }] by {
        if i < 2 {
            assert(villain[i] == opp[i]);
        } else if i < 5 {
            assert(villain[i] == flop[i - 2]);
        } else if i == 5 {
            assert(villain[i] == turn[0]);
        } else {
            assert(villain[i] == river[0]);
        }
    }
    lemma_every_board_has_a_strength(villain);
}

} // verus!
