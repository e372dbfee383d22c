//! The hands of the six categories, told apart by their keys: no two
//! hands that the unsuited table enumerates have the same fingerprint.
use vstd::prelude::*;
use crate::card::{mask_product, rank_factor, rank_prime, rank_set_product};
use crate::combinations::{
    combinations_of, lemma_combinations_are_picks, lemma_combinations_distinct,
    lemma_combinations_drawn,
};
use crate::coverage::{descending, fits, lemma_ranks_down_holds, mask_of, product5};
use crate::factors::lemma_sorted_product_injective;
use crate::lookup::{
    category_keys, is_straight_key, lead_keys, leads_keys, mask_key, mask_keys, straight_masks,
};
use crate::primes::lemma_five_ranks_fit;
use crate::shapes::{
    all_ranks, candidates, kick_size, lead_size, lemma_five_product, ranks_down, ranks_product,
    shape, shape_key, Category,
};

verus! {

/// The leading ranks and the kickers of a hand, by name; a place that the
/// category does not use holds 0.
pub struct Entry {
    pub cat: Category,
    pub lead0: u32,
    pub lead1: u32,
    pub kick0: u32,
    pub kick1: u32,
    pub kick2: u32,
    pub kick3: u32,
}

/// The hand of a category with the given leading ranks and kickers.
pub open spec fn entry_of(cat: Category, lead: Seq<u32>, kick: Seq<u32>) -> Entry {
    Entry {
        cat,
        lead0: lead[0],
        lead1: if lead_size(cat) > 1 {
            lead[1]
        } else {
            0
        },
        kick0: kick[0],
        kick1: if kick_size(cat) > 1 {
            kick[1]
        } else {
            0
        },
        kick2: if kick_size(cat) > 2 {
            kick[2]
        } else {
            0
        },
        kick3: if kick_size(cat) > 3 {
            kick[3]
        } else {
            0
        },
    }
}

/// The five ranks of a hand from the highest down.
pub open spec fn canon(e: Entry) -> (u32, u32, u32, u32, u32) {
    let r = e.lead0;
    match e.cat {
        Category::Quads => if e.kick0 > r {
            (e.kick0, r, r, r, r)
        } else {
            (r, r, r, r, e.kick0)
        },
        Category::FullHouse => if e.kick0 > r {
            (e.kick0, e.kick0, r, r, r)
        } else {
            (r, r, r, e.kick0, e.kick0)
        },
        Category::Trips => if r > e.kick0 {
            (r, r, r, e.kick0, e.kick1)
        } else if r > e.kick1 {
            (e.kick0, r, r, r, e.kick1)
        } else {
            (e.kick0, e.kick1, r, r, r)
        },
        Category::TwoPair => if e.kick0 > r {
            (e.kick0, r, r, e.lead1, e.lead1)
        } else if e.kick0 > e.lead1 {
            (r, r, e.kick0, e.lead1, e.lead1)
        } else {
            (r, r, e.lead1, e.lead1, e.kick0)
        },
        Category::Pair => if r > e.kick0 {
            (r, r, e.kick0, e.kick1, e.kick2)
        } else if r > e.kick1 {
            (e.kick0, r, r, e.kick1, e.kick2)
        } else if r > e.kick2 {
            (e.kick0, e.kick1, r, r, e.kick2)
        } else {
            (e.kick0, e.kick1, e.kick2, r, r)
        },
        Category::HighCard => (r, e.kick0, e.kick1, e.kick2, e.kick3),
    }
}

/// The hand that five descending ranks make.
pub open spec fn classify(c: (u32, u32, u32, u32, u32)) -> Entry {
    if c.1 == c.2 && c.2 == c.3 && (c.0 == c.1 || c.3 == c.4) {
        Entry {
            cat: Category::Quads,
            lead0: c.1,
            lead1: 0,
            kick0: if c.0 == c.1 {
                c.4
            } else {
                c.0
            },
            kick1: 0,
            kick2: 0,
            kick3: 0,
        }
    } else if c.0 == c.1 && c.3 == c.4 && (c.1 == c.2 || c.2 == c.3) {
        Entry {
            cat: Category::FullHouse,
            lead0: c.2,
            lead1: 0,
            kick0: if c.0 == c.2 {
                c.4
            } else {
                c.0
            },
            kick1: 0,
            kick2: 0,
            kick3: 0,
        }
    } else if (c.0 == c.1 && c.1 == c.2) || (c.1 == c.2 && c.2 == c.3) || (c.2 == c.3 && c.3
        == c.4) {
        Entry {
            cat: Category::Trips,
            lead0: c.2,
            lead1: 0,
            kick0: if c.0 == c.2 {
                c.3
            } else {
                c.0
            },
            kick1: if c.4 == c.2 {
                c.1
            } else {
                c.4
            },
            kick2: 0,
            kick3: 0,
        }
    } else if (c.0 == c.1 && c.2 == c.3) || (c.0 == c.1 && c.3 == c.4) || (c.1 == c.2 && c.3
        == c.4) {
        Entry {
            cat: Category::TwoPair,
            lead0: c.1,
            lead1: c.3,
            kick0: if c.0 != c.1 {
                c.0
            } else if c.2 != c.3 {
                c.2
            } else {
                c.4
            },
            kick1: 0,
            kick2: 0,
            kick3: 0,
        }
    } else if c.0 == c.1 {
        Entry {
            cat: Category::Pair,
            lead0: c.0,
            lead1: 0,
            kick0: c.2,
            kick1: c.3,
            kick2: c.4,
            kick3: 0,
        }
    } else if c.1 == c.2 {
        Entry {
            cat: Category::Pair,
            lead0: c.1,
            lead1: 0,
            kick0: c.0,
            kick1: c.3,
            kick2: c.4,
            kick3: 0,
        }
    } else if c.2 == c.3 {
        Entry {
            cat: Category::Pair,
            lead0: c.2,
            lead1: 0,
            kick0: c.0,
            kick1: c.1,
            kick2: c.4,
            kick3: 0,
        }
    } else if c.3 == c.4 {
        Entry {
            cat: Category::Pair,
            lead0: c.3,
            lead1: 0,
            kick0: c.0,
            kick1: c.1,
            kick2: c.2,
            kick3: 0,
        }
    } else {
        Entry {
            cat: Category::HighCard,
            lead0: c.0,
            lead1: 0,
            kick0: c.1,
            kick1: c.2,
            kick2: c.3,
            kick3: c.4,
        }
    }
}

/// What the ranks of a hand of a category are like, by name.
pub proof fn lemma_fits_by_name(cat: Category, lead: Seq<u32>, kick: Seq<u32>)
    requires
        fits(cat, lead, kick),
    ensures
        ({
            let e = entry_of(cat, lead, kick);
            &&& e.lead0 < 13 && e.lead1 < 13 && e.kick0 < 13 && e.kick1 < 13 && e.kick2 < 13
                && e.kick3 < 13
            &&& e.kick0 != e.lead0
            &&& cat == Category::Trips ==> e.kick0 > e.kick1 && e.kick1 != e.lead0
            &&& cat == Category::TwoPair ==> e.lead0 > e.lead1 && e.kick0 != e.lead1
            &&& cat == Category::Pair ==> e.kick0 > e.kick1 > e.kick2 && e.kick1 != e.lead0
                && e.kick2 != e.lead0
            &&& cat == Category::HighCard ==> e.lead0 > e.kick0 > e.kick1 > e.kick2 > e.kick3
        }),
{
    assert(lead[0] < 13);
    assert(kick[0] < 13);
    assert(!lead.contains(kick[0]));
    assert(lead[0] != kick[0]);
    if lead_size(cat) > 1 {
        assert(lead[1] < 13);
        assert(lead[0] > lead[1]);
        assert(lead[1] != kick[0]);
    }
    if kick_size(cat) > 1 {
        assert(kick[1] < 13);
        assert(kick[0] > kick[1]);
        assert(!lead.contains(kick[1]));
        assert(lead[0] != kick[1]);
    }
    if kick_size(cat) > 2 {
        assert(kick[2] < 13);
        assert(kick[1] > kick[2]);
        assert(!lead.contains(kick[2]));
        assert(lead[0] != kick[2]);
    }
    if kick_size(cat) > 3 {
        assert(kick[3] < 13);
        assert(kick[2] > kick[3]);
    }
    if cat == Category::HighCard {
        assert(kick[0] < lead[0]);
    }
}

/// The five ranks of a hand from the highest down descend, have the
/// product of the hand, and tell the hand.
pub proof fn lemma_canon(cat: Category, lead: Seq<u32>, kick: Seq<u32>)
    requires
        fits(cat, lead, kick),
    ensures
        ({
            let c = canon(entry_of(cat, lead, kick));
            &&& 13 > c.0 >= c.1 >= c.2 >= c.3 >= c.4
            &&& product5(c.0, c.1, c.2, c.3, c.4) == ranks_product(shape(cat, lead, kick))
            &&& classify(c) == entry_of(cat, lead, kick)
        }),
{
    lemma_fits_by_name(cat, lead, kick);
    let e = entry_of(cat, lead, kick);
    let c = canon(e);
    let made = shape(cat, lead, kick);
    lemma_five_product(made[0], made[1], made[2], made[3], made[4]);
    assert(made =~= seq![made[0], made[1], made[2], made[3], made[4]]);
    assert(product5(c.0, c.1, c.2, c.3, c.4) == ranks_product(made)) by {
        reveal(product5);
        let f0 = rank_prime(made[0] as int);
        let f1 = rank_prime(made[1] as int);
        let f2 = rank_prime(made[2] as int);
        let f3 = rank_prime(made[3] as int);
        let f4 = rank_prime(made[4] as int);
        assert(f0 * f1 * f2 * f3 * f4 == f4 * f0 * f1 * f2 * f3) by (nonlinear_arith);
        assert(f0 * f1 * f2 * f3 * f4 == f3 * f4 * f0 * f1 * f2) by (nonlinear_arith);
        assert(f0 * f1 * f2 * f3 * f4 == f3 * f0 * f1 * f2 * f4) by (nonlinear_arith);
        assert(f0 * f1 * f2 * f3 * f4 == f3 * f4 * f0 * f1 * f2) by (nonlinear_arith);
        assert(f0 * f1 * f2 * f3 * f4 == f4 * f0 * f1 * f2 * f3) by (nonlinear_arith);
        assert(f0 * f1 * f2 * f3 * f4 == f0 * f1 * f4 * f2 * f3) by (nonlinear_arith);
        assert(f0 * f1 * f2 * f3 * f4 == f2 * f0 * f1 * f3 * f4) by (nonlinear_arith);
        assert(f0 * f1 * f2 * f3 * f4 == f2 * f3 * f0 * f1 * f4) by (nonlinear_arith);
        assert(f0 * f1 * f2 * f3 * f4 == f2 * f3 * f4 * f0 * f1) by (nonlinear_arith);
    }
}

/// The product of the primes of five ranks fits in 32 bits.
pub proof fn lemma_product5_fits(a: u32, b: u32, c: u32, d: u32, e: u32)
    ensures
        product5(a, b, c, d, e) <= 115856201,
{
    reveal(product5);
    let f0 = rank_prime(a as int);
    let f1 = rank_prime(b as int);
    let f2 = rank_prime(c as int);
    let f3 = rank_prime(d as int);
    let f4 = rank_prime(e as int);
    assert(f0 * f1 <= 1681) by (nonlinear_arith)
        requires
            f0 <= 41,
            f1 <= 41,
    ;
    assert(f0 * f1 * f2 <= 68921) by (nonlinear_arith)
        requires
            f0 * f1 <= 1681,
            f2 <= 41,
    ;
    assert(f0 * f1 * f2 * f3 <= 2825761) by (nonlinear_arith)
        requires
            f0 * f1 * f2 <= 68921,
            f3 <= 41,
    ;
    assert(f0 * f1 * f2 * f3 * f4 <= 115856201) by (nonlinear_arith)
        requires
            f0 * f1 * f2 * f3 <= 2825761,
            f4 <= 41,
    ;
}

/// Five descending ranks with the same product are the same ranks.
pub proof fn lemma_product5_injective(
    c: (u32, u32, u32, u32, u32),
    d: (u32, u32, u32, u32, u32),
)
    requires
        13 > c.0 >= c.1 >= c.2 >= c.3 >= c.4,
        13 > d.0 >= d.1 >= d.2 >= d.3 >= d.4,
        product5(c.0, c.1, c.2, c.3, c.4) == product5(d.0, d.1, d.2, d.3, d.4),
    ensures
        c == d,
{
    let a = seq![c.0, c.1, c.2, c.3, c.4];
    let b = seq![d.0, d.1, d.2, d.3, d.4];
    reveal(product5);
    lemma_five_product(c.0, c.1, c.2, c.3, c.4);
    lemma_five_product(d.0, d.1, d.2, d.3, d.4);
    lemma_sorted_product_injective(a, b);
    assert(a[0] == b[0] && a[1] == b[1] && a[2] == b[2] && a[3] == b[3] && a[4] == b[4]);
}

/// No two hands of the six categories have the same key.
pub proof fn lemma_keys_tell_hands(
    cat1: Category,
    lead1: Seq<u32>,
    kick1: Seq<u32>,
    cat2: Category,
    lead2: Seq<u32>,
    kick2: Seq<u32>,
)
    requires
        fits(cat1, lead1, kick1),
        fits(cat2, lead2, kick2),
        shape_key(cat1, lead1, kick1) == shape_key(cat2, lead2, kick2),
    ensures
        cat1 == cat2,
        lead1 == lead2,
        kick1 == kick2,
{
    lemma_canon(cat1, lead1, kick1);
    lemma_canon(cat2, lead2, kick2);
    let c = canon(entry_of(cat1, lead1, kick1));
    let d = canon(entry_of(cat2, lead2, kick2));
    lemma_product5_fits(c.0, c.1, c.2, c.3, c.4);
    lemma_product5_fits(d.0, d.1, d.2, d.3, d.4);
    lemma_product5_injective(c, d);
    assert(entry_of(cat1, lead1, kick1) == entry_of(cat2, lead2, kick2));
    assert(lead1 =~= lead2);
    assert(kick1 =~= kick2);
}

/// A selection from descending items descends.
pub proof fn lemma_selection_descends(items: Seq<u32>, k: nat, at: int)
    requires
        descending(items),
        0 <= at < combinations_of(items, k).len(),
    ensures
        descending(combinations_of(items, k)[at]),
        combinations_of(items, k)[at].len() == k,
{
    let places = lemma_combinations_are_picks(items, k, at);
    let row = combinations_of(items, k)[at];
    assert forall|i: int, j: int| 0 <= i < j < row.len() implies row[i] > row[j] by {
        assert(0 <= places[i] < items.len());
        assert(0 <= places[j] < items.len());
        assert(places[i] < places[j]);
    }
}

/// Descending ranks are all different.
pub proof fn lemma_descending_distinct(ranks: Seq<u32>)
    requires
        descending(ranks),
    ensures
        ranks.no_duplicates(),
{
    assert forall|i: int, j: int|
        0 <= i < ranks.len() && 0 <= j < ranks.len() && i != j implies ranks[i] != ranks[j] by {
        if i < j {
            assert(ranks[i] > ranks[j]);
        } else {
            assert(ranks[j] > ranks[i]);
        }
    }
}

/// Whether ranks can lead a hand of the category.
pub open spec fn leads_well(cat: Category, lead: Seq<u32>) -> bool {
    &&& lead.len() == lead_size(cat)
    &&& all_ranks(lead)
    &&& descending(lead)
}

/// The choices of leading ranks of a category.
pub open spec fn leads_of(cat: Category) -> Seq<Seq<u32>> {
    combinations_of(ranks_down(13, Seq::empty()), lead_size(cat))
}

/// The choices of kickers under leading ranks.
pub open spec fn kicks_of(cat: Category, lead: Seq<u32>) -> Seq<Seq<u32>> {
    combinations_of(candidates(cat, lead), kick_size(cat))
}

/// Each choice of leading ranks can lead, and no choice comes twice.
pub proof fn lemma_leads_lead_well(cat: Category)
    ensures
        leads_of(cat).no_duplicates(),
        forall|at: int| 0 <= at < leads_of(cat).len() ==> leads_well(cat, #[trigger] leads_of(cat)[at]),
{
    let all = ranks_down(13, Seq::empty());
    lemma_ranks_down_holds(13, Seq::empty());
    lemma_descending_distinct(all);
    lemma_combinations_distinct(all, lead_size(cat));
    lemma_combinations_drawn(all, lead_size(cat));
    assert forall|at: int| 0 <= at < leads_of(cat).len() implies leads_well(
        cat,
        #[trigger] leads_of(cat)[at],
    ) by {
        let lead = leads_of(cat)[at];
        lemma_selection_descends(all, lead_size(cat), at);
        assert forall|j: int| 0 <= j < lead.len() implies #[trigger] lead[j] < 13 by {
            assert(all.contains(lead[j]));
        }
    }
}

/// Each choice of kickers under leading ranks makes a hand with them, and
/// no choice comes twice.
pub proof fn lemma_kicks_fit(cat: Category, lead: Seq<u32>)
    requires
        leads_well(cat, lead),
    ensures
        kicks_of(cat, lead).no_duplicates(),
        forall|at: int|
            0 <= at < kicks_of(cat, lead).len() ==> fits(cat, lead, #[trigger] kicks_of(cat, lead)[at]),
{
    let pool = candidates(cat, lead);
    if cat == Category::HighCard {
        assert(lead[0] < 13);
        lemma_ranks_down_holds(lead[0] as nat, Seq::empty());
    } else {
        lemma_ranks_down_holds(13, lead);
    }
    lemma_descending_distinct(pool);
    lemma_combinations_distinct(pool, kick_size(cat));
    lemma_combinations_drawn(pool, kick_size(cat));
    assert forall|at: int| 0 <= at < kicks_of(cat, lead).len() implies fits(
        cat,
        lead,
        #[trigger] kicks_of(cat, lead)[at],
    ) by {
        let kick = kicks_of(cat, lead)[at];
        lemma_selection_descends(pool, kick_size(cat), at);
        assert forall|j: int| 0 <= j < kick.len() implies #[trigger] kick[j] < 13 && !lead.contains(
            kick[j],
        ) && (cat == Category::HighCard ==> kick[j] < lead[0]) by {
            assert(pool.contains(kick[j]));
            if cat == Category::HighCard {
                if lead.contains(kick[j]) {
                    let i = choose|i: int| 0 <= i < lead.len() && lead[i] == kick[j];
                    assert(i == 0);
                }
            }
        }
    }
}

/// Where a key under leading ranks comes from: the choice of kickers
/// whose hand has the key.
pub proof fn lemma_lead_key_origin(cat: Category, lead: Seq<u32>, kicks: Seq<Seq<u32>>, at: int) -> (ki:
    int)
    requires
        0 <= at < lead_keys(cat, lead, kicks).len(),
    ensures
        0 <= ki < kicks.len(),
        lead_keys(cat, lead, kicks)[at] == shape_key(cat, lead, kicks[ki]),
        cat == Category::HighCard ==> !is_straight_key(lead_keys(cat, lead, kicks)[at]),
    decreases kicks.len(),
{
    let before = lead_keys(cat, lead, kicks.drop_last());
    if at < before.len() {
        let ki = lemma_lead_key_origin(cat, lead, kicks.drop_last(), at);
        assert(kicks.drop_last()[ki] == kicks[ki]);
        ki
    } else {
        kicks.len() - 1
    }
}

/// Where a key of a run of leading groups comes from: the leading ranks
/// and the choice of kickers whose hand has the key.
pub proof fn lemma_leads_key_origin(cat: Category, leads: Seq<Seq<u32>>, at: int) -> (from: (
    int,
    int,
))
    requires
        0 <= at < leads_keys(cat, leads).len(),
    ensures
        0 <= from.0 < leads.len(),
        0 <= from.1 < kicks_of(cat, leads[from.0]).len(),
        leads_keys(cat, leads)[at] == shape_key(
            cat,
            leads[from.0],
            kicks_of(cat, leads[from.0])[from.1],
        ),
        cat == Category::HighCard ==> !is_straight_key(leads_keys(cat, leads)[at]),
    decreases leads.len(),
{
    let before = leads_keys(cat, leads.drop_last());
    let last = leads.last();
    if at < before.len() {
        let from = lemma_leads_key_origin(cat, leads.drop_last(), at);
        assert(leads.drop_last()[from.0] == leads[from.0]);
        from
    } else {
        let ki = lemma_lead_key_origin(cat, last, kicks_of(cat, last), at - before.len());
        (leads.len() - 1, ki)
    }
}

/// The hand that a key of a category comes from.
pub proof fn lemma_category_key_origin(cat: Category, at: int) -> (hand: (Seq<u32>, Seq<u32>))
    requires
        0 <= at < category_keys(cat).len(),
    ensures
        fits(cat, hand.0, hand.1),
        category_keys(cat)[at] == shape_key(cat, hand.0, hand.1),
        cat == Category::HighCard ==> !is_straight_key(category_keys(cat)[at]),
{
    let from = lemma_leads_key_origin(cat, leads_of(cat), at);
    let lead = leads_of(cat)[from.0];
    lemma_leads_lead_well(cat);
    lemma_kicks_fit(cat, lead);
    (lead, kicks_of(cat, lead)[from.1])
}

/// The keys under leading ranks are all different.
pub proof fn lemma_lead_keys_differ(cat: Category, lead: Seq<u32>, kicks: Seq<Seq<u32>>)
    requires
        kicks.no_duplicates(),
        forall|at: int| 0 <= at < kicks.len() ==> fits(cat, lead, #[trigger] kicks[at]),
    ensures
        lead_keys(cat, lead, kicks).no_duplicates(),
    decreases kicks.len(),
{
    if kicks.len() > 0 {
        let short = kicks.drop_last();
        let before = lead_keys(cat, lead, short);
        let all = lead_keys(cat, lead, kicks);
        let key = shape_key(cat, lead, kicks.last());
        assert forall|at: int| 0 <= at < short.len() implies fits(cat, lead, #[trigger] short[at]) by {
            assert(short[at] == kicks[at]);
        }
        assert(short.no_duplicates()) by {
            assert forall|i: int, j: int|
                0 <= i < short.len() && 0 <= j < short.len() && i != j implies short[i]
                != short[j] by {
                assert(short[i] == kicks[i] && short[j] == kicks[j]);
            }
        }
        lemma_lead_keys_differ(cat, lead, short);
        if all.len() > before.len() {
            assert(all == before.push(key));
            assert forall|i: int| 0 <= i < before.len() implies before[i] != key by {
                let ki = lemma_lead_key_origin(cat, lead, short, i);
                assert(short[ki] == kicks[ki]);
                assert(fits(cat, lead, kicks[ki]));
                assert(fits(cat, lead, kicks[kicks.len() - 1]));
                if before[i] == key {
                    lemma_keys_tell_hands(cat, lead, kicks[ki], cat, lead, kicks.last());
                    assert(kicks[ki] == kicks[kicks.len() - 1]);
                }
            }
        }
    }
}

/// The keys of a run of leading groups are all different.
pub proof fn lemma_leads_keys_differ(cat: Category, leads: Seq<Seq<u32>>)
    requires
        leads.no_duplicates(),
        forall|at: int| 0 <= at < leads.len() ==> leads_well(cat, #[trigger] leads[at]),
    ensures
        leads_keys(cat, leads).no_duplicates(),
    decreases leads.len(),
{
    if leads.len() > 0 {
        let short = leads.drop_last();
        let last = leads.last();
        let before = leads_keys(cat, short);
        let under = lead_keys(cat, last, kicks_of(cat, last));
        assert forall|at: int| 0 <= at < short.len() implies leads_well(cat, #[trigger] short[at]) by {
            assert(short[at] == leads[at]);
        }
        assert(short.no_duplicates()) by {
            assert forall|i: int, j: int|
                0 <= i < short.len() && 0 <= j < short.len() && i != j implies short[i]
                != short[j] by {
                assert(short[i] == leads[i] && short[j] == leads[j]);
            }
        }
        lemma_leads_keys_differ(cat, short);
        assert(leads_well(cat, leads[leads.len() - 1]));
        lemma_kicks_fit(cat, last);
        lemma_lead_keys_differ(cat, last, kicks_of(cat, last));
        assert forall|i: int, j: int| 0 <= i < before.len() && 0 <= j < under.len() implies before[i]
            != under[j] by {
            let from = lemma_leads_key_origin(cat, short, i);
            let ki = lemma_lead_key_origin(cat, last, kicks_of(cat, last), j);
            let lead = short[from.0];
            assert(lead == leads[from.0]);
            assert(leads_well(cat, leads[from.0]));
            lemma_kicks_fit(cat, lead);
            if before[i] == under[j] {
                lemma_keys_tell_hands(
                    cat,
                    lead,
                    kicks_of(cat, lead)[from.1],
                    cat,
                    last,
                    kicks_of(cat, last)[ki],
                );
                assert(leads[from.0] == leads[leads.len() - 1]);
            }
        }
        vstd::seq_lib::lemma_no_dup_in_concat(before, under);
    }
}

/// The keys of a category are all different, and differ from those of
/// any other category.
pub proof fn lemma_category_keys_differ(cat: Category, other: Category)
    ensures
        category_keys(cat).no_duplicates(),
        cat != other ==> forall|i: int, j: int|
            0 <= i < category_keys(cat).len() && 0 <= j < category_keys(other).len()
                ==> category_keys(cat)[i] != category_keys(other)[j],
{
    lemma_leads_lead_well(cat);
    lemma_leads_keys_differ(cat, leads_of(cat));
    if cat != other {
        assert forall|i: int, j: int|
            0 <= i < category_keys(cat).len() && 0 <= j < category_keys(other).len() implies category_keys(
            cat,
        )[i] != category_keys(other)[j] by {
            let a = lemma_category_key_origin(cat, i);
            let b = lemma_category_key_origin(other, j);
            if category_keys(cat)[i] == category_keys(other)[j] {
                lemma_keys_tell_hands(cat, a.0, a.1, other, b.0, b.1);
            }
        }
    }
}

/// What a rank contributes to a product over the ranks below `n`.
pub open spec fn part(rank: u32, n: nat) -> nat {
    if rank < n {
        rank_prime(rank as int)
    } else {
        1
    }
}

/// The mask of five ranks holds these ranks and no others.
proof fn lemma_mask_of_holds(c: (u32, u32, u32, u32, u32), i: u32)
    requires
        i < 13,
        c.0 < 13 && c.1 < 13 && c.2 < 13 && c.3 < 13 && c.4 < 13,
    ensures
        (mask_of(c) & (1u32 << i) != 0) == (i == c.0 || i == c.1 || i == c.2 || i == c.3 || i
            == c.4),
{
    let (a, b, d, e, f) = c;
    assert((((1u32 << a) | (1u32 << b) | (1u32 << d) | (1u32 << e) | (1u32 << f)) & (1u32 << i)
        != 0) == (i == a || i == b || i == d || i == e || i == f)) by (bit_vector)
        requires
            i < 13,
            a < 13 && b < 13 && d < 13 && e < 13 && f < 13,
    ;
}

/// The product of the mask of five different ranks over the ranks below
/// `n` is the product of those of the five that are below `n`.
proof fn lemma_mask_of_parts(c: (u32, u32, u32, u32, u32), n: nat)
    requires
        n <= 13,
        13 > c.0 > c.1 > c.2 > c.3 > c.4,
    ensures
        mask_product(mask_of(c), n) == part(c.0, n) * part(c.1, n) * part(c.2, n) * part(c.3, n)
            * part(c.4, n),
    decreases n,
{
    if n == 0 {
        assert(1nat * 1nat * 1nat * 1nat * 1nat == 1) by (nonlinear_arith);
    } else {
        let m = (n - 1) as nat;
        let i = m as u32;
        lemma_mask_of_parts(c, m);
        lemma_mask_of_holds(c, i);
        let a0 = part(c.0, m);
        let a1 = part(c.1, m);
        let a2 = part(c.2, m);
        let a3 = part(c.3, m);
        let a4 = part(c.4, m);
        let p = rank_prime(i as int);
        let f = rank_factor(mask_of(c), i);
        assert(mask_product(mask_of(c), n) == (a0 * a1 * a2 * a3 * a4) * f);
        if i == c.0 {
            assert((1 * a1 * a2 * a3 * a4) * p == p * a1 * a2 * a3 * a4) by (nonlinear_arith);
        } else if i == c.1 {
            assert((a0 * 1 * a2 * a3 * a4) * p == a0 * p * a2 * a3 * a4) by (nonlinear_arith);
        } else if i == c.2 {
            assert((a0 * a1 * 1 * a3 * a4) * p == a0 * a1 * p * a3 * a4) by (nonlinear_arith);
        } else if i == c.3 {
            assert((a0 * a1 * a2 * 1 * a4) * p == a0 * a1 * a2 * p * a4) by (nonlinear_arith);
        } else if i == c.4 {
            assert((a0 * a1 * a2 * a3 * 1) * p == a0 * a1 * a2 * a3 * p) by (nonlinear_arith);
        } else {
            assert((a0 * a1 * a2 * a3 * a4) * 1 == a0 * a1 * a2 * a3 * a4) by (nonlinear_arith);
        }
    }
}

/// The fingerprint of the mask of five different ranks is the product of
/// their primes.
pub proof fn lemma_mask_of_product(c: (u32, u32, u32, u32, u32))
    requires
        13 > c.0 > c.1 > c.2 > c.3 > c.4,
    ensures
        rank_set_product(mask_of(c)) == product5(c.0, c.1, c.2, c.3, c.4),
{
    reveal(product5);
    lemma_mask_of_parts(c, 13);
}

/// The mask of five ranks in a row, the highest given.
pub open spec fn run_mask(top: u32) -> u32 {
    (1u32 << top) | (1u32 << ((top - 1) as u32)) | (1u32 << ((top - 2) as u32)) | (1u32 << ((top
        - 3) as u32)) | (1u32 << ((top - 4) as u32))
}

/// The five ranks of a straight, from the strongest straight to the
/// wheel.
pub open spec fn straight_ranks(at: int) -> (u32, u32, u32, u32, u32) {
    if at == 9 {
        (12u32, 3u32, 2u32, 1u32, 0u32)
    } else {
        ((12 - at) as u32, (11 - at) as u32, (10 - at) as u32, (9 - at) as u32, (8 - at) as u32)
    }
}

/// The mask of each straight is the mask of its five ranks.
pub proof fn lemma_straight_ranks(at: int)
    requires
        0 <= at < 10,
    ensures
        straight_masks()[at] == mask_of(straight_ranks(at)),
        mask_key(straight_masks()[at]) == product5(
            straight_ranks(at).0,
            straight_ranks(at).1,
            straight_ranks(at).2,
            straight_ranks(at).3,
            straight_ranks(at).4,
        ),
{
    assert(run_mask(12) == 0b1_1111_0000_0000u32 && run_mask(11) == 0b1111_1000_0000u32
        && run_mask(10) == 0b111_1100_0000u32 && run_mask(9) == 0b11_1110_0000u32 && run_mask(8)
        == 0b1_1111_0000u32 && run_mask(7) == 0b1111_1000u32 && run_mask(6) == 0b111_1100u32
        && run_mask(5) == 0b11_1110u32 && run_mask(4) == 0b1_1111u32 && (1u32 << 12u32) | (1u32
        << 3u32) | (1u32 << 2u32) | (1u32 << 1u32) | (1u32 << 0u32) == 0b1_0000_0000_1111u32)
        by (bit_vector);
    lemma_mask_of_product(straight_ranks(at));
    crate::lookup::lemma_straights_have_five(straight_masks()[at]);
    lemma_five_ranks_fit(straight_masks()[at]);
}

/// A hand of the six categories whose key is that of a straight is a
/// high card.
pub proof fn lemma_straight_key_is_high_card(cat: Category, lead: Seq<u32>, kick: Seq<u32>)
    requires
        fits(cat, lead, kick),
        is_straight_key(shape_key(cat, lead, kick)),
    ensures
        cat == Category::HighCard,
{
    let keys = mask_keys(straight_masks());
    let key = shape_key(cat, lead, kick);
    let at = choose|at: int| 0 <= at < keys.len() && keys[at] == key;
    lemma_straight_ranks(at);
    lemma_canon(cat, lead, kick);
    let c = canon(entry_of(cat, lead, kick));
    lemma_product5_fits(c.0, c.1, c.2, c.3, c.4);
    lemma_product5_injective(c, straight_ranks(at));
}

} // verus!
