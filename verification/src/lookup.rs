//! The two lookup tables, from a fingerprint to a strength, and the
//! enumeration of bit patterns that the flush table is built from.
use std::collections::HashMap;
use vstd::prelude::*;
use crate::bits::{
    count_ones, has_next_pattern, lemma_below_top_has_next, lemma_lowest_pattern,
    lemma_next_pattern_defined, lemma_next_pattern_is_least, lemma_next_pattern_keeps_count,
    lemma_patterns_skip, lemma_patterns_sound, next_pattern, patterns_between,
};
use crate::card::{prime_prod_from_rank, rank_set_product};
use crate::census::{
    lemma_category_census, lemma_flush_keys_differ, lemma_flush_table_size,
    lemma_high_card_census, lemma_unsuited_table_size,
};
use crate::combinations::{combinations, combinations_of, lemma_combinations_drawn, rows};
use crate::primes::lemma_five_ranks_fit;
use crate::shapes::{
    all_ranks, candidates, category_key, descending_ranks, holds, kick_size, lead_size, ranks_down,
    shape_key, Category,
};
use crate::strengths::lemma_ranked_at;

verus! {

/// The least pattern above `v` that has as many one bits as `v`.
///
/// `v` must have such a successor within 32 bits.
pub fn next_bit_permutation(v: u32) -> (next: Option<u32>)
    requires
        has_next_pattern(v),
    ensures
        next == Some(next_pattern(v)),
        next_pattern(v) > v,
        count_ones(next_pattern(v)) == count_ones(v),
        forall|x: u32| v < x < next_pattern(v) ==> count_ones(x) != count_ones(v),
{
    proof {
        lemma_next_pattern_defined(v);
        lemma_next_pattern_keeps_count(v);
        assert forall|x: u32| v < x < next_pattern(v) implies count_ones(x) != count_ones(v) by {
            lemma_next_pattern_is_least(v, x);
        }
    }
    let t = (v | (v - 1)).wrapping_add(1);

    let nt = (!t).wrapping_add(1);
    let nv = (!v).wrapping_add(1);

    let w = t | ((((t & nt) / (v & nv)) >> 1u32) - 1);

    Some(w)
}

/// The patterns with a fixed number of one bits below a limit, handed out
/// one by one in ascending order.
pub struct BitSubset {
    current: Option<u32>,
    limit: u32,
}

impl BitSubset {
    /// The limit leaves the top bit free, and the pattern at hand is not
    /// zero.
    #[verifier::type_invariant]
    pub closed spec fn wf(&self) -> bool {
        &&& self.limit <= 0x8000_0000u32
        &&& self.current != Some(0u32)
    }

    /// The patterns still to come, in the order in which they come.
    pub closed spec fn remaining(&self) -> Seq<u32> {
        match self.current {
            Some(x) => patterns_between(x as nat, self.limit as nat, count_ones(x)),
            None => Seq::empty(),
        }
    }

    /// The patterns with `k` one bits below `1 << n_bits`, ascending.
    pub fn new(n_bits: u8, k: u8) -> (subset: Self)
        requires
            n_bits < 32,
            1 <= k < 32,
        ensures
            subset.remaining() == patterns_between(0, (1u32 << n_bits) as nat, k as int),
    {
        proof {
            assert(1u32 << k >= 2 && 1u32 << n_bits <= 0x8000_0000u32) by (bit_vector)
                requires
                    1 <= k < 32,
                    n_bits < 32,
            ;
        }
        let start = (1u32 << k) - 1;
        let limit = 1u32 << n_bits;
        proof {
            let kk = k as u32;
            assert(1u32 << k == 1u32 << kk) by (bit_vector)
                requires
                    kk == k as u32,
            ;
            assert forall|x: u32| 0 <= x < start implies count_ones(x) != k as int by {
                lemma_lowest_pattern(kk, x);
            }
            lemma_lowest_pattern(kk, 0);
            lemma_patterns_skip(0, start as nat, limit as nat, k as int);
        }
        Self { current: Some(start), limit }
    }

    /// Hands out the next pattern, `None` once there is none left.
    pub fn next(&mut self) -> (item: Option<u32>)
        ensures
            match item {
                Some(x) => old(self).remaining().len() > 0 && x == old(self).remaining()[0]
                    && final(self).remaining() == old(self).remaining().drop_first(),
                None => old(self).remaining().len() == 0 && final(self).remaining().len() == 0,
            },
    {
        proof {
            use_type_invariant(&*self);
        }
        let x = match self.current {
            Some(x) => x,
            None => {
                return None;
            },
        };
        if x >= self.limit {
            self.current = None;
            return None;
        } else {
            proof {
                lemma_below_top_has_next(x);
            }
            self.current = next_bit_permutation(x);
            proof {
                let w = next_pattern(x);
                let ones = count_ones(x);
                let limit = self.limit as nat;
                lemma_patterns_skip((x + 1) as nat, w as nat, limit, ones);
                assert(old(self).remaining() == seq![x] + patterns_between(
                    (x + 1) as nat,
                    limit,
                    ones,
                ));
                assert(old(self).remaining().drop_first() =~= patterns_between(
                    (x + 1) as nat,
                    limit,
                    ones,
                ));
            }
            return Some(x);
        }
    }

    /// All the patterns still to come, in the order in which they come.
    pub fn collect(self) -> (all: Vec<u32>)
        ensures
            all@ == self.remaining(),
    {
        let mut subset = self;
        let mut all: Vec<u32> = Vec::new();
        loop
            invariant
                all@ + subset.remaining() == self.remaining(),
            ensures
                all@ == self.remaining(),
            decreases subset.remaining().len(),
        {
            let ghost before = subset.remaining();
            match subset.next() {
                Some(x) => {
                    all.push(x);
                    proof {
                        assert(before =~= seq![x] + before.drop_first());
                        assert(all@ + subset.remaining() =~= self.remaining());
                    }
                },
                None => {
                    proof {
                        assert(all@ + subset.remaining() =~= all@);
                    }
                    break ;
                },
            }
        }
        all
    }
}

/// The ten rank masks of five ranks in a row, the strongest first; the
/// last is the wheel, in which the ace counts low.
pub open spec fn straight_masks() -> Seq<u32> {
    seq![
        0b1_1111_0000_0000u32,
        0b1111_1000_0000u32,
        0b111_1100_0000u32,
        0b11_1110_0000u32,
        0b1_1111_0000u32,
        0b1111_1000u32,
        0b111_1100u32,
        0b11_1110u32,
        0b1_1111u32,
        0b1_0000_0000_1111u32,
    ]
}

/// Whether a rank mask is one of the ten straights.
pub open spec fn is_straight_mask(bits: u32) -> bool {
    ||| bits == 0b1_1111_0000_0000u32
    ||| bits == 0b1111_1000_0000u32
    ||| bits == 0b111_1100_0000u32
    ||| bits == 0b11_1110_0000u32
    ||| bits == 0b1_1111_0000u32
    ||| bits == 0b1111_1000u32
    ||| bits == 0b111_1100u32
    ||| bits == 0b11_1110u32
    ||| bits == 0b1_1111u32
    ||| bits == 0b1_0000_0000_1111u32
}

/// The fingerprint of a rank mask, as a table key.
pub open spec fn mask_key(bits: u32) -> u32 {
    rank_set_product(bits) as u32
}

/// The fingerprints of a sequence of rank masks.
pub open spec fn mask_keys(masks: Seq<u32>) -> Seq<u32> {
    Seq::new(masks.len(), |i: int| mask_key(masks[i]))
}

/// The table `table` after the keys have been entered one after the
/// other, the first with the strength `first` and each with a strength
/// one above that of the key before it. A key that comes twice keeps its
/// later strength.
pub open spec fn ranked(table: Map<u32, u32>, keys: Seq<u32>, first: int) -> Map<u32, u32>
    decreases keys.len(),
{
    if keys.len() == 0 {
        table
    } else {
        ranked(table, keys.drop_last(), first).insert(
            keys.last(),
            (first + keys.len() - 1) as u32,
        )
    }
}

/// The masks read from the last to the first, without the straights.
pub open spec fn plain_flushes(masks: Seq<u32>) -> Seq<u32>
    decreases masks.len(),
{
    if masks.len() == 0 {
        Seq::empty()
    } else {
        let rest = plain_flushes(masks.drop_last());
        if is_straight_mask(masks.last()) {
            rest
        } else {
            seq![masks.last()] + rest
        }
    }
}

/// All rank masks of five ranks out of thirteen, ascending.
pub open spec fn five_rank_masks() -> Seq<u32> {
    patterns_between(0, 8192, 5)
}

/// The flush table: the straight flushes have the strengths 1 to 10; the
/// other flushes follow from 323 on, from the highest mask down.
pub open spec fn flush_table() -> Map<u32, u32> {
    ranked(
        ranked(Map::empty(), mask_keys(straight_masks()), 1),
        mask_keys(plain_flushes(five_rank_masks())),
        323,
    )
}

/// Entering one more key gives it the next strength.
pub proof fn lemma_ranked_push(table: Map<u32, u32>, keys: Seq<u32>, first: int, key: u32)
    ensures
        ranked(table, keys.push(key), first) == ranked(table, keys, first).insert(
            key,
            (first + keys.len()) as u32,
        ),
{
    assert(keys.push(key).drop_last() =~= keys);
}

/// Entering two runs of keys one after the other is entering their
/// concatenation.
pub proof fn lemma_ranked_concat(table: Map<u32, u32>, a: Seq<u32>, b: Seq<u32>, first: int)
    ensures
        ranked(ranked(table, a, first), b, first + a.len()) == ranked(table, a + b, first),
    decreases b.len(),
{
    if b.len() == 0 {
        assert(a + b =~= a);
    } else {
        lemma_ranked_concat(table, a, b.drop_last(), first);
        assert((a + b).drop_last() =~= a + b.drop_last());
    }
}

/// Each straight has five ranks.
pub proof fn lemma_straights_have_five(bits: u32)
    by (bit_vector)
    requires
        is_straight_mask(bits),
    ensures
        count_ones(bits) == 5,
        bits < 8192,
{
}

/// The ten straight masks, the strongest first.
pub fn straights() -> (masks: Vec<u32>)
    ensures
        masks@ == straight_masks(),
{
    let masks: Vec<u32> = vec![
        0b1_1111_0000_0000u32,
        0b1111_1000_0000u32,
        0b111_1100_0000u32,
        0b11_1110_0000u32,
        0b1_1111_0000u32,
        0b1111_1000u32,
        0b111_1100u32,
        0b11_1110u32,
        0b1_1111u32,
        0b1_0000_0000_1111u32,
    ];
    assert(masks@ =~= straight_masks());
    masks
}

/// Whether a rank mask is one of the ten straights.
pub fn is_straight(bits: u32) -> (found: bool)
    ensures
        found == is_straight_mask(bits),
{
    bits == 0b1_1111_0000_0000u32 || bits == 0b1111_1000_0000u32 || bits == 0b111_1100_0000u32
        || bits == 0b11_1110_0000u32 || bits == 0b1_1111_0000u32 || bits == 0b1111_1000u32 || bits
        == 0b111_1100u32 || bits == 0b11_1110u32 || bits == 0b1_1111u32 || bits
        == 0b1_0000_0000_1111u32
}

/// Enters the ten straights into a table, with the strengths from `first`
/// on.
fn insert_straights(map: &mut HashMap<u32, u32>, first: u32)
    requires
        first <= 10_000,
    ensures
        final(map)@ == ranked(old(map)@, mask_keys(straight_masks()), first as int),
{
    let masks = straights();
    let mut rank = first;
    let mut i: usize = 0;
    while i < masks.len()
        invariant
            i <= masks@.len() == 10,
            masks@ == straight_masks(),
            rank == first + i,
            first <= 10_000,
            map@ == ranked(old(map)@, mask_keys(straight_masks()).take(i as int), first as int),
        decreases masks@.len() - i,
    {
        let bits = masks[i];
        proof {
            lemma_straights_have_five(bits);
            lemma_five_ranks_fit(bits);
            let keys = mask_keys(straight_masks());
            lemma_ranked_push(old(map)@, keys.take(i as int), first as int, keys[i as int]);
            assert(keys.take(i as int).push(keys[i as int]) =~= keys.take(i + 1));
        }
        let key = prime_prod_from_rank(bits);
        map.insert(key, rank);
        rank += 1;
        i += 1;
    }
    proof {
        let keys = mask_keys(straight_masks());
        assert(keys.take(10) =~= keys);
    }
}

/// Builds the flush table, from the fingerprint of the five ranks of a
/// flush to its strength.
pub fn build_flush_table() -> (map: HashMap<u32, u32>)
    ensures
        map@ == flush_table(),
        map@.len() == 1287,
{
    // 1287 = binom(13, 5): the sets of five ranks, whatever the suit
    let mut map: HashMap<u32, u32> = HashMap::with_capacity(1287);
    insert_straights(&mut map, 1);

    // the royal flush is in the table by now, with the strength 1
    proof {
        lemma_flush_keys_differ();
        lemma_ranked_at(Map::empty(), mask_keys(straight_masks()), 1, 0);
        assert(map@.contains_key(mask_key(0b1_1111_0000_0000u32)));
        assert(map@[mask_key(0b1_1111_0000_0000u32)] == 1);
    }

    let mut rank: u32 = 323;
    let all_patterns: Vec<u32> = BitSubset::new(13, 5).collect();
    let ghost base = map@;
    let ghost all = all_patterns@;
    let ghost mut entered: Seq<u32> = Seq::empty();
    proof {
        assert(1u32 << 13u8 == 8192) by (bit_vector);
        lemma_patterns_sound(0, 8192, 5);
        assert(all.take(all.len() as int) =~= all);
        assert(entered + plain_flushes(all) =~= plain_flushes(all));
    }
    let mut i: usize = all_patterns.len();
    while i > 0
        invariant
            i <= all.len() <= 8192,
            all == all_patterns@,
            all == five_rank_masks(),
            forall|j: int| 0 <= j < all.len() ==> count_ones(#[trigger] all[j]) == 5,
            rank == 323 + entered.len(),
            entered.len() <= all.len() - i,
            entered + plain_flushes(all.take(i as int)) == plain_flushes(all),
            map@ == ranked(base, mask_keys(entered), 323),
        decreases i,
    {
        i -= 1;
        let bits = all_patterns[i];
        proof {
            assert(all.take(i + 1).drop_last() =~= all.take(i as int));
            assert(all.take(i + 1).last() == bits);
        }
        if is_straight(bits) {
            continue ;
        } else {
            proof {
                lemma_five_ranks_fit(bits);
            }
            let key = prime_prod_from_rank(bits);
            map.insert(key, rank);
            rank += 1;
            proof {
                lemma_ranked_push(base, mask_keys(entered), 323, key);
                assert(mask_keys(entered).push(key) =~= mask_keys(entered.push(bits)));
                assert(entered.push(bits) + plain_flushes(all.take(i as int)) =~= entered + (
                seq![bits] + plain_flushes(all.take(i as int))));
                entered = entered.push(bits);
            }
        }
    }
    proof {
        assert(all.take(0) =~= Seq::<u32>::empty());
        assert(entered + plain_flushes(all.take(0)) =~= entered);
        lemma_flush_table_size();
    }
    map
}

/// Whether a key is the fingerprint of one of the ten straights.
pub open spec fn is_straight_key(key: u32) -> bool {
    mask_keys(straight_masks()).contains(key)
}

/// The keys of the hands of a category with the leading ranks `lead`, one
/// for each choice of kickers in `kicks`, in that order. Among the high
/// cards the straights are left out.
pub open spec fn lead_keys(cat: Category, lead: Seq<u32>, kicks: Seq<Seq<u32>>) -> Seq<u32>
    decreases kicks.len(),
{
    if kicks.len() == 0 {
        Seq::empty()
    } else {
        let before = lead_keys(cat, lead, kicks.drop_last());
        let key = shape_key(cat, lead, kicks.last());
        if cat == Category::HighCard && is_straight_key(key) {
            before
        } else {
            before.push(key)
        }
    }
}

/// The keys of the hands of a category for each choice of leading ranks
/// in `leads`, in that order; under each, the kickers run through the
/// selections from the ranks left for them.
pub open spec fn leads_keys(cat: Category, leads: Seq<Seq<u32>>) -> Seq<u32>
    decreases leads.len(),
{
    if leads.len() == 0 {
        Seq::empty()
    } else {
        leads_keys(cat, leads.drop_last()) + lead_keys(
            cat,
            leads.last(),
            combinations_of(candidates(cat, leads.last()), kick_size(cat)),
        )
    }
}

/// The keys of all hands of a category, from the strongest to the
/// weakest: leading ranks and kickers are both chosen from the high ranks
/// down.
pub open spec fn category_keys(cat: Category) -> Seq<u32> {
    leads_keys(cat, combinations_of(ranks_down(13, Seq::empty()), lead_size(cat)))
}

/// The unsuited table: four of a kind and full houses from 11 on, the
/// straights from 1600 on, and after them three of a kind, two pair, one
/// pair and the high cards.
pub open spec fn unsuited_table() -> Map<u32, u32> {
    let upper = ranked(
        Map::empty(),
        category_keys(Category::Quads) + category_keys(Category::FullHouse),
        11,
    );
    let middle = ranked(upper, mask_keys(straight_masks()), 1600);
    ranked(
        middle,
        category_keys(Category::Trips) + category_keys(Category::TwoPair) + category_keys(
            Category::Pair,
        ) + category_keys(Category::HighCard),
        1610,
    )
}

/// The keys under a shorter run of kickers are no more.
pub proof fn lemma_lead_keys_grow(cat: Category, lead: Seq<u32>, kicks: Seq<Seq<u32>>, n: int)
    requires
        0 <= n <= kicks.len(),
    ensures
        lead_keys(cat, lead, kicks.take(n)).len() <= lead_keys(cat, lead, kicks).len()
            <= kicks.len(),
    decreases kicks.len(),
{
    if kicks.len() == 0 {
        assert(kicks.take(n) =~= kicks);
    } else if n == kicks.len() {
        assert(kicks.take(n) =~= kicks);
        lemma_lead_keys_grow(cat, lead, kicks.drop_last(), n - 1);
    } else {
        assert(kicks.drop_last().take(n) =~= kicks.take(n));
        lemma_lead_keys_grow(cat, lead, kicks.drop_last(), n);
    }
}

/// The keys under a shorter run of leading ranks are no more.
pub proof fn lemma_leads_keys_grow(cat: Category, leads: Seq<Seq<u32>>, n: int)
    requires
        0 <= n <= leads.len(),
    ensures
        leads_keys(cat, leads.take(n)).len() <= leads_keys(cat, leads).len(),
    decreases leads.len(),
{
    if leads.len() == 0 {
        assert(leads.take(n) =~= leads);
    } else if n == leads.len() {
        assert(leads.take(n) =~= leads);
    } else {
        assert(leads.drop_last().take(n) =~= leads.take(n));
        lemma_leads_keys_grow(cat, leads.drop_last(), n);
    }
}

/// The fingerprints of the ten straights, the strongest first.
pub fn straight_keys() -> (keys: Vec<u32>)
    ensures
        keys@ == mask_keys(straight_masks()),
{
    let masks = straights();
    let mut keys: Vec<u32> = Vec::new();
    let mut i: usize = 0;
    while i < masks.len()
        invariant
            i <= masks@.len(),
            masks@ == straight_masks(),
            keys@ == mask_keys(straight_masks()).take(i as int),
        decreases masks@.len() - i,
    {
        proof {
            lemma_straights_have_five(masks@[i as int]);
            lemma_five_ranks_fit(masks@[i as int]);
        }
        keys.push(prime_prod_from_rank(masks[i]));
        proof {
            let all = mask_keys(straight_masks());
            assert(all.take(i as int).push(all[i as int]) =~= all.take(i + 1));
        }
        i += 1;
    }
    proof {
        let all = mask_keys(straight_masks());
        assert(all.take(all.len() as int) =~= all);
    }
    keys
}

/// Enters the hands of a category into a table, the strongest first, with
/// the strengths from `first` on. Returns the strength after the last.
pub fn insert_category(map: &mut HashMap<u32, u32>, cat: Category, first: u32) -> (next: u32)
    requires
        first + category_keys(cat).len() <= u32::MAX,
    ensures
        final(map)@ == ranked(old(map)@, category_keys(cat), first as int),
        next == first + category_keys(cat).len(),
{
    let none: Vec<u32> = Vec::new();
    let all = descending_ranks(13, &none);
    let leads = combinations(&all, lead_count(cat));
    let straight = straight_keys();
    let mut rank = first;
    let ghost base = map@;
    let ghost choices = rows(leads);
    proof {
        assert(none@ =~= Seq::<u32>::empty());
        lemma_combinations_drawn(all@, lead_size(cat));
        assert(choices.take(0) =~= Seq::<Seq<u32>>::empty());
    }
    let mut li: usize = 0;
    while li < leads.len()
        invariant
            li <= leads@.len(),
            choices == rows(leads),
            choices == combinations_of(ranks_down(13, Seq::empty()), lead_size(cat)),
            all@ == ranks_down(13, Seq::empty()),
            all_ranks(all@),
            none@ == Seq::<u32>::empty(),
            straight@ == mask_keys(straight_masks()),
            forall|i: int|
                0 <= i < choices.len() ==> {
                    &&& (#[trigger] choices[i]).len() == lead_size(cat)
                    &&& forall|j: int|
                        0 <= j < lead_size(cat) ==> all@.contains(#[trigger] choices[i][j])
                },
            first + category_keys(cat).len() <= u32::MAX,
            rank == first + leads_keys(cat, choices.take(li as int)).len(),
            map@ == ranked(base, leads_keys(cat, choices.take(li as int)), first as int),
        decreases leads@.len() - li,
    {
        let lead = &leads[li];
        let ghost done = leads_keys(cat, choices.take(li as int));
        proof {
            assert(lead@ == choices[li as int]);
            assert(all_ranks(lead@)) by {
                assert forall|j: int| 0 <= j < lead@.len() implies #[trigger] lead@[j] < 13 by {
                    assert(all@.contains(choices[li as int][j]));
                }
            }
        }
        let pool = if is_high_card(cat) {
            descending_ranks(lead[0], &none)
        } else {
            descending_ranks(13, lead)
        };
        let kicks = combinations(&pool, kick_count(cat));
        let ghost picks = rows(kicks);
        proof {
            assert(pool@ == candidates(cat, lead@));
            lemma_combinations_drawn(pool@, kick_size(cat));
            assert(picks.take(0) =~= Seq::<Seq<u32>>::empty());
            assert(done + Seq::<u32>::empty() =~= done);
            assert(choices.take(li + 1).drop_last() =~= choices.take(li as int));
            assert(choices.take(li + 1).last() == lead@);
            lemma_leads_keys_grow(cat, choices, li + 1);
        }
        let mut ki: usize = 0;
        while ki < kicks.len()
            invariant
                ki <= kicks@.len(),
                li < leads@.len(),
                picks == rows(kicks),
                picks == combinations_of(candidates(cat, lead@), kick_size(cat)),
                lead@.len() == lead_size(cat),
                all_ranks(lead@),
                all_ranks(pool@),
                straight@ == mask_keys(straight_masks()),
                forall|i: int|
                    0 <= i < picks.len() ==> {
                        &&& (#[trigger] picks[i]).len() == kick_size(cat)
                        &&& forall|j: int|
                            0 <= j < kick_size(cat) ==> pool@.contains(#[trigger] picks[i][j])
                    },
                first + category_keys(cat).len() <= u32::MAX,
                done + lead_keys(cat, lead@, picks) == leads_keys(cat, choices.take(li + 1)),
                leads_keys(cat, choices.take(li + 1)).len() <= category_keys(cat).len(),
                rank == first + done.len() + lead_keys(cat, lead@, picks.take(ki as int)).len(),
                map@ == ranked(
                    base,
                    done + lead_keys(cat, lead@, picks.take(ki as int)),
                    first as int,
                ),
            decreases kicks@.len() - ki,
        {
            let kick = &kicks[ki];
            let ghost before = lead_keys(cat, lead@, picks.take(ki as int));
            proof {
                assert(kick@ == picks[ki as int]);
                assert(all_ranks(kick@)) by {
                    assert forall|j: int| 0 <= j < kick@.len() implies #[trigger] kick@[j]
                        < 13 by {
                        assert(pool@.contains(picks[ki as int][j]));
                    }
                }
                assert(picks.take(ki + 1).drop_last() =~= picks.take(ki as int));
                assert(picks.take(ki + 1).last() == kick@);
                lemma_lead_keys_grow(cat, lead@, picks, ki + 1);
            }
            let key = category_key(cat, lead, kick);
            if is_high_card(cat) && holds(&straight, key) {
            } else {
                map.insert(key, rank);
                rank += 1;
                proof {
                    lemma_ranked_push(base, done + before, first as int, key);
                    assert((done + before).push(key) =~= done + before.push(key));
                }
            }
            ki += 1;
        }
        proof {
            assert(picks.take(picks.len() as int) =~= picks);
        }
        li += 1;
    }
    proof {
        assert(choices.take(choices.len() as int) =~= choices);
    }
    rank
}

/// Whether the category is that of the high cards.
fn is_high_card(cat: Category) -> (high: bool)
    ensures
        high == (cat == Category::HighCard),
{
    match cat {
        Category::HighCard => true,
        _ => false,
    }
}

/// How many ranks lead a hand of the category.
fn lead_count(cat: Category) -> (n: usize)
    ensures
        n == lead_size(cat),
{
    match cat {
        Category::TwoPair => 2,
        _ => 1,
    }
}

/// How many ranks follow the leading ones.
fn kick_count(cat: Category) -> (n: usize)
    ensures
        n == kick_size(cat),
{
    match cat {
        Category::Quads => 1,
        Category::FullHouse => 1,
        Category::Trips => 2,
        Category::TwoPair => 1,
        Category::Pair => 3,
        Category::HighCard => 4,
    }
}

/// Builds the unsuited table, from the fingerprint of the five ranks of a
/// hand that is no flush to its strength.
pub fn build_unsuited_table() -> (map: HashMap<u32, u32>)
    ensures
        map@ == unsuited_table(),
        map@.len() == 6175,
{
    let mut map: HashMap<u32, u32> = HashMap::with_capacity(6175);
    proof {
        lemma_category_census();
        lemma_high_card_census();
    }
    let ghost quads = category_keys(Category::Quads);
    let ghost full = category_keys(Category::FullHouse);
    let ghost trips = category_keys(Category::Trips);
    let ghost two_pair = category_keys(Category::TwoPair);
    let ghost pair = category_keys(Category::Pair);
    let ghost high = category_keys(Category::HighCard);

    // four of a kind and full houses follow the ten straight flushes
    let mut rank: u32 = 11;
    rank = insert_category(&mut map, Category::Quads, rank);
    rank = insert_category(&mut map, Category::FullHouse, rank);
    proof {
        lemma_ranked_concat(Map::empty(), quads, full, 11);
    }

    // the straights follow the flushes, which end at 1599
    insert_straights(&mut map, 1600);
    let ghost middle = map@;

    // the rest runs on from the straights, each category behind the one before
    rank = 1610;
    rank = insert_category(&mut map, Category::Trips, rank);
    rank = insert_category(&mut map, Category::TwoPair, rank);
    rank = insert_category(&mut map, Category::Pair, rank);
    let _ = insert_category(&mut map, Category::HighCard, rank);
    proof {
        lemma_ranked_concat(middle, trips, two_pair, 1610);
        lemma_ranked_concat(middle, trips + two_pair, pair, 1610);
        lemma_ranked_concat(middle, trips + two_pair + pair, high, 1610);
        lemma_unsuited_table_size();
    }
    map
}

/// The two lookup tables, built once and read from then on.
pub struct LookupTables {
    flush: HashMap<u32, u32>,
    unsuited: HashMap<u32, u32>,
}

impl LookupTables {
    /// The tables hold what construction puts into them, no more and no
    /// less.
    #[verifier::type_invariant]
    pub closed spec fn complete(&self) -> bool {
        &&& self.flush@ == flush_table()
        &&& self.unsuited@ == unsuited_table()
    }

    /// What the flush table of these tables holds.
    pub closed spec fn flush_entries(&self) -> Map<u32, u32> {
        self.flush@
    }

    /// What the unsuited table of these tables holds.
    pub closed spec fn unsuited_entries(&self) -> Map<u32, u32> {
        self.unsuited@
    }

    /// Builds both tables: the flush table with its 1287 entries and the
    /// unsuited table with its 6175.
    pub fn new() -> (tables: Self)
        ensures
            tables.flush_entries() == flush_table(),
            tables.unsuited_entries() == unsuited_table(),
            tables.flush_entries().len() == 1287,
            tables.unsuited_entries().len() == 6175,
    {
        Self { flush: build_flush_table(), unsuited: build_unsuited_table() }
    }

    /// The strength of the flush with the fingerprint `key`, if there is
    /// such a flush.
    pub fn flush_strength(&self, key: u32) -> (strength: Option<u32>)
        ensures
            strength == entry(flush_table(), key),
    {
        proof {
            use_type_invariant(self);
        }
        match self.flush.get(&key) {
            Some(strength) => Some(*strength),
            None => None,
        }
    }

    /// The strength of the hand with the fingerprint `key` that is no
    /// flush, if there is such a hand.
    pub fn unsuited_strength(&self, key: u32) -> (strength: Option<u32>)
        ensures
            strength == entry(unsuited_table(), key),
    {
        proof {
            use_type_invariant(self);
        }
        match self.unsuited.get(&key) {
            Some(strength) => Some(*strength),
            None => None,
        }
    }

    /// The number of flush fingerprints.
    pub fn flush_len(&self) -> (len: usize)
        ensures
            len == flush_table().len(),
            len == 1287,
    {
        proof {
            use_type_invariant(self);
            lemma_flush_table_size();
        }
        self.flush.len()
    }

    /// The number of fingerprints of hands that are no flush.
    pub fn unsuited_len(&self) -> (len: usize)
        ensures
            len == unsuited_table().len(),
            len == 6175,
    {
        proof {
            use_type_invariant(self);
            lemma_unsuited_table_size();
        }
        self.unsuited.len()
    }
}

/// What a table holds under a key.
pub open spec fn entry(table: Map<u32, u32>, key: u32) -> Option<u32> {
    if table.contains_key(key) {
        Some(table[key])
    } else {
        None
    }
}

} // verus!
