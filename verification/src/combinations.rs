//! The selections of `k` items out of a sequence, in the order in which
//! they are enumerated.
use vstd::prelude::*;
use itertools::Itertools;

verus! {

/// Each of `tails` with `first` put in front.
pub open spec fn with_first(first: u32, tails: Seq<Seq<u32>>) -> Seq<Seq<u32>> {
    Seq::new(tails.len(), |i: int| seq![first] + tails[i])
}

/// The selections of `k` items of `items` that keep the order of `items`,
/// in lexicographic order of the places they are taken from: first those
/// that hold the first item, then those that do not.
pub open spec fn combinations_of(items: Seq<u32>, k: nat) -> Seq<Seq<u32>>
    decreases items.len(),
{
    if k == 0 {
        seq![Seq::<u32>::empty()]
    } else if items.len() == 0 {
        Seq::empty()
    } else {
        with_first(items[0], combinations_of(items.drop_first(), (k - 1) as nat))
            + combinations_of(items.drop_first(), k)
    }
}

/// The rows of a vector of vectors, as sequences.
pub open spec fn rows(all: Vec<Vec<u32>>) -> Seq<Seq<u32>> {
    Seq::new(all@.len(), |i: int| all@[i]@)
}

/// Calls `Itertools::combinations` of itertools on the items and collects
/// what it yields. The contract claims what the source of that adaptor
/// shows: it yields every selection of `k` places in lexicographic order
/// of the places, each as the items at those places; one empty selection
/// for `k == 0`, and nothing where there are fewer than `k` items.
#[verifier::external_body]
pub(crate) fn combinations(items: &Vec<u32>, k: usize) -> (all: Vec<Vec<u32>>)
    ensures
        rows(all) == combinations_of(items@, k as nat),
{
    items.iter().copied().combinations(k).collect()
}

/// Every selection has `k` items, and each of them is an item of `items`.
pub proof fn lemma_combinations_drawn(items: Seq<u32>, k: nat)
    ensures
        forall|i: int|
            0 <= i < combinations_of(items, k).len() ==> {
                &&& (#[trigger] combinations_of(items, k)[i]).len() == k
                &&& forall|j: int|
                    0 <= j < k ==> items.contains(#[trigger] combinations_of(items, k)[i][j])
            },
    decreases items.len(),
{
    if k == 0 {
    } else if items.len() == 0 {
    } else {
        let rest = items.drop_first();
        lemma_combinations_drawn(rest, (k - 1) as nat);
        lemma_combinations_drawn(rest, k);
        let with = with_first(items[0], combinations_of(rest, (k - 1) as nat));
        let without = combinations_of(rest, k);
        let all = combinations_of(items, k);
        assert forall|i: int| 0 <= i < all.len() implies {
            &&& (#[trigger] all[i]).len() == k
            &&& forall|j: int| 0 <= j < k ==> items.contains(#[trigger] all[i][j])
        } by {
            if i < with.len() {
                let tail = combinations_of(rest, (k - 1) as nat)[i];
                assert(all[i] == seq![items[0]] + tail);
                assert forall|j: int| 0 <= j < k implies items.contains(#[trigger] all[i][j]) by {
                    if j == 0 {
                        assert(items[0] == all[i][0]);
                    } else {
                        assert(all[i][j] == tail[j - 1]);
                        assert(rest.contains(tail[j - 1]));
                        let at = choose|at: int| 0 <= at < rest.len() && rest[at] == tail[j - 1];
                        assert(items[at + 1] == tail[j - 1]);
                    }
                }
            } else {
                let row = without[i - with.len()];
                assert(all[i] == row);
                assert forall|j: int| 0 <= j < k implies items.contains(#[trigger] all[i][j]) by {
                    assert(rest.contains(row[j]));
                    let at = choose|at: int| 0 <= at < rest.len() && rest[at] == row[j];
                    assert(items[at + 1] == row[j]);
                }
            }
        }
    }
}

/// The number of ways to choose `k` out of `n`.
pub open spec fn binomial(n: nat, k: nat) -> nat
    decreases n,
{
    if k == 0 {
        1
    } else if n == 0 {
        0
    } else {
        binomial((n - 1) as nat, (k - 1) as nat) + binomial((n - 1) as nat, k)
    }
}

/// There are as many selections as ways to choose.
pub proof fn lemma_combinations_len(items: Seq<u32>, k: nat)
    ensures
        combinations_of(items, k).len() == binomial(items.len(), k),
    decreases items.len(),
{
    if k == 0 {
    } else if items.len() == 0 {
    } else {
        lemma_combinations_len(items.drop_first(), (k - 1) as nat);
        lemma_combinations_len(items.drop_first(), k);
    }
}

/// There is a way to choose `k` out of `n` where `k` is at most `n`.
pub proof fn lemma_binomial_positive(n: nat, k: nat)
    requires
        k <= n,
    ensures
        binomial(n, k) >= 1,
    decreases n,
{
    if k > 0 && n > 0 {
        lemma_binomial_positive((n - 1) as nat, (k - 1) as nat);
    }
}

/// Whether the places ascend strictly and lie below `bound`.
pub open spec fn ascending(places: Seq<int>, bound: int) -> bool {
    &&& forall|j: int| 0 <= j < places.len() ==> 0 <= #[trigger] places[j] < bound
    &&& forall|i: int, j: int| 0 <= i < j < places.len() ==> places[i] < places[j]
}

/// The items at the given places.
pub open spec fn pick(items: Seq<u32>, places: Seq<int>) -> Seq<u32> {
    Seq::new(places.len(), |j: int| items[places[j]])
}

/// The places moved by `by`.
pub open spec fn shifted(places: Seq<int>, by: int) -> Seq<int> {
    Seq::new(places.len(), |j: int| places[j] + by)
}

/// The items at any `k` ascending places are among the selections of `k`
/// items.
pub proof fn lemma_picks_are_combinations(items: Seq<u32>, places: Seq<int>)
    requires
        ascending(places, items.len() as int),
    ensures
        combinations_of(items, places.len()).contains(pick(items, places)),
    decreases items.len(),
{
    let k = places.len();
    let all = combinations_of(items, k);
    if k == 0 {
        assert(all[0] =~= pick(items, places));
    } else {
        assert(0 <= places[0] < items.len());
        let rest = items.drop_first();
        let with = with_first(items[0], combinations_of(rest, (k - 1) as nat));
        let without = combinations_of(rest, k);
        if places[0] == 0 {
            let tail = shifted(places.drop_first(), -1);
            assert(ascending(tail, rest.len() as int)) by {
                assert forall|j: int| 0 <= j < tail.len() implies 0 <= #[trigger] tail[j]
                    < rest.len() by {
                    assert(places[0] < places[j + 1]);
                }
                assert forall|i: int, j: int| 0 <= i < j < tail.len() implies tail[i]
                    < tail[j] by {
                    assert(places[i + 1] < places[j + 1]);
                }
            }
            lemma_picks_are_combinations(rest, tail);
            let inner = combinations_of(rest, (k - 1) as nat);
            let t = choose|t: int| 0 <= t < inner.len() && inner[t] == pick(rest, tail);
            assert(all[t] == with[t]);
            assert(with[t] =~= pick(items, places));
        } else {
            let moved = shifted(places, -1);
            assert(ascending(moved, rest.len() as int)) by {
                assert forall|j: int| 0 <= j < moved.len() implies 0 <= #[trigger] moved[j]
                    < rest.len() by {
                    if j > 0 {
                        assert(places[0] < places[j]);
                    }
                }
                assert forall|i: int, j: int| 0 <= i < j < moved.len() implies moved[i]
                    < moved[j] by {
                    assert(places[i] < places[j]);
                }
            }
            lemma_picks_are_combinations(rest, moved);
            let t = choose|t: int| 0 <= t < without.len() && without[t] == pick(rest, moved);
            assert(all[with.len() + t] == without[t]);
            assert(without[t] =~= pick(items, places));
        }
    }
}

/// Every selection of `k` items holds the items at some `k` ascending
/// places.
pub proof fn lemma_combinations_are_picks(items: Seq<u32>, k: nat, at: int) -> (places: Seq<int>)
    requires
        0 <= at < combinations_of(items, k).len(),
    ensures
        places.len() == k,
        ascending(places, items.len() as int),
        combinations_of(items, k)[at] == pick(items, places),
    decreases items.len(),
{
    let all = combinations_of(items, k);
    if k == 0 {
        let places = Seq::<int>::empty();
        assert(all[at] =~= pick(items, places));
        places
    } else {
        let rest = items.drop_first();
        let with = with_first(items[0], combinations_of(rest, (k - 1) as nat));
        let without = combinations_of(rest, k);
        if at < with.len() {
            let tail = lemma_combinations_are_picks(rest, (k - 1) as nat, at);
            let places = seq![0int] + shifted(tail, 1);
            assert(ascending(places, items.len() as int)) by {
                assert forall|j: int| 0 <= j < places.len() implies 0 <= #[trigger] places[j]
                    < items.len() by {
                    if j > 0 {
                        assert(places[j] == tail[j - 1] + 1);
                    }
                }
                assert forall|i: int, j: int| 0 <= i < j < places.len() implies places[i]
                    < places[j] by {
                    assert(places[j] == tail[j - 1] + 1);
                    if i > 0 {
                        assert(places[i] == tail[i - 1] + 1);
                    }
                }
            }
            assert(all[at] == with[at]);
            assert(with[at] =~= pick(items, places)) by {
                assert forall|j: int| 0 <= j < k implies with[at][j] == pick(items, places)[j] by {
                    if j > 0 {
                        assert(places[j] == tail[j - 1] + 1);
                    }
                }
            }
            places
        } else {
            let inner = lemma_combinations_are_picks(rest, k, at - with.len());
            let places = shifted(inner, 1);
            assert(ascending(places, items.len() as int)) by {
                assert forall|j: int| 0 <= j < places.len() implies 0 <= #[trigger] places[j]
                    < items.len() by {
                    assert(places[j] == inner[j] + 1);
                }
            }
            assert(all[at] == without[at - with.len()]);
            assert(all[at] =~= pick(items, places));
            places
        }
    }
}

/// Out of items that are all different, no selection comes twice.
pub proof fn lemma_combinations_distinct(items: Seq<u32>, k: nat)
    requires
        items.no_duplicates(),
    ensures
        combinations_of(items, k).no_duplicates(),
    decreases items.len(),
{
    let all = combinations_of(items, k);
    if k == 0 {
    } else if items.len() == 0 {
    } else {
        let rest = items.drop_first();
        let tails = combinations_of(rest, (k - 1) as nat);
        let with = with_first(items[0], tails);
        let without = combinations_of(rest, k);
        assert(rest.no_duplicates()) by {
            assert forall|i: int, j: int|
                0 <= i < rest.len() && 0 <= j < rest.len() && i != j implies rest[i] != rest[j] by {
                assert(rest[i] == items[i + 1] && rest[j] == items[j + 1]);
            }
        }
        lemma_combinations_distinct(rest, (k - 1) as nat);
        lemma_combinations_distinct(rest, k);
        lemma_combinations_drawn(rest, k);
        assert forall|i: int, j: int|
            0 <= i < all.len() && 0 <= j < all.len() && i != j implies all[i] != all[j] by {
            if i < with.len() && j < with.len() {
                assert(all[i] == seq![items[0]] + tails[i]);
                assert(all[j] == seq![items[0]] + tails[j]);
                if all[i] == all[j] {
                    assert(tails[i] =~= all[i].drop_first());
                    assert(tails[j] =~= all[j].drop_first());
                }
            } else if i >= with.len() && j >= with.len() {
                assert(all[i] == without[i - with.len()]);
                assert(all[j] == without[j - with.len()]);
            } else {
                let (w, o) = if i < with.len() {
                    (i, j - with.len())
                } else {
                    (j, i - with.len())
                };
                let row = without[o];
                assert(rest.contains(row[0]));
                let at = choose|at: int| 0 <= at < rest.len() && rest[at] == row[0];
                assert(items[at + 1] == row[0]);
                assert(with[w][0] == items[0]);
            }
        }
    }
}

} // verus!
