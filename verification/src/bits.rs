//! Bit patterns with a given number of one bits, and the step from one
//! such pattern to the next.
use vstd::prelude::*;

verus! {

/// The number of one bits of `x`.
pub open spec fn count_ones(x: u32) -> int {
    ((x >> 0) & 1) + ((x >> 1) & 1) + ((x >> 2) & 1) + ((x >> 3) & 1) + ((x >> 4) & 1) + ((x >> 5)
        & 1) + ((x >> 6) & 1) + ((x >> 7) & 1) + ((x >> 8) & 1) + ((x >> 9) & 1) + ((x >> 10) & 1)
        + ((x >> 11) & 1) + ((x >> 12) & 1) + ((x >> 13) & 1) + ((x >> 14) & 1) + ((x >> 15) & 1)
        + ((x >> 16) & 1) + ((x >> 17) & 1) + ((x >> 18) & 1) + ((x >> 19) & 1) + ((x >> 20) & 1)
        + ((x >> 21) & 1) + ((x >> 22) & 1) + ((x >> 23) & 1) + ((x >> 24) & 1) + ((x >> 25) & 1)
        + ((x >> 26) & 1) + ((x >> 27) & 1) + ((x >> 28) & 1) + ((x >> 29) & 1) + ((x >> 30) & 1)
        + ((x >> 31) & 1)
}

/// Whether a pattern has a successor with as many one bits: it is not
/// zero, and the run of ones that ends its lowest block does not reach
/// the top bit.
pub open spec fn has_next_pattern(v: u32) -> bool {
    v != 0 && (v | ((v - 1) as u32)) != 0xffff_ffffu32
}

/// The step to the next pattern: the lowest run of ones moves its top bit
/// one place up, and the rest of the run falls to the bottom.
pub open spec fn next_pattern(v: u32) -> u32 {
    let t: u32 = ((v | ((v - 1) as u32)) + 1) as u32;
    let low_t: u32 = t & (((!t) + 1) as u32);
    let low_v: u32 = v & (((!v) + 1) as u32);
    t | (((((low_t / low_v) as u32) >> 1) - 1) as u32)
}

/// The next pattern is larger and has as many one bits.
#[verifier::rlimit(100)]
pub proof fn lemma_next_pattern_keeps_count(v: u32)
    by (bit_vector)
    requires
        v != 0,
        (v | ((v - 1) as u32)) != 0xffff_ffffu32,
    ensures
        next_pattern(v) > v,
        count_ones(next_pattern(v)) == count_ones(v),
{
}

/// Nothing between a pattern and the next has as many one bits.
#[verifier::rlimit(100)]
pub proof fn lemma_next_pattern_is_least(v: u32, x: u32)
    by (bit_vector)
    requires
        v != 0,
        (v | ((v - 1) as u32)) != 0xffff_ffffu32,
        v < x,
        x < next_pattern(v),
    ensures
        count_ones(x) != count_ones(v),
{
}

/// The pattern of `k` low ones is the least with `k` one bits, and has them.
#[verifier::rlimit(100)]
pub proof fn lemma_lowest_pattern(k: u32, x: u32)
    by (bit_vector)
    requires
        k < 32,
    ensures
        count_ones(((1u32 << k) - 1) as u32) == k,
        x < ((1u32 << k) - 1) as u32 ==> count_ones(x) != k,
{
}

/// The parts of the step are defined: no subtraction wraps and the
/// divisor is not zero.
pub proof fn lemma_next_pattern_defined(v: u32)
    by (bit_vector)
    requires
        v != 0,
        (v | ((v - 1) as u32)) != 0xffff_ffffu32,
    ensures
        ({
            let t: u32 = ((v | ((v - 1) as u32)) + 1) as u32;
            let low_t: u32 = t & (((!t) + 1) as u32);
            let low_v: u32 = v & (((!v) + 1) as u32);
            &&& (v | ((v - 1) as u32)) + 1 <= 0xffff_ffffu32
            &&& (!t) + 1 <= 0xffff_ffffu32
            &&& (!v) + 1 <= 0xffff_ffffu32
            &&& low_v != 0
            &&& (low_t / low_v) >> 1 >= 1
        }),
{
}

/// A pattern below the top bit that is not zero has a successor.
pub proof fn lemma_below_top_has_next(v: u32)
    by (bit_vector)
    requires
        v != 0,
        v < 0x8000_0000u32,
    ensures
        (v | ((v - 1) as u32)) != 0xffff_ffffu32,
{
}

/// The patterns with `ones` one bits that lie in `from..to`, in ascending
/// order.
pub open spec fn patterns_between(from: nat, to: nat, ones: int) -> Seq<u32>
    decreases to - from,
{
    if from >= to {
        Seq::empty()
    } else {
        let rest = patterns_between(from + 1, to, ones);
        if count_ones(from as u32) == ones {
            seq![from as u32] + rest
        } else {
            rest
        }
    }
}

/// A stretch that holds no pattern can be left out at the lower end.
pub proof fn lemma_patterns_skip(a: nat, b: nat, to: nat, ones: int)
    requires
        a <= b,
        b <= 0x1_0000_0000,
        forall|x: u32| a <= x < b ==> count_ones(x) != ones,
    ensures
        patterns_between(a, to, ones) == patterns_between(b, to, ones),
    decreases b - a,
{
    if a == b {
    } else if a >= to {
    } else {
        assert(count_ones(a as u32) != ones);
        lemma_patterns_skip(a + 1, b, to, ones);
    }
}

/// Every pattern listed has `ones` one bits and lies in `from..to`, and
/// the list ascends strictly.
pub proof fn lemma_patterns_sound(from: nat, to: nat, ones: int)
    requires
        to <= 0x1_0000_0000,
    ensures
        forall|i: int|
            0 <= i < patterns_between(from, to, ones).len() ==> {
                &&& from <= (#[trigger] patterns_between(from, to, ones)[i]) < to
                &&& count_ones(patterns_between(from, to, ones)[i]) == ones
            },
        forall|i: int, j: int|
            0 <= i < j < patterns_between(from, to, ones).len() ==> patterns_between(
                from,
                to,
                ones,
            )[i] < patterns_between(from, to, ones)[j],
        patterns_between(from, to, ones).len() <= to - from || from >= to,
    decreases to - from,
{
    if from < to {
        lemma_patterns_sound(from + 1, to, ones);
    }
}

/// Every pattern in range with `ones` one bits is listed.
pub proof fn lemma_patterns_complete(from: nat, to: nat, ones: int, x: u32)
    requires
        from <= x < to,
        count_ones(x) == ones,
    ensures
        patterns_between(from, to, ones).contains(x),
    decreases to - from,
{
    let all = patterns_between(from, to, ones);
    if from == x {
        assert(all[0] == x);
    } else {
        lemma_patterns_complete(from + 1, to, ones, x);
        let rest = patterns_between(from + 1, to, ones);
        let i = choose|i: int| 0 <= i < rest.len() && rest[i] == x;
        if count_ones(from as u32) == ones {
            assert(all[i + 1] == x);
        } else {
            assert(all[i] == x);
        }
    }
}

} // verus!
