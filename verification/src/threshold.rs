use crate::constants::BETA_DENOMINATOR;
use crate::constants::BETA_NUMERATOR;
use crate::constants::RANDOM_SPAN;
use vstd::prelude::*;

verus! {

/// The round's random number that belongs to a uniform 32-bit draw:
/// the draw squeezed into the middle of the range,
/// `floor(draw · (1 − 2β) + 2^32 · β)`.
pub open spec fn scaled_draw(draw: u32) -> int {
    (draw * (BETA_DENOMINATOR - 2 * BETA_NUMERATOR) + RANDOM_SPAN * BETA_NUMERATOR)
        / BETA_DENOMINATOR as int
}

/// The random number lies in `[β · 2^32, (1 − β) · 2^32)`, the lower end
/// rounded down to a whole number.
pub open spec fn in_round_range(random_number: u32) -> bool {
    &&& BETA_NUMERATOR * RANDOM_SPAN < BETA_DENOMINATOR * (random_number + 1)
    &&& BETA_DENOMINATOR * random_number < (BETA_DENOMINATOR - BETA_NUMERATOR) * RANDOM_SPAN
}

/// Turns a uniform 32-bit draw into the random number of a round.
pub fn round_random(draw: u32) -> (random_number: u32)
    ensures
        random_number == scaled_draw(draw),
        in_round_range(random_number),
{
    let factor: u64 = BETA_DENOMINATOR - 2 * BETA_NUMERATOR;
    let offset: u64 = RANDOM_SPAN * BETA_NUMERATOR;
    assert(draw * factor <= 0xffff_ffff * 8) by (nonlinear_arith)
        requires
            0 <= draw <= 0xffff_ffff,
            factor == 8,
    ;
    let scaled: u64 = (draw as u64 * factor + offset) / BETA_DENOMINATOR;
    scaled as u32
}

/// The number of likes that a transaction has to exceed:
/// `floor(random_number · queries / 2^32)`.
pub open spec fn threshold_of(random_number: u32, queries: nat) -> nat {
    (random_number as nat * queries) / (RANDOM_SPAN as nat)
}

/// Computes `threshold_of`. With at least one query the threshold is below
/// the number of queries, so a transaction that every queried node likes
/// passes it.
pub fn threshold(random_number: u32, number_of_queries: usize) -> (t: usize)
    ensures
        t == threshold_of(random_number, number_of_queries as nat),
        number_of_queries > 0 ==> t < number_of_queries,
        number_of_queries == 0 ==> t == 0,
{
    proof {
        let r = random_number as int;
        let q = number_of_queries as int;
        assert(0 <= r * q <= 0xffff_ffff * q) by (nonlinear_arith)
            requires
                0 <= r <= 0xffff_ffff,
                0 <= q,
        ;
    }
    let product: u128 = random_number as u128 * number_of_queries as u128;
    let quotient: u128 = product / (RANDOM_SPAN as u128);
    quotient as usize
}

/// The threshold stays below `(1 − β)` times the number of queries. It
/// reaches `β` times that number wherever the product of random number and
/// queries reaches the first multiple of 2^32 that makes the quotient a
/// whole number no smaller than `β · queries`; rounding down makes it fall
/// short of that on the other inputs.
pub proof fn lemma_threshold_range(random_number: u32, queries: nat)
    requires
        in_round_range(random_number),
        queries >= 1,
    ensures
        BETA_DENOMINATOR * threshold_of(random_number, queries) < (BETA_DENOMINATOR
            - BETA_NUMERATOR) * queries,
        random_number * queries >= RANDOM_SPAN * ((BETA_NUMERATOR * queries + BETA_DENOMINATOR - 1)
            / BETA_DENOMINATOR as int) ==> BETA_NUMERATOR * queries <= BETA_DENOMINATOR
            * threshold_of(random_number, queries),
{
    let r = random_number as int;
    let q = queries as int;
    let t = threshold_of(random_number, queries) as int;
    let span = RANDOM_SPAN as int;
    assert(t == (r * q) / span);
    assert(0 <= r * q) by (nonlinear_arith)
        requires
            0 <= r,
            0 <= q,
    ;
    assert(t * span <= r * q) by (nonlinear_arith)
        requires
            t == (r * q) / span,
            span > 0,
            0 <= r * q,
    ;
    assert(10 * t < 9 * q) by (nonlinear_arith)
        requires
            t * span <= r * q,
            10 * r < 9 * span,
            q >= 1,
            span > 0,
            t >= 0,
    ;
    let least = (q + 9) / 10;
    if r * q >= span * least {
        assert(t >= least) by (nonlinear_arith)
            requires
                t == (r * q) / span,
                r * q >= span * least,
                span > 0,
        ;
    }
}

/// With at least one query the threshold is below the number of queries,
/// whatever the random number.
pub proof fn lemma_threshold_below_queries(random_number: u32, queries: nat)
    requires
        queries >= 1,
    ensures
        threshold_of(random_number, queries) < queries,
{
    let r = random_number as int;
    let q = queries as int;
    let span = RANDOM_SPAN as int;
    assert((r * q) / span < q) by (nonlinear_arith)
        requires
            0 <= r < span,
            q >= 1,
            span > 0,
    ;
}

} // verus!
