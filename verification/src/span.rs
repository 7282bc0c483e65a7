use vstd::prelude::*;

verus! {

/// The largest level a node of a cover tree can have.
pub const MAX_LEVEL: usize = 64;

/// `base` raised to the power `exp`.
pub open spec fn span_pow(base: nat, exp: nat) -> nat
    decreases exp,
{
    if exp == 0 {
        1
    } else {
        base * span_pow(base, (exp - 1) as nat)
    }
}

/// The cover distance of a node at `level` in a tree with the given span factor:
/// `span_factor^level`, saturated at `u64::MAX`.
pub open spec fn covdist(span_factor: u64, level: nat) -> u64 {
    if span_pow(span_factor as nat, level) >= u64::MAX {
        u64::MAX
    } else {
        span_pow(span_factor as nat, level) as u64
    }
}

/// Powers of a base of at least two are at least the powers of two.
pub proof fn lemma_pow_ge_pow2(base: nat, exp: nat)
    requires
        base >= 2,
    ensures
        span_pow(base, exp) >= span_pow(2, exp),
    decreases exp,
{
    if exp > 0 {
        lemma_pow_ge_pow2(base, (exp - 1) as nat);
        let a = span_pow(base, (exp - 1) as nat);
        let b = span_pow(2, (exp - 1) as nat);
        assert(base * a >= 2 * b) by (nonlinear_arith)
            requires
                base >= 2,
                a >= b,
                b >= 0,
        ;
    }
}

/// Powers of two grow with the exponent.
pub proof fn lemma_pow2_monotone(e1: nat, e2: nat)
    requires
        e1 <= e2,
    ensures
        span_pow(2, e1) <= span_pow(2, e2),
    decreases e2,
{
    if e1 < e2 {
        lemma_pow2_monotone(e1, (e2 - 1) as nat);
    }
}

/// A level whose cover distance stays below `bound` is below `limit`, for
/// `bound` at most `2^limit`.
pub proof fn lemma_level_below(span_factor: u64, level: nat, limit: nat, bound: int)
    requires
        span_factor >= 2,
        limit <= 64,
        bound <= span_pow(2, limit),
        covdist(span_factor, level) < bound,
        bound <= u64::MAX,
    ensures
        level < limit,
{
    if level >= limit {
        lemma_pow_ge_pow2(span_factor as nat, level);
        lemma_pow2_monotone(limit, level);
    }
}

/// The value of `2^63` and `2^64`.
pub proof fn lemma_pow2_63_64()
    ensures
        span_pow(2, 63) == 0x8000_0000_0000_0000,
        span_pow(2, 64) == 0x1_0000_0000_0000_0000,
{
    reveal_with_fuel(span_pow, 65);
}

/// The cover distance grows with the level.
pub proof fn lemma_covdist_monotone(span_factor: u64, level: nat)
    requires
        span_factor >= 1,
    ensures
        covdist(span_factor, level) <= covdist(span_factor, level + 1),
{
    let p = span_pow(span_factor as nat, level);
    assert(span_pow(span_factor as nat, level + 1) == span_factor * p);
    assert(span_factor * p >= p) by (nonlinear_arith)
        requires
            span_factor >= 1,
            p >= 0,
    ;
}

/// One level up, the cover distance at least doubles, or is saturated.
pub proof fn lemma_covdist_double(span_factor: u64, level: nat, d: int)
    requires
        span_factor >= 2,
        d <= 2 * covdist(span_factor, level),
        d <= u64::MAX,
    ensures
        d <= covdist(span_factor, level + 1),
{
    let p = span_pow(span_factor as nat, level);
    assert(span_pow(span_factor as nat, level + 1) == span_factor * p);
    assert(span_factor * p >= 2 * p) by (nonlinear_arith)
        requires
            span_factor >= 2,
            p >= 0,
    ;
}

/// One level up, twice the cover distance is at least four times the old
/// one, or is saturated.
pub proof fn lemma_covdist_quad(span_factor: u64, level: nat, d: int)
    requires
        span_factor >= 2,
        d <= 4 * covdist(span_factor, level),
        d <= u64::MAX,
    ensures
        d <= 2 * covdist(span_factor, level + 1),
{
    let p = span_pow(span_factor as nat, level);
    assert(span_pow(span_factor as nat, level + 1) == span_factor * p);
    assert(span_factor * p >= 2 * p) by (nonlinear_arith)
        requires
            span_factor >= 2,
            p >= 0,
    ;
}

} // verus!
