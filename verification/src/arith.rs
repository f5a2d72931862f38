//! Index arithmetic on a circular array of `c` slots.
//!
//! Probing walks forward from a bucket, wrapping at the end of the array;
//! these functions and lemmas relate a start slot, a distance walked, and
//! the slot reached.

use vstd::arithmetic::div_mod::lemma_fundamental_div_mod;
use vstd::arithmetic::div_mod::lemma_mod_division_less_than_divisor;
use vstd::arithmetic::div_mod::lemma_mod_multiples_vanish;
use vstd::prelude::*;

verus! {

/// The slot reached by walking `d` steps forward from slot `a`.
pub open spec fn add_idx(a: int, d: int, c: int) -> int {
    (a + d) % c
}

/// The number of steps needed to walk forward from slot `a` to slot `j`.
pub open spec fn dist_idx(a: int, j: int, c: int) -> int {
    (j - a) % c
}

/// The slot just before slot `j`.
pub open spec fn prev_idx(j: int, c: int) -> int {
    (j - 1) % c
}

/// Euclidean remainders by a positive divisor lie in `[0, c)`.
pub proof fn lemma_mod_range(x: int, c: int)
    requires
        c > 0,
    ensures
        0 <= x % c < c,
{
    lemma_mod_division_less_than_divisor(x, c);
}

/// Reducing one addend modulo `c` does not change a sum modulo `c`.
pub proof fn lemma_mod_add_assoc(x: int, y: int, c: int)
    requires
        c > 0,
    ensures
        ((x % c) + y) % c == (x + y) % c,
{
    lemma_fundamental_div_mod(x, c);
    let q = x / c;
    assert(c * (-q) == -(c * q)) by (nonlinear_arith);
    assert((x % c) + y == c * (-q) + (x + y));
    lemma_mod_multiples_vanish(-q, x + y, c);
}

/// A value already in `[0, c)` is its own remainder.
pub proof fn lemma_mod_small(x: int, c: int)
    requires
        0 <= x < c,
    ensures
        x % c == x,
{
    lemma_mod_multiples_vanish(0, x, c);
    lemma_fundamental_div_mod(x, c);
    lemma_mod_range(x, c);
    let q = x / c;
    if q > 0 {
        assert(c * q >= c) by (nonlinear_arith)
            requires
                c > 0 && q > 0,
        ;
    }
    if q < 0 {
        assert(c * q <= -c) by (nonlinear_arith)
            requires
                c > 0 && q < 0,
        ;
    }
}

/// Walking `d1` steps and then `d2` steps is walking `d1 + d2` steps.
pub proof fn lemma_add_add(a: int, d1: int, d2: int, c: int)
    requires
        c > 0,
    ensures
        add_idx(add_idx(a, d1, c), d2, c) == add_idx(a, d1 + d2, c),
{
    lemma_mod_add_assoc(a + d1, d2, c);
}

/// Walking `d < c` steps from `a` covers a distance of exactly `d`.
pub proof fn lemma_dist_add(a: int, d: int, c: int)
    requires
        c > 0,
        0 <= d < c,
    ensures
        dist_idx(a, add_idx(a, d, c), c) == d,
{
    lemma_mod_add_assoc(a + d, -a, c);
    lemma_mod_small(d, c);
}

/// Walking from `a` the distance to `j` arrives at `j`.
pub proof fn lemma_add_dist(a: int, j: int, c: int)
    requires
        c > 0,
        0 <= j < c,
    ensures
        add_idx(a, dist_idx(a, j, c), c) == j,
{
    lemma_mod_add_assoc(j - a, a, c);
    lemma_mod_small(j, c);
}

/// The slot just before `a` is a full circle away from `a`.
pub proof fn lemma_prev_dist(a: int, c: int)
    requires
        c > 0,
    ensures
        dist_idx(a, prev_idx(a, c), c) == c - 1,
{
    lemma_mod_add_assoc(a - 1, -a, c);
    lemma_mod_multiples_vanish(-1, c - 1, c);
    lemma_mod_small(c - 1, c);
}

/// The slot before the one at distance `d >= 1` is the one at distance `d - 1`.
pub proof fn lemma_prev_add(a: int, d: int, c: int)
    requires
        c > 0,
        d >= 1,
    ensures
        prev_idx(add_idx(a, d, c), c) == add_idx(a, d - 1, c),
{
    lemma_mod_add_assoc(a + d, -1, c);
}

} // verus!
