//! Small facts about divisibility used by the sieve.

use vstd::prelude::*;

verus! {

/// Divisibility is transitive: `e | d` and `d | i` give `e | i`.
pub proof fn lemma_divides_trans(i: int, d: int, e: int)
    requires
        i >= 0,
        d > 0,
        e > 0,
        i % d == 0,
        d % e == 0,
    ensures
        i % e == 0,
{
    vstd::arithmetic::div_mod::lemma_fundamental_div_mod(i, d);
    vstd::arithmetic::div_mod::lemma_fundamental_div_mod(d, e);
    let a = i / d;
    let b = d / e;
    assert(i == d * a);
    assert(d == e * b);
    assert(i == (b * a) * e) by (nonlinear_arith)
        requires
            i == d * a,
            d == e * b,
    ;
    vstd::arithmetic::div_mod::lemma_mod_multiples_basic(b * a, e);
}

/// Two distinct non-negative multiples of `p` are at least `p` apart.
pub proof fn lemma_multiples_spaced(a: int, b: int, p: int)
    requires
        p > 0,
        0 <= a < b,
        a % p == 0,
        b % p == 0,
    ensures
        a + p <= b,
{
    vstd::arithmetic::div_mod::lemma_fundamental_div_mod(a, p);
    vstd::arithmetic::div_mod::lemma_fundamental_div_mod(b, p);
    let x = a / p;
    let y = b / p;
    assert(x < y) by (nonlinear_arith)
        requires
            a == p * x,
            b == p * y,
            a < b,
            p > 0,
    ;
    assert(a + p <= b) by (nonlinear_arith)
        requires
            a == p * x,
            b == p * y,
            x + 1 <= y,
            p > 0,
    ;
}

/// Adding `p` keeps the remainder modulo `p`.
pub proof fn lemma_mod_add_self(j: int, p: int)
    requires
        p > 0,
    ensures
        (j + p) % p == j % p,
{
    vstd::arithmetic::div_mod::lemma_mod_add_multiples_vanish(j, p);
}

} // verus!
