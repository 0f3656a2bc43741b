//! Greatest common divisors of natural numbers, as Euclid's remainder algorithm computes them.
use vstd::arithmetic::div_mod::{
    lemma_fundamental_div_mod, lemma_mod_multiples_basic, lemma_truncate_middle,
};
use vstd::prelude::*;

verus! {

/// The greatest common divisor, by repeatedly replacing `(a, b)` with `(b, a % b)`.
pub open spec fn gcd(a: nat, b: nat) -> nat
    decreases b,
{
    if b == 0 {
        a
    } else {
        gcd(b, a % b)
    }
}

/// The gcd of two numbers, not both zero, is positive and divides both.
pub proof fn lemma_gcd_divides(a: nat, b: nat)
    requires
        a > 0 || b > 0,
    ensures
        gcd(a, b) > 0,
        a % gcd(a, b) == 0,
        b % gcd(a, b) == 0,
    decreases b,
{
    if b == 0 {
        lemma_mod_multiples_basic(1, a as int);
    } else {
        let r = a % b;
        lemma_gcd_divides(b, r);
        let g = gcd(b, r) as int;
        lemma_fundamental_div_mod(a as int, b as int);
        lemma_fundamental_div_mod(b as int, g);
        lemma_fundamental_div_mod(r as int, g);
        let k = (b as int / g) * (a as int / b as int) + r as int / g;
        assert(a as int == k * g) by (nonlinear_arith)
            requires
                a as int == b as int * (a as int / b as int) + r as int,
                b as int == g * (b as int / g),
                r as int == g * (r as int / g),
                k == (b as int / g) * (a as int / b as int) + r as int / g,
        ;
        lemma_mod_multiples_basic(k, g);
    }
}

/// Scaling both arguments scales the gcd.
pub proof fn lemma_gcd_scale(a: nat, b: nat, k: nat)
    requires
        k > 0,
    ensures
        gcd(a * k, b * k) == gcd(a, b) * k,
    decreases b,
{
    if b == 0 {
        assert(b * k == 0);
    } else {
        assert(b * k > 0) by (nonlinear_arith)
            requires
                b > 0,
                k > 0,
        ;
        lemma_truncate_middle(a as int, k as int, b as int);
        assert(k * a == a * k && k * b == b * k && k * (a % b) == (a % b) * k);
        assert((a * k) % (b * k) == (a % b) * k);
        lemma_gcd_scale(b, a % b, k);
    }
}

/// Dividing two numbers, not both zero, by their gcd leaves numbers whose gcd is one.
pub proof fn lemma_gcd_quotients_coprime(a: nat, b: nat)
    requires
        a > 0 || b > 0,
    ensures
        gcd(a / gcd(a, b), b / gcd(a, b)) == 1,
{
    let g = gcd(a, b);
    lemma_gcd_divides(a, b);
    lemma_fundamental_div_mod(a as int, g as int);
    lemma_fundamental_div_mod(b as int, g as int);
    let x = a / g;
    let y = b / g;
    assert(x * g == a && y * g == b) by (nonlinear_arith)
        requires
            a as int == g * (a as int / g as int) + 0,
            b as int == g * (b as int / g as int) + 0,
            x == a / g,
            y == b / g,
    ;
    lemma_gcd_scale(x, y, g);
    let h = gcd(x, y);
    assert(h == 1) by (nonlinear_arith)
        requires
            h * g == g,
            g > 0,
    ;
}

} // verus!
