use vstd::arithmetic::div_mod::{lemma_fundamental_div_mod, lemma_fundamental_div_mod_converse};
use vstd::prelude::*;

verus! {

/// Greatest common divisor by Euclid's recurrence; `gcd(a, 0) == a`.
pub open spec fn gcd(a: nat, b: nat) -> nat
    decreases b,
{
    if b == 0 {
        a
    } else {
        gcd(b, a % b)
    }
}

/// `d` divides `n`.
pub open spec fn divides(d: nat, n: nat) -> bool {
    exists|k: nat| n == #[trigger] (d * k)
}

pub proof fn lemma_gcd_sym(a: nat, b: nat)
    ensures
        gcd(a, b) == gcd(b, a),
{
    if a < b {
        assert(a % b == a) by {
            lemma_fundamental_div_mod_converse(a as int, b as int, 0, a as int);
        }
    } else if b < a {
        assert(b % a == b) by {
            lemma_fundamental_div_mod_converse(b as int, a as int, 0, b as int);
        }
    }
}

proof fn lemma_mod_scale(a: nat, b: nat, k: nat)
    requires
        b > 0,
        k > 0,
    ensures
        (k * a) % (k * b) == k * (a % b),
{
    lemma_fundamental_div_mod(a as int, b as int);
    let q = a / b;
    let r = a % b;
    assert(k * a == q * (k * b) + k * r) by (nonlinear_arith)
        requires a == b * q + r;
    assert(k * r < k * b) by (nonlinear_arith)
        requires r < b, k > 0;
    assert(k * b > 0) by (nonlinear_arith)
        requires b > 0, k > 0;
    lemma_fundamental_div_mod_converse((k * a) as int, (k * b) as int, q as int, (k * r) as int);
}

pub proof fn lemma_gcd_scale(a: nat, b: nat, k: nat)
    requires
        k > 0,
    ensures
        gcd(k * a, k * b) == k * gcd(a, b),
    decreases b,
{
    if b == 0 {
        assert(k * b == 0);
    } else {
        assert(k * b > 0) by (nonlinear_arith)
            requires b > 0, k > 0;
        lemma_mod_scale(a, b, k);
        lemma_gcd_scale(b, a % b, k);
    }
}

/// `x % d == 0` exactly when `d` divides `x`.
pub proof fn lemma_mod_zero_divides(x: nat, d: nat)
    requires
        d > 0,
    ensures
        (x % d == 0) <==> divides(d, x),
{
    lemma_fundamental_div_mod(x as int, d as int);
    if x % d == 0 {
        assert(x == d * (x / d));
    }
    if divides(d, x) {
        let k = choose|k: nat| x == #[trigger] (d * k);
        assert(x == k * d + 0) by (nonlinear_arith)
            requires x == d * k;
        lemma_fundamental_div_mod_converse(x as int, d as int, k as int, 0);
    }
}

/// The gcd divides both arguments and is positive unless both are zero.
pub proof fn lemma_gcd_divides(a: nat, b: nat)
    ensures
        divides(gcd(a, b), a),
        divides(gcd(a, b), b),
        (a > 0 || b > 0) ==> gcd(a, b) > 0,
    decreases b,
{
    if b == 0 {
        assert(a == a * 1);
        assert(0 == a * 0);
    } else {
        let r = a % b;
        lemma_gcd_divides(b, r);
        let g = gcd(b, r);
        let k1 = choose|k: nat| b == #[trigger] (g * k);
        let k2 = choose|k: nat| r == #[trigger] (g * k);
        lemma_fundamental_div_mod(a as int, b as int);
        let q = a / b;
        assert(a == g * (q * k1 + k2)) by (nonlinear_arith)
            requires a == b * q + r, b == g * k1, r == g * k2;
        if g == 0 {
            assert(b == 0) by (nonlinear_arith)
                requires b == g * k1, g == 0;
        }
    }
}

/// Dividing both arguments by their gcd leaves coprime values.
pub proof fn lemma_gcd_reduced(a: nat, b: nat)
    requires
        b > 0,
    ensures
        gcd(a, b) > 0,
        a % gcd(a, b) == 0,
        b % gcd(a, b) == 0,
        gcd(a / gcd(a, b), b / gcd(a, b)) == 1,
{
    lemma_gcd_divides(a, b);
    let g = gcd(a, b);
    lemma_mod_zero_divides(a, g);
    lemma_mod_zero_divides(b, g);
    lemma_fundamental_div_mod(a as int, g as int);
    lemma_fundamental_div_mod(b as int, g as int);
    let x = a / g;
    let y = b / g;
    lemma_gcd_scale(x, y, g);
    assert(g * gcd(x, y) == g * 1);
    assert(gcd(x, y) == 1) by (nonlinear_arith)
        requires g * gcd(x, y) == g * 1, g > 0;
}


/// A common divisor of `a` and `b` divides their gcd.
pub proof fn lemma_common_divisor(a: nat, b: nat, c: nat)
    requires
        c > 0,
        a % c == 0,
        b % c == 0,
    ensures
        gcd(a, b) % c == 0,
    decreases b,
{
    if b > 0 {
        lemma_fundamental_div_mod(a as int, b as int);
        lemma_fundamental_div_mod(a as int, c as int);
        lemma_fundamental_div_mod(b as int, c as int);
        let q = a / b;
        let r = a % b;
        let ka = a / c;
        let kb = b / c;
        assert(r == c * (ka - q * kb)) by (nonlinear_arith)
            requires a == b * q + r, a == c * ka, b == c * kb;
        assert(ka - q * kb >= 0) by (nonlinear_arith)
            requires r == c * (ka - q * kb), r >= 0, c > 0;
        lemma_fundamental_div_mod_converse(r as int, c as int, ka - q * kb, 0);
        lemma_common_divisor(b, r, c);
    }
}

/// If `d` divides `n * e` and is coprime to `n`, it divides `e`.
pub proof fn lemma_coprime_divides(n: nat, d: nat, e: nat)
    requires
        d > 0,
        e > 0,
        gcd(n, d) == 1,
        (n * e) % d == 0,
    ensures
        e % d == 0,
{
    lemma_gcd_scale(n, d, e);
    assert(e * n == n * e && e * d == d * e) by (nonlinear_arith);
    assert((d * e) % d == 0) by {
        lemma_fundamental_div_mod_converse((d * e) as int, d as int, e as int, 0);
    }
    lemma_common_divisor(e * n, e * d, d);
}

/// Two coprime fractions with positive denominators and equal cross products
/// are the same fraction.
pub proof fn lemma_reduced_unique(n1: nat, d1: nat, n2: nat, d2: nat)
    requires
        d1 > 0,
        d2 > 0,
        gcd(n1, d1) == 1,
        gcd(n2, d2) == 1,
        n1 * d2 == n2 * d1,
    ensures
        n1 == n2,
        d1 == d2,
{
    assert((n1 * d2) % d1 == 0) by {
        lemma_fundamental_div_mod_converse((n1 * d2) as int, d1 as int, n2 as int, 0);
    }
    lemma_coprime_divides(n1, d1, d2);
    assert((n2 * d1) % d2 == 0) by {
        lemma_fundamental_div_mod_converse((n2 * d1) as int, d2 as int, n1 as int, 0);
    }
    lemma_coprime_divides(n2, d2, d1);
    lemma_fundamental_div_mod(d2 as int, d1 as int);
    lemma_fundamental_div_mod(d1 as int, d2 as int);
    let k1 = d2 / d1;
    let k2 = d1 / d2;
    assert(d1 == d2) by (nonlinear_arith)
        requires d2 == d1 * k1, d1 == d2 * k2, d1 > 0, d2 > 0, k1 >= 0, k2 >= 0;
    assert(n1 == n2) by (nonlinear_arith)
        requires n1 * d2 == n2 * d1, d1 == d2, d1 > 0;
}

} // verus!
