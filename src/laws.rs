use crate::bigint::BigInt;
use crate::primes::{is_prime_nat, product};
use crate::ratio::Ratio;
use crate::text::{dec_digits, digit_of, int_body, scan, scan_complete, scan_step};
use crate::ubigint::UBigInt;
use vstd::prelude::*;

verus! {

proof fn lemma_scan_digits(x: nat)
    ensures
        scan(dec_digits(x), 10, false).ok,
        scan(dec_digits(x), 10, false).mant == x,
        scan(dec_digits(x), 10, false).int_digits > 0,
        !scan(dec_digits(x), 10, false).dot,
    decreases x,
{
    let s = dec_digits(x);
    vstd::arithmetic::div_mod::lemma_fundamental_div_mod(x as int, 10);
    let c = (x % 10 + 48) as u8;
    assert(digit_of(c, 10) == x % 10);
    if x < 10 {
        assert(s.drop_last() =~= Seq::<u8>::empty());
        assert(s.last() == c);
        assert(x % 10 == x);
        let st = scan(s.drop_last(), 10, false);
        assert(st == scan(Seq::<u8>::empty(), 10, false));
        assert(st.ok && st.mant == 0);
        assert(scan(s, 10, false) == scan_step(st, c, 10, false));
    } else {
        lemma_scan_digits(x / 10);
        assert(s.drop_last() =~= dec_digits(x / 10));
        assert(s.last() == c);
        let st = scan(s.drop_last(), 10, false);
        assert(scan(s, 10, false) == scan_step(st, c, 10, false));
        assert(st.mant * 10 + x % 10 == x);
    }
}

/// Reading back the decimal digits that `UBigInt::to_string` writes gives the
/// same number: the text is complete, decimal, and its digits spell `x`.
pub proof fn law_decimal_round_trip(x: nat)
    ensures
        int_body(dec_digits(x)) == (dec_digits(x), 10nat),
        scan_complete(scan(dec_digits(x), 10, false)),
        scan(dec_digits(x), 10, false).mant == x,
{
    lemma_scan_digits(x);
    if x >= 10 {
        lemma_second_is_digit(x);
    }
}

proof fn lemma_second_is_digit(x: nat)
    requires
        x >= 10,
    ensures
        dec_digits(x).len() >= 2,
        48 <= dec_digits(x)[1] <= 57,
    decreases x,
{
    let q = x / 10;
    let c = (x % 10 + 48) as u8;
    assert(dec_digits(x) == dec_digits(q).push(c));
    if q >= 10 {
        lemma_second_is_digit(q);
    } else {
        assert(dec_digits(q).len() == 1);
    }
}

/// Subtracting `y` from `x + y` gives back `x`, the very same representation.
pub proof fn law_add_sub_round_trip(x: &UBigInt, y: &UBigInt, s: &UBigInt, d: &UBigInt)
    requires
        x.wf(),
        y.wf(),
        s.wf(),
        d.wf(),
        s@ == x@ + y@,
        d@ == s@ - y@,
    ensures
        d.same_limbs(x),
{
    d.lemma_eq_iff_limbs(x);
}

/// Negating twice gives back the same signed integer.
pub proof fn law_neg_neg(x: &BigInt, y: &BigInt, z: &BigInt)
    requires
        x.wf(),
        y.wf(),
        z.wf(),
        y@ == -x@,
        z@ == -y@,
    ensures
        z.same_repr(x),
{
    z.lemma_eq_iff_repr(x);
}

/// Zero has one representation only: it is never negative.
pub proof fn law_zero_canonical(x: &BigInt, z: &BigInt)
    requires
        x.wf(),
        z.wf(),
        x@ == 0,
        z@ == 0,
    ensures
        x.same_repr(z),
{
    x.lemma_eq_iff_repr(z);
}

/// Every well-formed rational has a positive denominator coprime to its numerator.
pub proof fn law_rational_invariant(x: &Ratio)
    requires
        x.wf(),
    ensures
        x@.1 > 0,
        crate::gcd::gcd(crate::bigint::iabs(x@.0), x@.1 as nat) == 1,
{
    x.lemma_wf_parts();
}

/// The reciprocal of the reciprocal of a nonzero rational is the same rational.
pub proof fn law_reci_involution(x: &Ratio, y: &Ratio, z: &Ratio)
    requires
        x.wf(),
        y.wf(),
        z.wf(),
        x@.0 != 0,
        y@ == crate::ratio::reci_view(x@),
        z@ == crate::ratio::reci_view(y@),
    ensures
        z.same_repr(x),
{
    x.lemma_wf_parts();
    z.lemma_eq_iff_repr(x);
}

/// Prime factors that multiply to `n >= 2` number exactly one when `n` is prime.
pub proof fn law_single_factor_iff_prime(n: nat, fs: Seq<nat>)
    requires
        n >= 2,
        product(fs) == n,
        forall|i: int| 0 <= i < fs.len() ==> is_prime_nat(#[trigger] fs[i]),
    ensures
        (fs.len() == 1) <==> is_prime_nat(n),
{
    if fs.len() == 0 {
        assert(product(fs) == 1);
    } else if fs.len() == 1 {
        assert(fs.drop_last() =~= Seq::<nat>::empty());
        assert(product(Seq::<nat>::empty()) == 1);
        assert(product(fs) == 1 * fs[0]);
    } else {
        let rest = fs.drop_last();
        let p = fs.last();
        assert(is_prime_nat(fs[fs.len() - 1]));
        lemma_product_ge_2(rest);
        let q = product(rest);
        assert(n == q * p);
        assert(n % p == 0) by {
            vstd::arithmetic::div_mod::lemma_fundamental_div_mod_converse(n as int, p as int, q as int, 0);
        }
        assert(p < n) by (nonlinear_arith)
            requires n == q * p, q >= 2, p >= 2;
        assert(!is_prime_nat(n));
    }
}

proof fn lemma_product_ge_2(fs: Seq<nat>)
    requires
        fs.len() >= 1,
        forall|i: int| 0 <= i < fs.len() ==> is_prime_nat(#[trigger] fs[i]),
    ensures
        product(fs) >= 2,
    decreases fs.len(),
{
    let rest = fs.drop_last();
    assert(is_prime_nat(fs[fs.len() - 1]));
    if rest.len() == 0 {
        assert(product(rest) == 1);
    } else {
        assert forall|i: int| 0 <= i < rest.len() implies is_prime_nat(#[trigger] rest[i]) by {
            assert(rest[i] == fs[i]);
        }
        lemma_product_ge_2(rest);
    }
    let q = product(rest);
    let p = fs.last();
    assert(q * p >= 2) by (nonlinear_arith)
        requires q >= 1, p >= 2;
}

} // verus!
