use crate::bigint::{iabs, BigInt};
use crate::ratio::{same_value, Ratio};
use crate::ubigint::UBigInt;
use crate::ubigint_funcs::{factorial_of, log2_accurate_of};
use vstd::arithmetic::div_mod::{lemma_fundamental_div_mod, lemma_fundamental_div_mod_converse};
use vstd::arithmetic::power::pow;
use vstd::prelude::*;

verus! {

/// Sum of two fractions, unreduced.
pub open spec fn radd(a: (int, int), b: (int, int)) -> (int, int) {
    (a.0 * b.1 + b.0 * a.1, a.1 * b.1)
}

/// Product of two fractions, unreduced.
pub open spec fn rmul(a: (int, int), b: (int, int)) -> (int, int) {
    (a.0 * b.0, a.1 * b.1)
}

/// `a` raised to an integer power of either sign.
pub open spec fn rpow_int(a: (int, int), n: int) -> (int, int) {
    if n >= 0 {
        (pow(a.0, n as nat), pow(a.1, n as nat))
    } else {
        (pow(a.1, (-n) as nat), pow(a.0, (-n) as nat))
    }
}

/// The `j`-th Taylor term of the exponential at `x`: `x^j / j!`.
pub open spec fn exp_term(x: (int, int), j: nat) -> (int, int) {
    (pow(x.0, j), pow(x.1, j) * factorial_of(j))
}

/// The first `n` terms of the Taylor series of the exponential at `x`.
pub open spec fn exp_partial(x: (int, int), n: nat) -> (int, int)
    decreases n,
{
    if n == 0 {
        (0, 1)
    } else {
        radd(exp_partial(x, (n - 1) as nat), exp_term(x, (n - 1) as nat))
    }
}

/// The first `n` terms of `ln 2 = 2 atanh(1/3) = sum 2 / ((2j+1) 3^(2j+1))`.
pub open spec fn ln2_partial(n: nat) -> (int, int)
    decreases n,
{
    if n == 0 {
        (0, 1)
    } else {
        let j = (n - 1) as nat;
        radd(ln2_partial(j), (2, (2 * j + 1) * pow(3, 2 * j + 1)))
    }
}

/// The first `n` terms of `ln(1 + a) = a - a^2/2 + a^3/3 - ...`.
pub open spec fn ln1p_partial(a: (int, int), n: nat) -> (int, int)
    decreases n,
{
    if n == 0 {
        (0, 1)
    } else {
        let j = n as int;
        let sign = if j % 2 == 1 { 1int } else { -1int };
        radd(ln1p_partial(a, (n - 1) as nat), (sign * pow(a.0, n), pow(a.1, n) * j))
    }
}

/// `e` to `iter` terms: `2 * iter` terms of its series.
pub open spec fn e_value(iter: nat) -> (int, int) {
    exp_partial((1, 1), 2 * iter)
}

/// `ln 2` to `iter` terms.
pub open spec fn ln2_value(iter: nat) -> (int, int) {
    ln2_partial(2 * iter)
}

/// `exp(x)` to `iter` terms: `e^floor(x)` times the series at the fractional part.
pub open spec fn exp_value(x: (int, int), iter: nat) -> (int, int) {
    let f = x.0 / x.1;
    rmul(rpow_int(e_value(iter), f), exp_partial((x.0 - f * x.1, x.1), 2 * iter))
}

/// `ln(x)` to `iter` terms, once `x` is written as `2^m * (1 + a)`.
pub open spec fn ln_value(m: int, a: (int, int), iter: nat) -> (int, int) {
    radd(ln1p_partial(a, 2 * iter + 1), rmul((m, 1), ln2_value(iter)))
}

pub proof fn lemma_same_value_trans(a: (int, int), b: (int, int), c: (int, int))
    requires
        same_value(a, b),
        same_value(b, c),
        b.1 != 0,
    ensures
        same_value(a, c),
{
    assert(a.0 * c.1 * b.1 == c.0 * a.1 * b.1) by (nonlinear_arith)
        requires a.0 * b.1 == b.0 * a.1, b.0 * c.1 == c.0 * b.1;
    assert(a.0 * c.1 == c.0 * a.1) by (nonlinear_arith)
        requires a.0 * c.1 * b.1 == c.0 * a.1 * b.1, b.1 != 0;
}

proof fn lemma_distrib4(x: int, y: int, z: int, w: int, u: int, v: int)
    ensures
        (x * y + z * w) * (u * v) == (x * u) * (y * v) + (z * v) * (w * u),
{
    assert((x * y + z * w) * (u * v) == (x * y) * (u * v) + (z * w) * (u * v)) by (nonlinear_arith);
    assert((x * y) * (u * v) == (x * u) * (y * v)) by (nonlinear_arith);
    assert((z * w) * (u * v) == (z * v) * (w * u)) by (nonlinear_arith);
}

pub proof fn lemma_add_congr(a: (int, int), b: (int, int), c: (int, int), d: (int, int))
    requires
        same_value(a, c),
        same_value(b, d),
    ensures
        same_value(radd(a, b), radd(c, d)),
{
    let (a0, a1, b0, b1, c0, c1, d0, d1) = (a.0, a.1, b.0, b.1, c.0, c.1, d.0, d.1);
    lemma_distrib4(a0, b1, b0, a1, c1, d1);
    lemma_distrib4(c0, d1, d0, c1, a1, b1);
    assert(a0 * c1 * (b1 * d1) == c0 * a1 * (b1 * d1));
    assert(b0 * d1 * (a1 * c1) == d0 * b1 * (a1 * c1));
    assert((a1 * c1) == (c1 * a1)) by (nonlinear_arith);
    assert((b1 * d1) == (d1 * b1)) by (nonlinear_arith);
    assert(b1 * d1 * (c1 * a1) == (c1 * a1) * (b1 * d1)) by (nonlinear_arith);
}

pub proof fn lemma_mul_congr(a: (int, int), b: (int, int), c: (int, int), d: (int, int))
    requires
        same_value(a, c),
        same_value(b, d),
    ensures
        same_value(rmul(a, b), rmul(c, d)),
{
    assert((a.0 * b.0) * (c.1 * d.1) == (c.0 * d.0) * (a.1 * b.1)) by (nonlinear_arith)
        requires a.0 * c.1 == c.0 * a.1, b.0 * d.1 == d.0 * b.1;
}

/// Scaling the numerators, or the denominators, of two equal fractions by one factor.
pub proof fn lemma_scale(a: (int, int), b: (int, int), k: int)
    requires
        same_value(a, b),
    ensures
        same_value((a.0, a.1 * k), (b.0, b.1 * k)),
        same_value((a.0 * k, a.1), (b.0 * k, b.1)),
{
    assert(a.0 * (b.1 * k) == b.0 * (a.1 * k)) by (nonlinear_arith)
        requires a.0 * b.1 == b.0 * a.1;
    assert((a.0 * k) * b.1 == (b.0 * k) * a.1) by (nonlinear_arith)
        requires a.0 * b.1 == b.0 * a.1;
}

/// `ln 2` by `2 * iter` terms of `2 atanh(1/3)`.
pub fn ln2_iter(iter: usize) -> (r: Ratio)
    requires
        iter <= 0xffff_ffff,
    ensures
        r.wf(),
        same_value(r@, ln2_value(iter as nat)),
{
    let n: u64 = 2 * iter as u64;
    let mut acc = Ratio::zero();
    let mut t = Ratio::from_denom_and_numer_i32(3, 1);
    let mut j: u64 = 0;
    proof {
        reveal_with_fuel(pow, 3);
        reveal_with_fuel(ln2_partial, 1);
    }
    while j < n
        invariant
            n == 2 * iter,
            j <= n,
            n <= 0x2_0000_0000,
            acc.wf(),
            t.wf(),
            same_value(acc@, ln2_partial(j as nat)),
            same_value(t@, (1, pow(3, (2 * j + 1) as nat))),
        decreases n - j,
    {
        let m2 = t.mul_i32(2);
        let term = m2.div_bi(&BigInt::from_ubi(UBigInt::from_u64(2 * j + 1), false));
        let ghost a0 = acc@;
        proof {
            acc.lemma_wf_parts();
            m2.lemma_wf_parts();
            term.lemma_wf_parts();
        }
        acc = acc.add_rat(&term);
        let ghost t0 = t@;
        proof {
            t.lemma_wf_parts();
        }
        t = t.div_i32(9);
        proof {
            let jj = j as nat;
            let p = pow(3, 2 * jj + 1);
            let q = (2 * jj + 1) as int;
            vstd::arithmetic::power::lemma_pow_positive(3, 2 * jj + 1);
            m2.lemma_wf_parts();
            t.lemma_wf_parts();
            term.lemma_wf_parts();
            acc.lemma_wf_parts();
            let tm = (2int, q * p);
            // term ~ (m2.0, m2.1 * q) ~ (t0.0 * 2, t0.1 * q) ~ (2, p * q)
            assert(m2@.1 * q != 0) by (nonlinear_arith)
                requires m2@.1 > 0, q > 0;
            lemma_scale(m2@, (t0.0 * 2, t0.1), q);
            lemma_same_value_trans(term@, (m2@.0, m2@.1 * q), (t0.0 * 2, t0.1 * q));
            lemma_mul_congr(t0, (2, q), (1, p), (2, q));
            assert(rmul(t0, (2, q)) == (t0.0 * 2, t0.1 * q));
            assert(rmul((1, p), (2int, q)) == (2int, p * q)) by (nonlinear_arith);
            assert(p * q == q * p) by (nonlinear_arith);
            assert(t0.1 * q != 0) by (nonlinear_arith)
                requires t0.1 > 0, q > 0;
            lemma_same_value_trans(term@, (t0.0 * 2, t0.1 * q), tm);
            lemma_add_congr(a0, term@, ln2_partial(jj), tm);
            assert(ln2_partial(jj + 1) == radd(ln2_partial(jj), tm));
            assert(a0.1 * term@.1 != 0) by (nonlinear_arith)
                requires a0.1 > 0, term@.1 > 0;
            lemma_same_value_trans(acc@, radd(a0, term@), ln2_partial(jj + 1));
            // t ~ (t0.0, t0.1 * 9) ~ (1, p * 9)
            lemma_scale(t0, (1, p), 9);
            assert(t0.1 * 9 != 0);
            lemma_same_value_trans(t@, (t0.0, t0.1 * 9), (1, p * 9));
            vstd::arithmetic::power::lemma_pow_adds(3, 2 * jj + 1, 2);
            assert(pow(3, 2) == 9) by {
                reveal_with_fuel(pow, 3);
            }
            assert((2 * jj + 1) + 2 == 2 * (jj + 1) + 1);
        }
        j += 1;
    }
    acc
}


proof fn lemma_factorial_pos(n: nat)
    ensures
        factorial_of(n) >= 1,
    decreases n,
{
    if n > 0 {
        lemma_factorial_pos((n - 1) as nat);
        assert(n * factorial_of((n - 1) as nat) >= 1) by (nonlinear_arith)
            requires n >= 1, factorial_of((n - 1) as nat) >= 1;
    }
}

/// Equal fractions raised to one power stay equal.
proof fn lemma_pow_congr(a: (int, int), b: (int, int), j: nat)
    requires
        same_value(a, b),
    ensures
        pow(a.0, j) * pow(b.1, j) == pow(b.0, j) * pow(a.1, j),
{
    vstd::arithmetic::power::lemma_pow_distributes(a.0, b.1, j);
    vstd::arithmetic::power::lemma_pow_distributes(b.0, a.1, j);
}

proof fn lemma_exp_partial_congr(a: (int, int), b: (int, int), n: nat)
    requires
        same_value(a, b),
        a.1 > 0,
        b.1 > 0,
    ensures
        same_value(exp_partial(a, n), exp_partial(b, n)),
    decreases n,
{
    if n > 0 {
        let j = (n - 1) as nat;
        lemma_exp_partial_congr(a, b, j);
        lemma_pow_congr(a, b, j);
        let f = factorial_of(j);
        assert(pow(a.0, j) * (pow(b.1, j) * f) == pow(b.0, j) * (pow(a.1, j) * f)) by (nonlinear_arith)
            requires pow(a.0, j) * pow(b.1, j) == pow(b.0, j) * pow(a.1, j);
        lemma_add_congr(exp_partial(a, j), exp_term(a, j), exp_partial(b, j), exp_term(b, j));
    }
}

proof fn lemma_exp_partial_denom(a: (int, int), n: nat)
    requires
        a.1 > 0,
    ensures
        exp_partial(a, n).1 > 0,
        exp_term(a, n).1 > 0,
    decreases n,
{
    vstd::arithmetic::power::lemma_pow_positive(a.1, n);
    lemma_factorial_pos(n);
    assert(pow(a.1, n) * factorial_of(n) > 0) by (nonlinear_arith)
        requires pow(a.1, n) > 0, factorial_of(n) >= 1;
    if n > 0 {
        lemma_exp_partial_denom(a, (n - 1) as nat);
        let p = exp_partial(a, (n - 1) as nat).1;
        let q = exp_term(a, (n - 1) as nat).1;
        assert(p * q > 0) by (nonlinear_arith)
            requires p > 0, q > 0;
    }
}

/// The first `n` terms of the exponential series at `x`.
fn exp_taylor(x: &Ratio, n: u64) -> (r: Ratio)
    requires
        x.wf(),
    ensures
        r.wf(),
        same_value(r@, exp_partial(x@, n as nat)),
{
    let mut acc = Ratio::zero();
    let mut t = Ratio::one();
    let mut j: u64 = 0;
    proof {
        x.lemma_wf_parts();
        reveal_with_fuel(pow, 1);
        reveal_with_fuel(factorial_of, 1);
    }
    while j < n
        invariant
            j <= n,
            x.wf(),
            x@.1 > 0,
            acc.wf(),
            t.wf(),
            same_value(acc@, exp_partial(x@, j as nat)),
            same_value(t@, exp_term(x@, j as nat)),
        decreases n - j,
    {
        let ghost a0 = acc@;
        let ghost t0 = t@;
        proof {
            acc.lemma_wf_parts();
            t.lemma_wf_parts();
        }
        acc = acc.add_rat(&t);
        let tx = t.mul_rat(x);
        proof {
            tx.lemma_wf_parts();
        }
        t = tx.div_bi(&BigInt::from_ubi(UBigInt::from_u64(j + 1), false));
        proof {
            let jj = j as nat;
            let k = (jj + 1) as int;
            lemma_exp_partial_denom(x@, jj);
            lemma_exp_partial_denom(x@, jj + 1);
            acc.lemma_wf_parts();
            t.lemma_wf_parts();
            // the sum
            lemma_add_congr(a0, t0, exp_partial(x@, jj), exp_term(x@, jj));
            assert(a0.1 * t0.1 != 0) by (nonlinear_arith)
                requires a0.1 > 0, t0.1 > 0;
            lemma_same_value_trans(acc@, radd(a0, t0), exp_partial(x@, jj + 1));
            // the next term
            let et = exp_term(x@, jj);
            lemma_mul_congr(t0, x@, et, x@);
            lemma_scale(tx@, rmul(t0, x@), k);
            assert(tx@.1 * k != 0) by (nonlinear_arith)
                requires tx@.1 > 0, k > 0;
            lemma_same_value_trans(t@, (tx@.0, tx@.1 * k), (rmul(t0, x@).0, rmul(t0, x@).1 * k));
            lemma_scale(rmul(t0, x@), rmul(et, x@), k);
            assert(t0.1 * x@.1 * k != 0) by (nonlinear_arith)
                requires t0.1 > 0, x@.1 > 0, k > 0;
            lemma_same_value_trans(t@, (rmul(t0, x@).0, rmul(t0, x@).1 * k), (rmul(et, x@).0, rmul(et, x@).1 * k));
            let nt = exp_term(x@, jj + 1);
            assert(pow(x@.0, jj + 1) == x@.0 * pow(x@.0, jj)) by {
                reveal(pow);
            }
            assert(pow(x@.1, jj + 1) == x@.1 * pow(x@.1, jj)) by {
                reveal(pow);
            }
            assert(factorial_of(jj + 1) == k * factorial_of(jj));
            let p0 = pow(x@.0, jj);
            let p1 = pow(x@.1, jj);
            let fj = factorial_of(jj);
            assert(p0 * x@.0 == x@.0 * p0) by (nonlinear_arith);
            assert(p1 * fj * x@.1 * k == x@.1 * p1 * (k * fj)) by (nonlinear_arith);
            assert((rmul(et, x@).0, rmul(et, x@).1 * k) == nt);
        }
        j += 1;
    }
    acc
}

/// `e` by `2 * iter` terms of its series.
pub fn e_iter(iter: usize) -> (r: Ratio)
    requires
        iter <= 0xffff_ffff,
    ensures
        r.wf(),
        same_value(r@, e_value(iter as nat)),
{
    let one = Ratio::one();
    exp_taylor(&one, 2 * iter as u64)
}


proof fn lemma_rpow_congr(a: (int, int), b: (int, int), n: int)
    requires
        same_value(a, b),
    ensures
        same_value(rpow_int(a, n), rpow_int(b, n)),
{
    if n >= 0 {
        lemma_pow_congr(a, b, n as nat);
    } else {
        let m = (-n) as nat;
        lemma_pow_congr(a, b, m);
        let (x, y, z, w) = (pow(a.0, m), pow(b.1, m), pow(b.0, m), pow(a.1, m));
        assert(w * z == y * x) by (nonlinear_arith)
            requires x * y == z * w;
    }
}

proof fn lemma_e_value_pos(n: nat)
    requires
        n >= 1,
    ensures
        exp_partial((1, 1), n).0 > 0,
        exp_partial((1, 1), n).1 > 0,
    decreases n,
{
    let j = (n - 1) as nat;
    lemma_exp_partial_denom((1, 1), j);
    vstd::arithmetic::power::lemma_pow1(1);
    assert(pow(1, j) == 1) by {
        vstd::arithmetic::power::lemma1_pow(j);
    }
    let t = exp_term((1, 1), j);
    let p = exp_partial((1, 1), j);
    if j >= 1 {
        lemma_e_value_pos(j);
        assert(p.0 * t.1 + t.0 * p.1 > 0) by (nonlinear_arith)
            requires p.0 > 0, t.1 > 0, t.0 == 1, p.1 > 0;
    } else {
        assert(p == (0int, 1int));
    }
    assert(p.1 * t.1 > 0) by (nonlinear_arith)
        requires p.1 > 0, t.1 > 0;
}

proof fn lemma_pow_nonzero(b: int, e: nat)
    requires
        b != 0,
    ensures
        pow(b, e) != 0,
    decreases e,
{
    reveal(pow);
    if e > 0 {
        lemma_pow_nonzero(b, (e - 1) as nat);
        assert(b * pow(b, (e - 1) as nat) != 0) by (nonlinear_arith)
            requires b != 0, pow(b, (e - 1) as nat) != 0;
    }
}

/// `b` raised to an integer power of either sign.
fn pow_int(b: &Ratio, n: &BigInt) -> (r: Ratio)
    requires
        b.wf(),
        n.wf(),
        b@.0 != 0 || n@ >= 0,
    ensures
        r.wf(),
        same_value(r@, rpow_int(b@, n@)),
{
    let k = n.magnitude();
    let mut acc = Ratio::one();
    let mut cnt = k.duplicate();
    proof {
        b.lemma_wf_parts();
        vstd::arithmetic::power::lemma_pow0(b@.0);
        vstd::arithmetic::power::lemma_pow0(b@.1);
    }
    while !cnt.is_zero()
        invariant
            b.wf(),
            b@.1 > 0,
            k.wf(),
            cnt.wf(),
            acc.wf(),
            cnt@ <= k@,
            same_value(acc@, (pow(b@.0, (k@ - cnt@) as nat), pow(b@.1, (k@ - cnt@) as nat))),
        decreases cnt@,
    {
        let ghost a0 = acc@;
        let ghost e = (k@ - cnt@) as nat;
        proof {
            acc.lemma_wf_parts();
        }
        acc = acc.mul_rat(b);
        cnt.sub_u32_mut(1);
        proof {
            lemma_mul_congr(a0, b@, (pow(b@.0, e), pow(b@.1, e)), b@);
            assert(a0.1 * b@.1 != 0) by (nonlinear_arith)
                requires a0.1 > 0, b@.1 > 0;
            lemma_same_value_trans(acc@, rmul(a0, b@), rmul((pow(b@.0, e), pow(b@.1, e)), b@));
            assert(pow(b@.0, e + 1) == b@.0 * pow(b@.0, e)) by {
                reveal(pow);
            }
            assert(pow(b@.1, e + 1) == b@.1 * pow(b@.1, e)) by {
                reveal(pow);
            }
            assert((k@ - cnt@) as nat == e + 1);
            assert(pow(b@.0, e) * b@.0 == b@.0 * pow(b@.0, e)) by (nonlinear_arith);
            assert(pow(b@.1, e) * b@.1 == b@.1 * pow(b@.1, e)) by (nonlinear_arith);
        }
    }
    proof {
        assert(k@ - cnt@ == iabs(n@));
        acc.lemma_wf_parts();
    }
    if n.is_neg() {
        proof {
            vstd::arithmetic::power::lemma_pow_positive(b@.1, k@);
            if acc@.0 == 0 {
                assert(pow(b@.0, k@) * acc@.1 == 0);
                assert(pow(b@.0, k@) != 0) by {
                    lemma_pow_nonzero(b@.0, k@);
                }
                assert(false) by (nonlinear_arith)
                    requires pow(b@.0, k@) * acc@.1 == 0, pow(b@.0, k@) != 0, acc@.1 > 0;
            }
        }
        let r = acc.reci();
        proof {
            let p0 = pow(b@.0, k@);
            let p1 = pow(b@.1, k@);
            assert(r@.0 * p0 == p1 * r@.1) by (nonlinear_arith)
                requires
                    acc@.0 * p1 == p0 * acc@.1,
                    r@.0 == (if acc@.0 < 0 { -acc@.1 } else { acc@.1 }),
                    r@.1 == (if acc@.0 < 0 { -acc@.0 } else { acc@.0 });
        }
        r
    } else {
        acc
    }
}

/// `exp(x)` by `e^floor(x)` times `2 * iter` terms of the series at the
/// fractional part. With `iter == 0` the series of `e` would be empty and
/// `e` zero, which a negative integer part would divide by; so `iter >= 1`.
pub fn exp_iter(x: &Ratio, iter: usize) -> (r: Ratio)
    requires
        x.wf(),
        1 <= iter <= 0xffff_ffff,
    ensures
        r.wf(),
        same_value(r@, exp_value(x@, iter as nat)),
{
    let n: u64 = 2 * iter as u64;
    let e = e_iter(iter);
    let fl = x.floor_bi();
    let f = x.sub_rat(&Ratio::from_bi(fl.duplicate()));
    proof {
        e.lemma_wf_parts();
        x.lemma_wf_parts();
        f.lemma_wf_parts();
        lemma_e_value_pos(n as nat);
        if e@.0 == 0 {
            let ev = e_value(iter as nat);
            assert(ev.0 * e@.1 == 0);
            assert(false) by (nonlinear_arith)
                requires ev.0 * e@.1 == 0, ev.0 > 0, e@.1 > 0;
        }
    }
    let ep = pow_int(&e, &fl);
    let t = exp_taylor(&f, n);
    let r = ep.mul_rat(&t);
    proof {
        let fv = (x@.0 - fl@ * x@.1, x@.1);
        let ev = e_value(iter as nat);
        assert(fv == (x@.0 * 1 - fl@ * x@.1, x@.1 * 1));
        lemma_exp_partial_congr(f@, fv, n as nat);
        lemma_exp_partial_denom(f@, n as nat);
        lemma_exp_partial_denom(fv, n as nat);
        lemma_same_value_trans(t@, exp_partial(f@, n as nat), exp_partial(fv, n as nat));
        lemma_rpow_congr(e@, ev, fl@);
        ep.lemma_wf_parts();
        t.lemma_wf_parts();
        let rp = rpow_int(e@, fl@);
        vstd::arithmetic::power::lemma_pow_positive(e@.1, iabs(fl@));
        if fl@ < 0 {
            assert(e@.0 > 0) by (nonlinear_arith)
                requires e@.0 * ev.1 == ev.0 * e@.1, ev.0 > 0, ev.1 > 0, e@.1 > 0;
            vstd::arithmetic::power::lemma_pow_positive(e@.0, iabs(fl@));
        }
        assert(rp.1 != 0);
        lemma_same_value_trans(ep@, rp, rpow_int(ev, fl@));
        lemma_mul_congr(ep@, t@, rpow_int(ev, fl@), exp_partial(fv, n as nat));
        assert(ep@.1 * t@.1 != 0) by (nonlinear_arith)
            requires ep@.1 > 0, t@.1 > 0;
        lemma_same_value_trans(r@, rmul(ep@, t@), exp_value(x@, iter as nat));
    }
    r
}


proof fn lemma_same_value_sym(a: (int, int), b: (int, int))
    requires
        same_value(a, b),
    ensures
        same_value(b, a),
{
}

/// The first `n` terms of the series of `ln(1 + a)`.
fn ln1p_series(a: &Ratio, n: u64) -> (r: Ratio)
    requires
        a.wf(),
    ensures
        r.wf(),
        same_value(r@, ln1p_partial(a@, n as nat)),
{
    let mut acc = Ratio::zero();
    let mut p = Ratio::one();
    let mut j: u64 = 0;
    proof {
        a.lemma_wf_parts();
        reveal_with_fuel(pow, 1);
    }
    while j < n
        invariant
            j <= n,
            a.wf(),
            a@.1 > 0,
            acc.wf(),
            p.wf(),
            same_value(acc@, ln1p_partial(a@, j as nat)),
            same_value(p@, (pow(a@.0, j as nat), pow(a@.1, j as nat))),
        decreases n - j,
    {
        let ghost p0 = p@;
        let ghost acc0 = acc@;
        proof {
            p.lemma_wf_parts();
            acc.lemma_wf_parts();
        }
        p = p.mul_rat(a);
        let q = p.div_bi(&BigInt::from_ubi(UBigInt::from_u64(j + 1), false));
        let term = if (j + 1) % 2 == 0 { q.neg() } else { q.duplicate() };
        acc = acc.add_rat(&term);
        proof {
            let jj = j as nat;
            let k = (jj + 1) as int;
            let pj = (pow(a@.0, jj), pow(a@.1, jj));
            let pk = (pow(a@.0, jj + 1), pow(a@.1, jj + 1));
            p.lemma_wf_parts();
            q.lemma_wf_parts();
            term.lemma_wf_parts();
            vstd::arithmetic::power::lemma_pow_positive(a@.1, jj);
            vstd::arithmetic::power::lemma_pow_positive(a@.1, jj + 1);
            assert(pow(a@.0, jj + 1) == a@.0 * pow(a@.0, jj)) by {
                reveal(pow);
            }
            assert(pow(a@.1, jj + 1) == a@.1 * pow(a@.1, jj)) by {
                reveal(pow);
            }
            // p ~ pk
            lemma_mul_congr(p0, a@, pj, a@);
            assert(p0.1 * a@.1 != 0) by (nonlinear_arith)
                requires p0.1 > 0, a@.1 > 0;
            lemma_same_value_trans(p@, rmul(p0, a@), rmul(pj, a@));
            assert(rmul(pj, a@).0 == pk.0 && rmul(pj, a@).1 == pk.1) by (nonlinear_arith)
                requires pk.0 == a@.0 * pj.0, pk.1 == a@.1 * pj.1;
            // q ~ (pk.0, pk.1 * k)
            lemma_scale(p@, pk, k);
            assert(p@.1 * k != 0) by (nonlinear_arith)
                requires p@.1 > 0, k > 0;
            lemma_same_value_trans(q@, (p@.0, p@.1 * k), (pk.0, pk.1 * k));
            let sign = if k % 2 == 1 { 1int } else { -1int };
            let tk = (sign * pk.0, pk.1 * k);
            if k % 2 == 1 {
                assert(term@ == q@);
            } else {
                assert(term@ == (-q@.0, q@.1));
                lemma_scale(q@, (pk.0, pk.1 * k), -1);
                assert(-q@.0 == q@.0 * -1);
                assert(sign * pk.0 == pk.0 * -1);
            }
            assert(same_value(term@, tk));
            lemma_add_congr(acc0, term@, ln1p_partial(a@, jj), tk);
            assert(acc0.1 * term@.1 != 0) by (nonlinear_arith)
                requires acc0.1 > 0, term@.1 > 0;
            lemma_same_value_trans(acc@, radd(acc0, term@), ln1p_partial(a@, jj + 1));
        }
        j += 1;
    }
    acc
}

/// The floor of `n / d` only depends on the value of the fraction.
proof fn lemma_floor_congr(v: (int, int), w: (int, int))
    requires
        same_value(v, w),
        v.1 > 0,
        w.1 > 0,
    ensures
        v.0 / v.1 == w.0 / w.1,
{
    lemma_fundamental_div_mod(w.0, w.1);
    let q = w.0 / w.1;
    let rr = w.0 % w.1;
    assert((v.0 - q * v.1) * w.1 == rr * v.1) by (nonlinear_arith)
        requires v.0 * w.1 == w.0 * v.1, w.0 == w.1 * q + rr;
    assert(0 <= v.0 - q * v.1) by (nonlinear_arith)
        requires (v.0 - q * v.1) * w.1 == rr * v.1, rr >= 0, v.1 > 0, w.1 > 0;
    assert(v.0 - q * v.1 < v.1) by (nonlinear_arith)
        requires (v.0 - q * v.1) * w.1 == rr * v.1, rr < w.1, v.1 > 0, w.1 > 0;
    lemma_fundamental_div_mod_converse(v.0, v.1, q, v.0 - q * v.1);
}

/// The power of two that `ln_iter` divides `x` by: the floor of the
/// difference of the `log2_accurate` estimates of numerator and denominator,
/// over `2^24`.
pub open spec fn ln_exponent(x: (int, int)) -> int {
    (log2_accurate_of(iabs(x.0)) - log2_accurate_of(x.1 as nat)) / 16777216
}

/// `x / 2^m - 1`, the argument of the series of `ln(1 + a)`.
pub open spec fn ln_arg(x: (int, int), m: int) -> (int, int) {
    let q = rpow_int((2, 1), -m);
    (x.0 * q.0 - x.1 * q.1, x.1 * q.1)
}

/// `ln(x)` to `iter` terms, as `ln_iter` computes it.
pub open spec fn ln_spec(x: (int, int), iter: nat) -> (int, int) {
    let m = ln_exponent(x);
    ln_value(m, ln_arg(x, m), iter)
}

proof fn lemma_ln1p_partial_denom(a: (int, int), n: nat)
    requires
        a.1 > 0,
    ensures
        ln1p_partial(a, n).1 > 0,
    decreases n,
{
    if n > 0 {
        lemma_ln1p_partial_denom(a, (n - 1) as nat);
        vstd::arithmetic::power::lemma_pow_positive(a.1, n);
        let p = ln1p_partial(a, (n - 1) as nat).1;
        let q = pow(a.1, n);
        assert(p * (q * n) > 0) by (nonlinear_arith)
            requires p > 0, q > 0, n > 0;
    }
}

proof fn lemma_ln1p_partial_congr(a: (int, int), b: (int, int), n: nat)
    requires
        same_value(a, b),
    ensures
        same_value(ln1p_partial(a, n), ln1p_partial(b, n)),
    decreases n,
{
    if n > 0 {
        lemma_ln1p_partial_congr(a, b, (n - 1) as nat);
        lemma_pow_congr(a, b, n);
        let j = n as int;
        let sign = if j % 2 == 1 { 1int } else { -1int };
        let (x, y, z, w) = (pow(a.0, n), pow(b.1, n), pow(b.0, n), pow(a.1, n));
        assert((sign * x) * (y * j) == (sign * z) * (w * j)) by (nonlinear_arith)
            requires x * y == z * w;
        lemma_add_congr(ln1p_partial(a, (n - 1) as nat), (sign * x, w * j), ln1p_partial(b, (n - 1) as nat), (sign * z, y * j));
    }
}

proof fn lemma_ln2_partial_denom(n: nat)
    ensures
        ln2_partial(n).1 > 0,
    decreases n,
{
    if n > 0 {
        let j = (n - 1) as nat;
        lemma_ln2_partial_denom(j);
        vstd::arithmetic::power::lemma_pow_positive(3, 2 * j + 1);
        let p = ln2_partial(j).1;
        let q = pow(3, 2 * j + 1);
        assert(p * ((2 * j + 1) * q) > 0) by (nonlinear_arith)
            requires p > 0, q > 0;
    }
}

/// `ln_spec` has a positive denominator.
pub proof fn lemma_ln_spec_denom(x: (int, int), iter: nat)
    requires
        x.1 > 0,
    ensures
        ln_spec(x, iter).1 > 0,
{
    let m = ln_exponent(x);
    let q = rpow_int((2, 1), -m);
    let k = iabs(m);
    vstd::arithmetic::power::lemma_pow_positive(2, k);
    vstd::arithmetic::power::lemma1_pow(k);
    assert(q.1 > 0);
    let la = ln_arg(x, m);
    assert(la.1 > 0) by (nonlinear_arith)
        requires la.1 == x.1 * q.1, x.1 > 0, q.1 > 0;
    lemma_ln1p_partial_denom(la, 2 * iter + 1);
    lemma_ln2_partial_denom(2 * iter);
    let p1 = ln1p_partial(la, 2 * iter + 1).1;
    let p2 = ln2_value(iter).1;
    assert(p1 * (1 * p2) > 0) by (nonlinear_arith)
        requires p1 > 0, p2 > 0;
}

/// `ln(x)` for `x >= 0`: `x` is scaled by a power of two `2^m` estimated
/// with `log2_accurate` so that `x = 2^m (1 + a)` with `a` near zero, then
/// `2 * iter + 1` terms of the series of `ln(1 + a)` are added to `m ln 2`.
pub fn ln_iter(x: &Ratio, iter: usize) -> (r: Ratio)
    requires
        x.wf(),
        x@.0 >= 0,
        iter <= 0xffff_ffff,
    ensures
        r.wf(),
        same_value(r@, ln_spec(x@, iter as nat)),
{
    let la_n = x.numer().magnitude().log2_accurate();
    let la_d = x.denom().magnitude().log2_accurate();
    let diff = BigInt::from_ubi(la_n, false).sub_bi(&BigInt::from_ubi(la_d, false));
    let mrat = Ratio::from_denom_and_numer(BigInt::from_u32(16777216), diff.duplicate());
    let m = mrat.floor_bi();
    proof {
        mrat.lemma_wf_parts();
    }
    let two = Ratio::from_i32(2);
    let scale = pow_int(&two, &m.neg());
    let xi = x.mul_rat(&scale);
    let a = xi.sub_i32(1);
    let n: u64 = 2 * iter as u64 + 1;
    let series = ln1p_series(&a, n);
    let ln2 = ln2_iter(iter);
    let ln2m = ln2.mul_bi(&m);
    let r = series.add_rat(&ln2m);
    proof {
        x.lemma_wf_parts();
        scale.lemma_wf_parts();
        xi.lemma_wf_parts();
        a.lemma_wf_parts();
        series.lemma_wf_parts();
        ln2.lemma_wf_parts();
        ln2m.lemma_wf_parts();
        let mm = m@;
        let pp = rpow_int((2, 1), mm);
        let qq = rpow_int((2, 1), -mm);
        let kk = iabs(mm);
        vstd::arithmetic::power::lemma_pow_positive(2, kk);
        vstd::arithmetic::power::lemma1_pow(kk);
        vstd::arithmetic::power::lemma_pow0(2);
        vstd::arithmetic::power::lemma_pow0(1);
        let t2 = pow(2, kk);
        if mm > 0 {
            assert(pp == (t2, 1int));
            assert(qq == (1int, t2));
        } else if mm == 0 {
            assert(pp == (1int, 1int));
            assert(qq == (1int, 1int));
        } else {
            assert(pp == (1int, t2));
            assert(qq == (t2, 1int));
        }
        assert(pp.0 * qq.0 == pp.1 * qq.1 && pp.1 > 0 && qq.1 > 0) by (nonlinear_arith)
            requires
                (pp == (t2, 1int) && qq == (1int, t2)) || (pp == (1int, 1int) && qq == (1int, 1int)) || (pp == (1int, t2) && qq == (t2, 1int)),
                t2 > 0;
        // xi ~ rmul(x, qq)
        lemma_mul_congr(x@, scale@, x@, qq);
        assert(x@.1 * scale@.1 != 0) by (nonlinear_arith)
            requires x@.1 > 0, scale@.1 > 0;
        lemma_same_value_trans(xi@, rmul(x@, scale@), rmul(x@, qq));
        // the value
        let lv = ln2_value(iter as nat);
        lemma_mul_congr((mm, 1), ln2@, (mm, 1), lv);
        assert(same_value(ln2m@, rmul((mm, 1), ln2@))) by (nonlinear_arith)
            requires ln2m@.0 * ln2@.1 == (ln2@.0 * mm) * ln2m@.1;
        assert(rmul((mm, 1), ln2@).1 != 0) by (nonlinear_arith)
            requires ln2@.1 > 0;
        lemma_same_value_trans(ln2m@, rmul((mm, 1), ln2@), rmul((mm, 1), lv));
        lemma_add_congr(series@, ln2m@, ln1p_partial(a@, n as nat), rmul((mm, 1), lv));
        assert(series@.1 * ln2m@.1 != 0) by (nonlinear_arith)
            requires series@.1 > 0, ln2m@.1 > 0;
        lemma_same_value_trans(r@, radd(series@, ln2m@), ln_value(mm, a@, iter as nat));
        // the exponent used is the stated one
        let dd = (16777216int, 1int);
        assert(diff@ == log2_accurate_of(iabs(x@.0)) - log2_accurate_of(x@.1 as nat));
        lemma_floor_congr(mrat@, (diff@, 16777216int));
        assert(mm == ln_exponent(x@));
        // the series argument is the stated one
        let la = ln_arg(x@, mm);
        let xq = rmul(x@, qq);
        assert(la == (xq.0 - xq.1, xq.1));
        assert(same_value(a@, la)) by (nonlinear_arith)
            requires
                a@.0 * xi@.1 == (xi@.0 - 1 * xi@.1) * a@.1,
                xi@.0 * xq.1 == xq.0 * xi@.1,
                xi@.1 > 0,
                la == (xq.0 - xq.1, xq.1);
        assert(la.1 > 0) by (nonlinear_arith)
            requires la.1 == x@.1 * qq.1, x@.1 > 0, qq.1 > 0;
        lemma_ln1p_partial_congr(a@, la, n as nat);
        lemma_ln1p_partial_denom(a@, n as nat);
        lemma_ln2_partial_denom(2 * iter as nat);
        lemma_add_congr(ln1p_partial(a@, n as nat), rmul((mm, 1), lv), ln1p_partial(la, n as nat), rmul((mm, 1), lv));
        let mid = ln_value(mm, a@, iter as nat);
        assert(mid.1 > 0) by (nonlinear_arith)
            requires mid.1 == ln1p_partial(a@, n as nat).1 * (1 * lv.1), ln1p_partial(a@, n as nat).1 > 0, lv.1 > 0;
        lemma_same_value_trans(r@, mid, ln_spec(x@, iter as nat));
    }
    r
}

proof fn lemma_exp_value_denom(x: (int, int), iter: nat)
    requires
        x.1 > 0,
        iter >= 1,
    ensures
        exp_value(x, iter).1 > 0,
{
    let f = x.0 / x.1;
    let e = e_value(iter);
    lemma_e_value_pos(2 * iter);
    let k = iabs(f);
    vstd::arithmetic::power::lemma_pow_positive(e.0, k);
    vstd::arithmetic::power::lemma_pow_positive(e.1, k);
    let rp = rpow_int(e, f);
    assert(rp.1 > 0);
    lemma_exp_partial_denom((x.0 - f * x.1, x.1), 2 * iter);
    let q = exp_partial((x.0 - f * x.1, x.1), 2 * iter).1;
    assert(rp.1 * q > 0) by (nonlinear_arith)
        requires rp.1 > 0, q > 0;
}

/// `exp_value` only depends on the value of its argument.
proof fn lemma_exp_value_congr(x: (int, int), y: (int, int), iter: nat)
    requires
        same_value(x, y),
        x.1 > 0,
        y.1 > 0,
        iter >= 1,
    ensures
        same_value(exp_value(x, iter), exp_value(y, iter)),
{
    lemma_floor_congr(x, y);
    let f = x.0 / x.1;
    let fx = (x.0 - f * x.1, x.1);
    let fy = (y.0 - f * y.1, y.1);
    assert(same_value(fx, fy)) by (nonlinear_arith)
        requires x.0 * y.1 == y.0 * x.1, fx == (x.0 - f * x.1, x.1), fy == (y.0 - f * y.1, y.1);
    lemma_exp_partial_congr(fx, fy, 2 * iter);
    let rp = rpow_int(e_value(iter), f);
    lemma_mul_congr(rp, exp_partial(fx, 2 * iter), rp, exp_partial(fy, 2 * iter));
}

/// `a^b` as `exp(b ln a)` at one iteration budget; zero for `a == 0`,
/// whatever `b` and `iter`.
pub fn pow_iter(a: &Ratio, b: &Ratio, iter: usize) -> (r: Ratio)
    requires
        a.wf(),
        b.wf(),
        a@.0 >= 0,
        iter <= 0xffff_ffff,
        a@.0 != 0 ==> 1 <= iter,
    ensures
        r.wf(),
        a@.0 == 0 ==> r@ == (0int, 1int),
        a@.0 != 0 ==> same_value(r@, exp_value(rmul(b@, ln_spec(a@, iter as nat)), iter as nat)),
{
    if a.is_zero() {
        return Ratio::zero();
    }
    let l = ln_iter(a, iter);
    let p = b.mul_rat(&l);
    let r = exp_iter(&p, iter);
    proof {
        a.lemma_wf_parts();
        b.lemma_wf_parts();
        l.lemma_wf_parts();
        p.lemma_wf_parts();
        let ls = ln_spec(a@, iter as nat);
        lemma_ln_spec_denom(a@, iter as nat);
        lemma_mul_congr(b@, l@, b@, ls);
        assert(b@.1 * l@.1 != 0) by (nonlinear_arith)
            requires b@.1 > 0, l@.1 > 0;
        lemma_same_value_trans(p@, rmul(b@, l@), rmul(b@, ls));
        assert(rmul(b@, ls).1 > 0) by (nonlinear_arith)
            requires b@.1 > 0, ls.1 > 0;
        lemma_exp_value_congr(p@, rmul(b@, ls), iter as nat);
        let ev = exp_value(p@, iter as nat);
        lemma_exp_value_denom(p@, iter as nat);
        lemma_same_value_trans(r@, ev, exp_value(rmul(b@, ls), iter as nat));
    }
    r
}

} // verus!
