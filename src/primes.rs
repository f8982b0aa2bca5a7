use crate::gcd::{divides, lemma_mod_zero_divides};
use crate::ubigint::UBigInt;
use vstd::arithmetic::div_mod::{lemma_fundamental_div_mod, lemma_fundamental_div_mod_converse};
use vstd::prelude::*;

verus! {

/// `n` is a prime number.
pub open spec fn is_prime_nat(n: nat) -> bool {
    n >= 2 && forall|d: nat| 2 <= d < n ==> #[trigger] (n % d) != 0
}

/// No divisor of `n` lies in `[2, d)`.
pub open spec fn no_divisor_below(n: nat, d: nat) -> bool {
    forall|e: nat| 2 <= e < d ==> #[trigger] (n % e) != 0
}

/// Product of a sequence of naturals.
pub open spec fn product(s: Seq<nat>) -> nat
    decreases s.len(),
{
    if s.len() == 0 {
        1
    } else {
        product(s.drop_last()) * s.last()
    }
}

/// An odd number has no even divisor.
proof fn lemma_odd_no_even_divisor(n: nat, e: nat)
    requires
        n % 2 == 1,
        e >= 2,
        e % 2 == 0,
    ensures
        n % e != 0,
{
    if n % e == 0 {
        lemma_mod_zero_divides(n, e);
        lemma_mod_zero_divides(e, 2);
        let k = choose|k: nat| n == #[trigger] (e * k);
        let j = choose|j: nat| e == #[trigger] (2 * j);
        assert(n == 2 * (j * k)) by (nonlinear_arith)
            requires n == e * k, e == 2 * j;
        assert(divides(2, n));
        lemma_mod_zero_divides(n, 2);
    }
}

/// A divisor of a divisor of `n` divides `n`.
proof fn lemma_divides_trans(a: nat, b: nat, n: nat)
    requires
        a > 0,
        b > 0,
        b % a == 0,
        n % b == 0,
    ensures
        n % a == 0,
{
    lemma_mod_zero_divides(b, a);
    lemma_mod_zero_divides(n, b);
    let k = choose|k: nat| b == #[trigger] (a * k);
    let j = choose|j: nat| n == #[trigger] (b * j);
    assert(n == a * (k * j)) by (nonlinear_arith)
        requires b == a * k, n == b * j;
    assert(divides(a, n));
    lemma_mod_zero_divides(n, a);
}

/// With no divisor in `[2, d)` and `d * d > n`, a number `n >= 2` is prime.
pub proof fn lemma_prime_by_bound(n: nat, d: nat)
    requires
        n >= 2,
        no_divisor_below(n, d),
        d * d > n,
    ensures
        is_prime_nat(n),
{
    assert forall|e: nat| 2 <= e < n implies #[trigger] (n % e) != 0 by {
        if n % e == 0 {
            lemma_fundamental_div_mod(n as int, e as int);
            let f = n / e;
            assert(n == e * f);
            if f <= 1 {
                assert(e * f <= e) by (nonlinear_arith)
                    requires f <= 1, e >= 0;
            }
            assert(n % f == 0) by {
                lemma_fundamental_div_mod_converse(n as int, f as int, e as int, 0);
            }
            if e < d {
                assert(n % e != 0);
            } else if f < d {
                assert(n % f != 0);
            } else {
                assert(e * f >= d * d) by (nonlinear_arith)
                    requires e >= d, f >= d;
            }
        }
    }
}

/// The least divisor above 1 of a number is prime.
proof fn lemma_least_divisor_prime(n: nat, d: nat)
    requires
        d >= 2,
        n % d == 0,
        n > 0,
        no_divisor_below(n, d),
    ensures
        is_prime_nat(d),
{
    assert forall|e: nat| 2 <= e < d implies #[trigger] (d % e) != 0 by {
        if d % e == 0 {
            lemma_divides_trans(e, d, n);
        }
    }
}

/// `d <= n / d` exactly when `d * d <= n`, for `d > 0`.
proof fn lemma_div_square(n: nat, d: nat)
    requires
        d > 0,
    ensures
        (d <= n / d) <==> (d * d <= n),
{
    lemma_fundamental_div_mod(n as int, d as int);
    let q = n / d;
    let r = n % d;
    assert(n == d * q + r && 0 <= r < d);
    assert(d * (q + 1) == d * q + d) by (nonlinear_arith);
    if d <= q {
        assert(d * d <= d * q) by (nonlinear_arith)
            requires d <= q, d > 0;
    } else {
        assert(d * d >= d * (q + 1)) by (nonlinear_arith)
            requires d >= q + 1, d > 0;
    }
    if d * d <= n {
        if d > q {
            assert(false);
        }
    }
}

impl UBigInt {
    /// Whether the value is prime, by trial division up to its square root.
    pub fn is_prime(&self) -> (r: bool)
        requires
            self.wf(),
        ensures
            r == is_prime_nat(self@),
    {
        let ghost n = self@;
        if self.rem_u32(2) == 0 {
            let two = match self.to_u32() {
                Some(v) => v == 2,
                None => false,
            };
            proof {
                if !two && n >= 2 {
                    assert(n % 2 == 0);
                    assert(!is_prime_nat(n));
                }
            }
            return two;
        }
        if self.is_one() {
            return false;
        }
        proof {
            assert(n % 2 == 1);
            if n == 0 {
                assert(0nat % 2 == 0);
            }
        }
        match self.to_u64() {
            Some(m) => {
                let mut d: u64 = 3;
                while d <= m / d
                    invariant
                        m == n,
                        n == self@,
                        n >= 3,
                        n % 2 == 1,
                        d >= 3,
                        d % 2 == 1,
                        d <= 0x1_0000_0001,
                        m <= u64::MAX,
                        no_divisor_below(n, d as nat),
                    decreases m - d,
                {
                    proof {
                        lemma_div_square(m as nat, d as nat);
                        assert(d * d <= m);
                        assert(d < m) by (nonlinear_arith)
                            requires d * d <= m, d >= 3;
                        assert(d <= 0xffff_ffff) by (nonlinear_arith)
                            requires d * d <= m, m <= u64::MAX, d >= 3;
                    }
                    if m % d == 0 {
                        proof {
                            let dn = d as nat;
                            assert(n % dn == 0);
                            assert(2 <= dn < n);
                            assert(!is_prime_nat(n));
                        }
                        return false;
                    }
                    proof {
                        assert forall|e: nat| 2 <= e < d + 2 implies #[trigger] (n % e) != 0 by {
                            if e == d + 1 {
                                lemma_odd_no_even_divisor(n, e);
                            }
                        }
                    }
                    d += 2;
                }
                proof {
                    lemma_div_square(m as nat, d as nat);
                    lemma_prime_by_bound(n, d as nat);
                }
                true
            },
            None => {
                let mut d = UBigInt::from_u32(3);
                while d.mul_ubi(&d).leq_ubi(self)
                    invariant
                        self.wf(),
                        n == self@,
                        n >= 3,
                        n % 2 == 1,
                        d.wf(),
                        d@ >= 3,
                        d@ % 2 == 1,
                        no_divisor_below(n, d@),
                    decreases n - d@,
                {
                    proof {
                        let dd = d@;
                        assert(dd < n) by (nonlinear_arith)
                            requires dd * dd <= n, dd >= 3;
                    }
                    if self.rem_ubi(&d).is_zero() {
                        proof {
                            let dn = d@;
                            assert(n % dn == 0);
                            assert(2 <= dn < n);
                            assert(!is_prime_nat(n));
                        }
                        return false;
                    }
                    proof {
                        let dd = d@;
                        assert forall|e: nat| 2 <= e < dd + 2 implies #[trigger] (n % e) != 0 by {
                            if e == dd + 1 {
                                lemma_odd_no_even_divisor(n, e);
                            }
                        }
                    }
                    d.add_u32_mut(2);
                }
                proof {
                    lemma_prime_by_bound(n, d@);
                }
                true
            },
        }
    }
}


/// The values of a sequence of unsigned integers.
pub open spec fn factor_values(s: Seq<UBigInt>) -> Seq<nat> {
    s.map_values(|u: UBigInt| u@)
}

/// Removing a found factor keeps the absence of small divisors.
proof fn lemma_no_divisor_quotient(m: nat, d: nat, k: nat)
    requires
        no_divisor_below(m, k),
        d > 0,
        m % d == 0,
        m > 0,
    ensures
        no_divisor_below(m / d, k),
{
    lemma_fundamental_div_mod(m as int, d as int);
    let q = m / d;
    assert(m == q * d) by (nonlinear_arith)
        requires m == d * q + 0;
    assert(q > 0) by (nonlinear_arith)
        requires m == q * d, m > 0;
    assert(m % q == 0) by {
        lemma_fundamental_div_mod_converse(m as int, q as int, d as int, 0);
    }
    assert forall|e: nat| 2 <= e < k implies #[trigger] (q % e) != 0 by {
        if q % e == 0 {
            lemma_divides_trans(e, q, m);
        }
    }
}

proof fn lemma_push_factor(r: Seq<UBigInt>, u: UBigInt)
    ensures
        product(factor_values(r.push(u))) == product(factor_values(r)) * u@,
{
    assert(factor_values(r.push(u)).drop_last() =~= factor_values(r));
}

impl UBigInt {
    /// The prime factors with multiplicity, smallest first; 0 and 1 give
    /// themselves as the only entry.
    pub fn prime_factorial(&self) -> (r: Vec<UBigInt>)
        requires
            self.wf(),
        ensures
            forall|i: int| 0 <= i < r@.len() ==> (#[trigger] r@[i]).wf(),
            product(factor_values(r@)) == self@,
            self@ >= 2 ==> forall|i: int| 0 <= i < r@.len() ==> is_prime_nat((#[trigger] r@[i])@),
            self@ < 2 ==> r@.len() == 1 && r@[0]@ == self@,
            forall|i: int, j: int| 0 <= i < j < r@.len() ==> r@[i]@ <= r@[j]@,
    {
        let ghost n = self@;
        let mut result: Vec<UBigInt> = Vec::new();
        if self.lt_u32(2) {
            result.push(self.duplicate());
            proof {
                lemma_push_factor(Seq::empty(), result@[0]);
                assert(Seq::<UBigInt>::empty().push(result@[0]) =~= result@);
                assert(factor_values(Seq::<UBigInt>::empty()) =~= Seq::<nat>::empty());
            }
            return result;
        }
        let mut m = self.duplicate();
        proof {
            assert(factor_values(result@) =~= Seq::<nat>::empty());
            assert(product(Seq::<nat>::empty()) == 1);
            assert(1 * m@ == m@);
        }
        while m.rem_u32(2) == 0 && m.gt_u32(1)
            invariant
                m.wf(),
                n >= 2,
                m@ >= 1,
                product(factor_values(result@)) * m@ == n,
                forall|i: int| 0 <= i < result@.len() ==> (#[trigger] result@[i]).wf() && is_prime_nat(result@[i]@),
                forall|i: int| 0 <= i < result@.len() ==> (#[trigger] result@[i])@ == 2,
            decreases m@,
        {
            let ghost m0 = m@;
            let ghost r0 = result@;
            m.div_u32_mut(2);
            let two = UBigInt::from_u32(2);
            result.push(two);
            proof {
                lemma_fundamental_div_mod(m0 as int, 2);
                lemma_push_factor(r0, two);
                let p = product(factor_values(r0));
                assert(p * m0 == (p * 2) * m@) by (nonlinear_arith)
                    requires m0 == 2 * m@;
                assert(is_prime_nat(2)) by {
                    assert forall|d: nat| 2 <= d < 2 implies #[trigger] (2nat % d) != 0 by {}
                }
            }
        }
        proof {
            assert(m@ % 2 == 1) by {
                if m@ % 2 == 0 {
                    assert(m@ <= 1);
                    assert(m@ == 1);
                }
            }
            assert forall|e: nat| 2 <= e < 3 implies #[trigger] (m@ % e) != 0 by {}
        }
        let mut d = UBigInt::from_u32(3);
        while d.mul_ubi(&d).leq_ubi(&m)
            invariant
                m.wf(),
                d.wf(),
                n >= 2,
                m@ >= 1,
                d@ >= 3,
                d@ % 2 == 1,
                no_divisor_below(m@, d@),
                product(factor_values(result@)) * m@ == n,
                forall|i: int| 0 <= i < result@.len() ==> (#[trigger] result@[i]).wf() && is_prime_nat(result@[i]@),
                forall|i: int| 0 <= i < result@.len() ==> (#[trigger] result@[i])@ <= d@,
                forall|i: int, j: int| 0 <= i < j < result@.len() ==> result@[i]@ <= result@[j]@,
            decreases m@, m@ - d@,
        {
            let ghost m0 = m@;
            let ghost r0 = result@;
            let ghost dd = d@;
            proof {
                assert(dd < m0) by (nonlinear_arith)
                    requires dd * dd <= m0, dd >= 3;
            }
            if m.rem_ubi(&d).is_zero() {
                proof {
                    lemma_least_divisor_prime(m0, dd);
                    lemma_no_divisor_quotient(m0, dd, dd);
                    lemma_fundamental_div_mod(m0 as int, dd as int);
                }
                m.div_ubi_mut(&d);
                let f = d.duplicate();
                result.push(f);
                proof {
                    lemma_push_factor(r0, f);
                    let p = product(factor_values(r0));
                    assert(p * m0 == (p * dd) * m@) by (nonlinear_arith)
                        requires m0 == dd * m@;
                    assert(m@ >= 1) by (nonlinear_arith)
                        requires m0 == dd * m@, m0 >= 1;
                    assert(m@ < m0) by (nonlinear_arith)
                        requires m0 == dd * m@, m@ >= 1, dd >= 3;
                }
            } else {
                proof {
                    assert(m0 % 2 == 1) by {
                        assert(m0 % 2nat != 0);
                    }
                    assert(m0 % dd != 0);
                    assert forall|e: nat| 2 <= e < dd + 2 implies #[trigger] (m0 % e) != 0 by {
                        if e == dd + 1 {
                            lemma_odd_no_even_divisor(m0, e);
                        }
                    }
                }
                d.add_u32_mut(2);
            }
        }
        if m.gt_u32(1) {
            proof {
                lemma_prime_by_bound(m@, d@);
                if m@ < d@ {
                    assert(m@ % m@ == 0) by {
                        lemma_fundamental_div_mod_converse(m@ as int, m@ as int, 1, 0);
                    }
                    assert(no_divisor_below(m@, d@));
                    assert(false);
                }
            }
            let ghost r0 = result@;
            let last = m.duplicate();
            result.push(last);
            proof {
                lemma_push_factor(r0, last);
            }
        } else {
            proof {
                assert(product(factor_values(result@)) * 1 == product(factor_values(result@)));
            }
        }
        result
    }
}

} // verus!
