use crate::bigint::{iabs, trunc_div, trunc_rem, BigInt};
use crate::gcd::{gcd, lemma_gcd_reduced, lemma_gcd_sym};
use crate::ubigint_funcs::gcd_ubi;
use vstd::prelude::*;

verus! {

/// Two (numerator, denominator) pairs with nonzero denominators name the same rational.
pub open spec fn same_value(a: (int, int), b: (int, int)) -> bool {
    a.0 * b.1 == b.0 * a.1
}

/// `n / d` rounded to the nearest integer, halves away from zero.
pub open spec fn round_half_away(n: int, d: int) -> int {
    let m = ((2 * iabs(n) + d) / (2 * d)) as int;
    if n < 0 {
        -m
    } else {
        m
    }
}

/// The reciprocal of a nonzero fraction, the sign kept on the numerator.
pub open spec fn reci_view(v: (int, int)) -> (int, int) {
    (if v.0 < 0 { -v.1 } else { v.1 }, iabs(v.0) as int)
}

/// A rational in lowest terms, its sign carried by the numerator.
#[derive(Clone, Debug)]
pub struct Ratio {
    denom: BigInt,
    numer: BigInt,
}

impl View for Ratio {
    type V = (int, int);

    closed spec fn view(&self) -> (int, int) {
        (self.numer@, self.denom@)
    }
}

impl PartialEq for Ratio {
    fn eq(&self, o: &Ratio) -> (r: bool) {
        self.numer == o.numer && self.denom == o.denom
    }
}

impl vstd::std_specs::cmp::PartialEqSpecImpl for Ratio {
    open spec fn obeys_eq_spec() -> bool {
        true
    }

    open spec fn eq_spec(&self, o: &Ratio) -> bool {
        self.same_repr(o)
    }
}

impl Ratio {
    /// Positive denominator, numerator and denominator coprime.
    pub closed spec fn wf(&self) -> bool {
        &&& self.numer.wf()
        &&& self.denom.wf()
        &&& self.denom@ > 0
        &&& gcd(iabs(self.numer@), self.denom@ as nat) == 1
    }

    pub closed spec fn same_repr(&self, o: &Ratio) -> bool {
        self.numer.same_repr(&o.numer) && self.denom.same_repr(&o.denom)
    }

    /// Well-formed values are equal exactly when their representations are.
    pub proof fn lemma_eq_iff_repr(&self, o: &Ratio)
        requires
            self.wf(),
            o.wf(),
        ensures
            self.same_repr(o) <==> (self@ == o@),
    {
        self.numer.lemma_eq_iff_repr(&o.numer);
        self.denom.lemma_eq_iff_repr(&o.denom);
    }

    /// Well-formed values that name the same rational have the same representation.
    pub proof fn lemma_canonical(&self, o: &Ratio)
        requires
            self.wf(),
            o.wf(),
            same_value(self@, o@),
        ensures
            self@ == o@,
            self.same_repr(o),
    {
        let (n1, d1) = self@;
        let (n2, d2) = o@;
        assert(iabs(n1) * d2 == iabs(n2) * d1) by (nonlinear_arith)
            requires n1 * d2 == n2 * d1, d1 > 0, d2 > 0,
                iabs(n1) == (if n1 < 0 { -n1 } else { n1 }), iabs(n2) == (if n2 < 0 { -n2 } else { n2 });
        crate::gcd::lemma_reduced_unique(iabs(n1), d1 as nat, iabs(n2), d2 as nat);
        assert((n1 < 0) == (n2 < 0)) by (nonlinear_arith)
            requires n1 * d2 == n2 * d1, d1 > 0, d2 > 0;
        self.lemma_eq_iff_repr(o);
    }

    /// Every well-formed value has a positive denominator coprime to its numerator.
    pub proof fn lemma_wf_parts(&self)
        requires
            self.wf(),
        ensures
            self@.1 > 0,
            gcd(iabs(self@.0), self@.1 as nat) == 1,
    {
    }

    /// `numer / denom` reduced to lowest terms.
    pub fn from_denom_and_numer(denom: BigInt, numer: BigInt) -> (r: Ratio)
        requires
            denom.wf(),
            numer.wf(),
            denom@ != 0,
        ensures
            r.wf(),
            same_value(r@, (numer@, denom@)),
    {
        let g = BigInt::from_ubi(gcd_ubi(&numer.magnitude(), &denom.magnitude()), false);
        proof {
            lemma_gcd_reduced(iabs(numer@), iabs(denom@));
        }
        let n = numer.div_bi(&g);
        let d = denom.div_bi(&g);
        proof {
            let gg = g@;
            assert(numer@ == gg * n@ && denom@ == gg * d@) by {
                vstd::arithmetic::div_mod::lemma_fundamental_div_mod(iabs(numer@) as int, gg);
                vstd::arithmetic::div_mod::lemma_fundamental_div_mod(iabs(denom@) as int, gg);
                let qa = (iabs(numer@) / iabs(gg)) as int;
                let qb = (iabs(denom@) / iabs(gg)) as int;
                assert(gg * (-qa) == -(gg * qa) && gg * (-qb) == -(gg * qb)) by (nonlinear_arith);
            }
            assert(iabs(n@) == iabs(numer@) / (gg as nat));
            assert(iabs(d@) == iabs(denom@) / (gg as nat));
            assert(n@ * denom@ == numer@ * d@) by (nonlinear_arith)
                requires numer@ == gg * n@, denom@ == gg * d@;
            assert(d@ != 0) by (nonlinear_arith)
                requires denom@ == gg * d@, denom@ != 0;
        }
        if d.is_neg() {
            let r = Ratio { denom: d.neg(), numer: n.neg() };
            proof {
                assert((-n@) * denom@ == numer@ * (-d@)) by (nonlinear_arith)
                    requires n@ * denom@ == numer@ * d@;
            }
            r
        } else {
            Ratio { denom: d, numer: n }
        }
    }

    pub fn from_denom_and_numer_i32(denom: i32, numer: i32) -> (r: Ratio)
        requires
            denom != 0,
        ensures
            r.wf(),
            same_value(r@, (numer as int, denom as int)),
    {
        Ratio::from_denom_and_numer(BigInt::from_i32(denom), BigInt::from_i32(numer))
    }

    /// The integer `n`.
    pub fn from_bi(n: BigInt) -> (r: Ratio)
        requires
            n.wf(),
        ensures
            r.wf(),
            r@ == (n@, 1int),
    {
        proof {
            assert(gcd(iabs(n@), 1) == 1) by {
                reveal_with_fuel(gcd, 2);
                assert(iabs(n@) % 1 == 0);
            }
        }
        Ratio { denom: BigInt::one(), numer: n }
    }

    pub fn from_i32(n: i32) -> (r: Ratio)
        ensures
            r.wf(),
            r@ == (n as int, 1int),
    {
        Ratio::from_bi(BigInt::from_i32(n))
    }

    pub fn zero() -> (r: Ratio)
        ensures
            r.wf(),
            r@ == (0int, 1int),
    {
        Ratio::from_i32(0)
    }

    pub fn one() -> (r: Ratio)
        ensures
            r.wf(),
            r@ == (1int, 1int),
    {
        Ratio::from_i32(1)
    }

    /// A copy of the value.
    pub fn duplicate(&self) -> (r: Ratio)
        ensures
            r@ == self@,
            r.wf() == self.wf(),
    {
        Ratio { denom: self.denom.duplicate(), numer: self.numer.duplicate() }
    }

    pub fn numer(&self) -> (r: BigInt)
        requires
            self.wf(),
        ensures
            r.wf(),
            r@ == self@.0,
    {
        self.numer.duplicate()
    }

    pub fn denom(&self) -> (r: BigInt)
        requires
            self.wf(),
        ensures
            r.wf(),
            r@ == self@.1,
    {
        self.denom.duplicate()
    }

    pub fn is_neg(&self) -> (r: bool)
        requires
            self.wf(),
        ensures
            r == (self@.0 < 0),
    {
        self.numer.is_neg()
    }

    pub fn is_zero(&self) -> (r: bool)
        requires
            self.wf(),
        ensures
            r == (self@.0 == 0),
    {
        self.numer.is_zero()
    }

    pub fn is_integer(&self) -> (r: bool)
        requires
            self.wf(),
        ensures
            r == (self@.1 == 1),
    {
        self.denom.is_one()
    }

    pub fn neg(&self) -> (r: Ratio)
        requires
            self.wf(),
        ensures
            r.wf(),
            r@ == (-self@.0, self@.1),
    {
        Ratio { denom: self.denom.duplicate(), numer: self.numer.neg() }
    }

    pub fn neg_mut(&mut self)
        requires
            old(self).wf(),
        ensures
            final(self).wf(),
            final(self)@ == (-old(self)@.0, old(self)@.1),
    {
        *self = self.neg();
    }

    pub fn abs(&self) -> (r: Ratio)
        requires
            self.wf(),
        ensures
            r.wf(),
            r@ == (iabs(self@.0) as int, self@.1),
    {
        Ratio { denom: self.denom.duplicate(), numer: self.numer.abs() }
    }

    pub fn abs_mut(&mut self)
        requires
            old(self).wf(),
        ensures
            final(self).wf(),
            final(self)@ == (iabs(old(self)@.0) as int, old(self)@.1),
    {
        *self = self.abs();
    }

    /// `1 / self`; the numerator keeps the sign.
    pub fn reci(&self) -> (r: Ratio)
        requires
            self.wf(),
            self@.0 != 0,
        ensures
            r.wf(),
            r@ == reci_view(self@),
    {
        proof {
            lemma_gcd_sym(iabs(self@.0), self@.1 as nat);
        }
        if self.numer.is_neg() {
            Ratio { denom: self.numer.neg(), numer: self.denom.neg() }
        } else {
            Ratio { denom: self.numer.duplicate(), numer: self.denom.duplicate() }
        }
    }

    pub fn reci_mut(&mut self)
        requires
            old(self).wf(),
            old(self)@.0 != 0,
        ensures
            final(self).wf(),
            final(self)@ == reci_view(old(self)@),
    {
        *self = self.reci();
    }

    /// The integer part, rounded toward zero.
    pub fn truncate_bi(&self) -> (r: BigInt)
        requires
            self.wf(),
        ensures
            r.wf(),
            r@ == trunc_div(self@.0, self@.1),
    {
        self.numer.div_bi(&self.denom)
    }

    pub fn truncate(&self) -> (r: Ratio)
        requires
            self.wf(),
        ensures
            r.wf(),
            r@ == (trunc_div(self@.0, self@.1), 1int),
    {
        Ratio::from_bi(self.truncate_bi())
    }

    pub fn truncate_mut(&mut self)
        requires
            old(self).wf(),
        ensures
            final(self).wf(),
            final(self)@ == (trunc_div(old(self)@.0, old(self)@.1), 1int),
    {
        *self = self.truncate();
    }

    /// `self - truncate(self)`: same denominator, the remainder as numerator.
    pub fn frac(&self) -> (r: Ratio)
        requires
            self.wf(),
        ensures
            r.wf(),
            r@ == (trunc_rem(self@.0, self@.1), self@.1),
    {
        let rem = self.numer.rem_bi(&self.denom);
        proof {
            self.lemma_rem_coprime();
        }
        Ratio { denom: self.denom.duplicate(), numer: rem }
    }

    proof fn lemma_rem_coprime(&self)
        requires
            self.wf(),
        ensures
            gcd(iabs(trunc_rem(self@.0, self@.1)), self@.1 as nat) == 1,
    {
        let ghost n = self@.0;
        let ghost d = self@.1;
        let q = (iabs(n) / iabs(d)) as int;
        vstd::arithmetic::div_mod::lemma_fundamental_div_mod(iabs(n) as int, d);
        assert(d * (-q) == -(d * q)) by (nonlinear_arith);
        assert(iabs(trunc_rem(n, d)) == iabs(n) % (d as nat));
        lemma_gcd_sym(iabs(n) % (d as nat), d as nat);
    }

    pub fn frac_mut(&mut self)
        requires
            old(self).wf(),
        ensures
            final(self).wf(),
            final(self)@ == (trunc_rem(old(self)@.0, old(self)@.1), old(self)@.1),
    {
        *self = self.frac();
    }

    /// Both `truncate_bi` and `frac`, from one division.
    pub fn truncate_and_frac(&self) -> (r: (BigInt, Ratio))
        requires
            self.wf(),
        ensures
            r.0.wf(),
            r.1.wf(),
            r.0@ == trunc_div(self@.0, self@.1),
            r.1@ == (trunc_rem(self@.0, self@.1), self@.1),
    {
        let (q, rem) = self.numer.div_rem_bi(&self.denom);
        proof {
            self.lemma_rem_coprime();
        }
        (q, Ratio { denom: self.denom.duplicate(), numer: rem })
    }

    /// The largest integer not above `self`.
    pub fn floor_bi(&self) -> (r: BigInt)
        requires
            self.wf(),
        ensures
            r.wf(),
            r@ == self@.0 / self@.1,
    {
        let ghost n = self@.0;
        let ghost d = self@.1;
        proof {
            let q = (iabs(n) / iabs(d)) as int;
            let f = (iabs(n) % iabs(d)) as int;
            vstd::arithmetic::div_mod::lemma_fundamental_div_mod(iabs(n) as int, d);
            if n >= 0 {
                vstd::arithmetic::div_mod::lemma_fundamental_div_mod_converse(n, d, q, f);
            } else if f == 0 {
                assert(n == (-q) * d + 0) by (nonlinear_arith)
                    requires n == -(d * q + f), f == 0;
                vstd::arithmetic::div_mod::lemma_fundamental_div_mod_converse(n, d, -q, 0);
            } else {
                assert(n == (-q - 1) * d + (d - f)) by (nonlinear_arith)
                    requires n == -(d * q + f);
                vstd::arithmetic::div_mod::lemma_fundamental_div_mod_converse(n, d, -q - 1, d - f);
            }
        }
        if self.numer.is_neg() {
            if self.is_integer() {
                proof {
                    vstd::arithmetic::div_mod::lemma_fundamental_div_mod_converse(n, 1, n, 0);
                }
                self.numer.duplicate()
            } else {
                proof {
                    if iabs(n) % (d as nat) == 0 {
                        reveal_with_fuel(gcd, 2);
                        assert(gcd(iabs(n), d as nat) == gcd(d as nat, 0));
                    }
                }
                self.truncate_bi().sub_i32(1)
            }
        } else {
            self.truncate_bi()
        }
    }

    pub fn floor(&self) -> (r: Ratio)
        requires
            self.wf(),
        ensures
            r.wf(),
            r@ == (self@.0 / self@.1, 1int),
    {
        Ratio::from_bi(self.floor_bi())
    }

    /// The nearest integer; a half goes away from zero.
    pub fn round_bi(&self) -> (r: BigInt)
        requires
            self.wf(),
        ensures
            r.wf(),
            r@ == round_half_away(self@.0, self@.1),
    {
        let (trun, frac) = self.truncate_and_frac();
        let numer_double_abs = frac.numer.mul_i32(2).abs();
        let ghost n = self@.0;
        let ghost d = self@.1;
        let ghost q = (iabs(n) / iabs(d)) as int;
        let ghost f = (iabs(n) % iabs(d)) as int;
        proof {
            vstd::arithmetic::div_mod::lemma_fundamental_div_mod(iabs(n) as int, d);
            assert(d * (-q) == -(d * q)) by (nonlinear_arith);
            assert(iabs(frac@.0) == f);
            assert(numer_double_abs@ == 2 * f);
        }
        if numer_double_abs.comp_bi(&frac.denom) == -1 {
            proof {
                assert(2 * iabs(n) + d == q * (2 * d) + (2 * f + d)) by (nonlinear_arith)
                    requires iabs(n) == d * q + f;
                vstd::arithmetic::div_mod::lemma_fundamental_div_mod_converse(2 * iabs(n) + d, 2 * d, q, 2 * f + d);
            }
            trun
        } else {
            proof {
                assert(2 * iabs(n) + d == (q + 1) * (2 * d) + (2 * f - d)) by (nonlinear_arith)
                    requires iabs(n) == d * q + f;
                vstd::arithmetic::div_mod::lemma_fundamental_div_mod_converse(2 * iabs(n) + d, 2 * d, q + 1, 2 * f - d);
            }
            if self.numer.is_neg() {
                trun.sub_i32(1)
            } else {
                trun.add_i32(1)
            }
        }
    }

    pub fn round(&self) -> (r: Ratio)
        requires
            self.wf(),
        ensures
            r.wf(),
            r@ == (round_half_away(self@.0, self@.1), 1int),
    {
        Ratio::from_bi(self.round_bi())
    }

    pub fn add_rat(&self, o: &Ratio) -> (r: Ratio)
        requires
            self.wf(),
            o.wf(),
        ensures
            r.wf(),
            same_value(r@, (self@.0 * o@.1 + o@.0 * self@.1, self@.1 * o@.1)),
    {
        let n = self.numer.mul_bi(&o.denom).add_bi(&o.numer.mul_bi(&self.denom));
        let d = self.denom.mul_bi(&o.denom);
        proof {
            assert(d@ > 0) by (nonlinear_arith)
                requires d@ == self@.1 * o@.1, self@.1 > 0, o@.1 > 0;
        }
        Ratio::from_denom_and_numer(d, n)
    }

    pub fn add_rat_mut(&mut self, o: &Ratio)
        requires
            old(self).wf(),
            o.wf(),
        ensures
            final(self).wf(),
            same_value(final(self)@, (old(self)@.0 * o@.1 + o@.0 * old(self)@.1, old(self)@.1 * o@.1)),
    {
        *self = self.add_rat(o);
    }

    pub fn sub_rat(&self, o: &Ratio) -> (r: Ratio)
        requires
            self.wf(),
            o.wf(),
        ensures
            r.wf(),
            same_value(r@, (self@.0 * o@.1 - o@.0 * self@.1, self@.1 * o@.1)),
    {
        let n = self.numer.mul_bi(&o.denom).sub_bi(&o.numer.mul_bi(&self.denom));
        let d = self.denom.mul_bi(&o.denom);
        proof {
            assert(d@ > 0) by (nonlinear_arith)
                requires d@ == self@.1 * o@.1, self@.1 > 0, o@.1 > 0;
        }
        Ratio::from_denom_and_numer(d, n)
    }

    pub fn sub_rat_mut(&mut self, o: &Ratio)
        requires
            old(self).wf(),
            o.wf(),
        ensures
            final(self).wf(),
            same_value(final(self)@, (old(self)@.0 * o@.1 - o@.0 * old(self)@.1, old(self)@.1 * o@.1)),
    {
        *self = self.sub_rat(o);
    }

    pub fn mul_rat(&self, o: &Ratio) -> (r: Ratio)
        requires
            self.wf(),
            o.wf(),
        ensures
            r.wf(),
            same_value(r@, (self@.0 * o@.0, self@.1 * o@.1)),
    {
        let n = self.numer.mul_bi(&o.numer);
        let d = self.denom.mul_bi(&o.denom);
        proof {
            assert(d@ > 0) by (nonlinear_arith)
                requires d@ == self@.1 * o@.1, self@.1 > 0, o@.1 > 0;
        }
        Ratio::from_denom_and_numer(d, n)
    }

    pub fn mul_rat_mut(&mut self, o: &Ratio)
        requires
            old(self).wf(),
            o.wf(),
        ensures
            final(self).wf(),
            same_value(final(self)@, (old(self)@.0 * o@.0, old(self)@.1 * o@.1)),
    {
        *self = self.mul_rat(o);
    }

    /// Requires `o` nonzero.
    pub fn div_rat(&self, o: &Ratio) -> (r: Ratio)
        requires
            self.wf(),
            o.wf(),
            o@.0 != 0,
        ensures
            r.wf(),
            same_value(r@, (self@.0 * o@.1, self@.1 * o@.0)),
    {
        let n = self.numer.mul_bi(&o.denom);
        let d = self.denom.mul_bi(&o.numer);
        proof {
            assert(d@ != 0) by (nonlinear_arith)
                requires d@ == self@.1 * o@.0, self@.1 > 0, o@.0 != 0;
        }
        Ratio::from_denom_and_numer(d, n)
    }

    pub fn mul_bi(&self, k: &BigInt) -> (r: Ratio)
        requires
            self.wf(),
            k.wf(),
        ensures
            r.wf(),
            same_value(r@, (self@.0 * k@, self@.1)),
    {
        Ratio::from_denom_and_numer(self.denom.duplicate(), self.numer.mul_bi(k))
    }

    /// Requires `k` nonzero.
    pub fn div_bi(&self, k: &BigInt) -> (r: Ratio)
        requires
            self.wf(),
            k.wf(),
            k@ != 0,
        ensures
            r.wf(),
            same_value(r@, (self@.0, self@.1 * k@)),
    {
        let d = self.denom.mul_bi(k);
        proof {
            assert(d@ != 0) by (nonlinear_arith)
                requires d@ == self@.1 * k@, self@.1 > 0, k@ != 0;
        }
        Ratio::from_denom_and_numer(d, self.numer.duplicate())
    }

    pub fn mul_i32(&self, k: i32) -> (r: Ratio)
        requires
            self.wf(),
        ensures
            r.wf(),
            same_value(r@, (self@.0 * k, self@.1)),
    {
        self.mul_bi(&BigInt::from_i32(k))
    }

    /// Requires `k` nonzero.
    pub fn div_i32(&self, k: i32) -> (r: Ratio)
        requires
            self.wf(),
            k != 0,
        ensures
            r.wf(),
            same_value(r@, (self@.0, self@.1 * k)),
    {
        let d = self.denom.mul_i32(k);
        proof {
            assert(d@ != 0) by (nonlinear_arith)
                requires d@ == self@.1 * k, self@.1 > 0, k != 0;
        }
        Ratio::from_denom_and_numer(d, self.numer.duplicate())
    }

    pub fn add_i32(&self, k: i32) -> (r: Ratio)
        requires
            self.wf(),
        ensures
            r.wf(),
            same_value(r@, (self@.0 + k * self@.1, self@.1)),
    {
        let n = self.numer.add_bi(&self.denom.mul_i32(k));
        proof {
            assert(self@.1 * k == k * self@.1) by (nonlinear_arith);
        }
        Ratio::from_denom_and_numer(self.denom.duplicate(), n)
    }

    pub fn sub_i32(&self, k: i32) -> (r: Ratio)
        requires
            self.wf(),
        ensures
            r.wf(),
            same_value(r@, (self@.0 - k * self@.1, self@.1)),
    {
        let n = self.numer.sub_bi(&self.denom.mul_i32(k));
        proof {
            assert(self@.1 * k == k * self@.1) by (nonlinear_arith);
        }
        Ratio::from_denom_and_numer(self.denom.duplicate(), n)
    }

    pub fn sub_i32_mut(&mut self, k: i32)
        requires
            old(self).wf(),
        ensures
            final(self).wf(),
            same_value(final(self)@, (old(self)@.0 - k * old(self)@.1, old(self)@.1)),
    {
        *self = self.sub_i32(k);
    }

    /// -1, 0 or 1 as `self` is below, equal to or above `o`.
    pub fn comp_rat(&self, o: &Ratio) -> (r: i8)
        requires
            self.wf(),
            o.wf(),
        ensures
            r == -1 <==> self@.0 * o@.1 < o@.0 * self@.1,
            r == 0 <==> self@.0 * o@.1 == o@.0 * self@.1,
            r == 1 <==> self@.0 * o@.1 > o@.0 * self@.1,
    {
        self.numer.mul_bi(&o.denom).comp_bi(&o.numer.mul_bi(&self.denom))
    }
}

} // verus!
