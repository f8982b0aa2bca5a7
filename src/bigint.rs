use crate::ubigint::UBigInt;
use vstd::prelude::*;

verus! {

/// Absolute value.
pub open spec fn iabs(x: int) -> nat {
    if x < 0 {
        (-x) as nat
    } else {
        x as nat
    }
}

/// Quotient rounded toward zero.
pub open spec fn trunc_div(a: int, b: int) -> int {
    let q = (iabs(a) / iabs(b)) as int;
    if (a < 0) != (b < 0) {
        -q
    } else {
        q
    }
}

/// Remainder of the division rounded toward zero; it has the sign of `a`.
pub open spec fn trunc_rem(a: int, b: int) -> int {
    a - b * trunc_div(a, b)
}

/// A signed integer of any size: a magnitude and a sign.
#[derive(Clone, Debug)]
pub struct BigInt {
    neg: bool,
    mag: UBigInt,
}

impl View for BigInt {
    type V = int;

    closed spec fn view(&self) -> int {
        if self.neg {
            -(self.mag@ as int)
        } else {
            self.mag@ as int
        }
    }
}

impl PartialEq for BigInt {
    fn eq(&self, o: &BigInt) -> (r: bool) {
        self.neg == o.neg && self.mag == o.mag
    }
}

impl vstd::std_specs::cmp::PartialEqSpecImpl for BigInt {
    open spec fn obeys_eq_spec() -> bool {
        true
    }

    open spec fn eq_spec(&self, o: &BigInt) -> bool {
        self.same_repr(o)
    }
}

impl BigInt {
    /// The magnitude is normalized and zero is never negative.
    pub closed spec fn wf(&self) -> bool {
        self.mag.wf() && (self.mag@ == 0 ==> !self.neg)
    }

    /// Same sign flag and same limbs.
    pub closed spec fn same_repr(&self, o: &BigInt) -> bool {
        self.neg == o.neg && self.mag.same_limbs(&o.mag)
    }

    /// Two well-formed values are equal exactly when their representations are.
    pub proof fn lemma_eq_iff_repr(&self, o: &BigInt)
        requires
            self.wf(),
            o.wf(),
        ensures
            self.same_repr(o) <==> (self@ == o@),
    {
        self.mag.lemma_eq_iff_limbs(&o.mag);
    }

    /// The value with magnitude `mag`, negative when `neg` and `mag` is not zero.
    pub fn from_ubi(mag: UBigInt, neg: bool) -> (r: BigInt)
        requires
            mag.wf(),
        ensures
            r.wf(),
            r@ == (if neg { -(mag@ as int) } else { mag@ as int }),
    {
        let z = mag.is_zero();
        BigInt { neg: neg && !z, mag }
    }

    pub fn zero() -> (r: BigInt)
        ensures
            r.wf(),
            r@ == 0,
    {
        BigInt::from_ubi(UBigInt::zero(), false)
    }

    pub fn one() -> (r: BigInt)
        ensures
            r.wf(),
            r@ == 1,
    {
        BigInt::from_ubi(UBigInt::one(), false)
    }

    pub fn from_u32(n: u32) -> (r: BigInt)
        ensures
            r.wf(),
            r@ == n,
    {
        BigInt::from_ubi(UBigInt::from_u32(n), false)
    }

    pub fn from_i32(n: i32) -> (r: BigInt)
        ensures
            r.wf(),
            r@ == n,
    {
        BigInt::from_i64(n as i64)
    }

    pub fn from_i64(n: i64) -> (r: BigInt)
        ensures
            r.wf(),
            r@ == n,
    {
        if n < 0 {
            let m: u64 = if n == i64::MIN { 9223372036854775808 } else { (-n) as u64 };
            BigInt::from_ubi(UBigInt::from_u64(m), true)
        } else {
            BigInt::from_ubi(UBigInt::from_u64(n as u64), false)
        }
    }

    /// A copy of the value.
    pub fn duplicate(&self) -> (r: BigInt)
        ensures
            r@ == self@,
            r.wf() == self.wf(),
    {
        BigInt { neg: self.neg, mag: self.mag.duplicate() }
    }

    /// The absolute value as an unsigned integer.
    pub fn magnitude(&self) -> (r: UBigInt)
        requires
            self.wf(),
        ensures
            r.wf(),
            r@ == iabs(self@),
    {
        self.mag.duplicate()
    }

    pub fn is_neg(&self) -> (r: bool)
        requires
            self.wf(),
        ensures
            r == (self@ < 0),
    {
        self.neg
    }

    pub fn is_zero(&self) -> (r: bool)
        requires
            self.wf(),
        ensures
            r == (self@ == 0),
    {
        self.mag.is_zero()
    }

    pub fn is_one(&self) -> (r: bool)
        requires
            self.wf(),
        ensures
            r == (self@ == 1),
    {
        !self.neg && self.mag.is_one()
    }

    pub fn neg(&self) -> (r: BigInt)
        requires
            self.wf(),
        ensures
            r.wf(),
            r@ == -self@,
    {
        BigInt::from_ubi(self.mag.duplicate(), !self.neg)
    }

    pub fn neg_mut(&mut self)
        requires
            old(self).wf(),
        ensures
            final(self).wf(),
            final(self)@ == -old(self)@,
    {
        *self = self.neg();
    }

    pub fn abs(&self) -> (r: BigInt)
        requires
            self.wf(),
        ensures
            r.wf(),
            r@ == iabs(self@),
    {
        BigInt::from_ubi(self.mag.duplicate(), false)
    }

    pub fn abs_mut(&mut self)
        requires
            old(self).wf(),
        ensures
            final(self).wf(),
            final(self)@ == iabs(old(self)@),
    {
        *self = self.abs();
    }

    pub fn add_bi(&self, o: &BigInt) -> (r: BigInt)
        requires
            self.wf(),
            o.wf(),
        ensures
            r.wf(),
            r@ == self@ + o@,
    {
        if self.neg == o.neg {
            BigInt::from_ubi(self.mag.add_ubi(&o.mag), self.neg)
        } else if self.mag.geq_ubi(&o.mag) {
            BigInt::from_ubi(self.mag.sub_ubi(&o.mag), self.neg)
        } else {
            BigInt::from_ubi(o.mag.sub_ubi(&self.mag), o.neg)
        }
    }

    pub fn add_bi_mut(&mut self, o: &BigInt)
        requires
            old(self).wf(),
            o.wf(),
        ensures
            final(self).wf(),
            final(self)@ == old(self)@ + o@,
    {
        *self = self.add_bi(o);
    }

    pub fn sub_bi(&self, o: &BigInt) -> (r: BigInt)
        requires
            self.wf(),
            o.wf(),
        ensures
            r.wf(),
            r@ == self@ - o@,
    {
        self.add_bi(&o.neg())
    }

    pub fn sub_bi_mut(&mut self, o: &BigInt)
        requires
            old(self).wf(),
            o.wf(),
        ensures
            final(self).wf(),
            final(self)@ == old(self)@ - o@,
    {
        *self = self.sub_bi(o);
    }

    pub fn mul_bi(&self, o: &BigInt) -> (r: BigInt)
        requires
            self.wf(),
            o.wf(),
        ensures
            r.wf(),
            r@ == self@ * o@,
    {
        let m = self.mag.mul_ubi(&o.mag);
        proof {
            let a = self.mag@ as int;
            let b = o.mag@ as int;
            assert((-a) * (-b) == a * b && (-a) * b == -(a * b) && a * (-b) == -(a * b)) by (nonlinear_arith);
        }
        BigInt::from_ubi(m, self.neg != o.neg)
    }

    pub fn mul_bi_mut(&mut self, o: &BigInt)
        requires
            old(self).wf(),
            o.wf(),
        ensures
            final(self).wf(),
            final(self)@ == old(self)@ * o@,
    {
        *self = self.mul_bi(o);
    }

    /// Quotient rounded toward zero and the remainder, which takes the sign of `self`.
    pub fn div_rem_bi(&self, o: &BigInt) -> (r: (BigInt, BigInt))
        requires
            self.wf(),
            o.wf(),
            o@ != 0,
        ensures
            r.0.wf(),
            r.1.wf(),
            r.0@ == trunc_div(self@, o@),
            r.1@ == trunc_rem(self@, o@),
            iabs(r.1@) < iabs(o@),
            r.1@ != 0 ==> (r.1@ < 0) == (self@ < 0),
    {
        let (q, m) = self.mag.div_rem_ubi(&o.mag);
        proof {
            vstd::arithmetic::div_mod::lemma_fundamental_div_mod(self.mag@ as int, o.mag@ as int);
            let a = self.mag@ as int;
            let b = o.mag@ as int;
            let qq = q@ as int;
            assert(b * (-qq) == -(b * qq) && (-b) * (-qq) == b * qq && (-b) * qq == -(b * qq)) by (nonlinear_arith);
        }
        (BigInt::from_ubi(q, self.neg != o.neg), BigInt::from_ubi(m, self.neg))
    }

    pub fn div_bi(&self, o: &BigInt) -> (r: BigInt)
        requires
            self.wf(),
            o.wf(),
            o@ != 0,
        ensures
            r.wf(),
            r@ == trunc_div(self@, o@),
    {
        self.div_rem_bi(o).0
    }

    pub fn div_bi_mut(&mut self, o: &BigInt)
        requires
            old(self).wf(),
            o.wf(),
            o@ != 0,
        ensures
            final(self).wf(),
            final(self)@ == trunc_div(old(self)@, o@),
    {
        *self = self.div_bi(o);
    }

    pub fn rem_bi(&self, o: &BigInt) -> (r: BigInt)
        requires
            self.wf(),
            o.wf(),
            o@ != 0,
        ensures
            r.wf(),
            r@ == trunc_rem(self@, o@),
    {
        self.div_rem_bi(o).1
    }

    pub fn rem_bi_mut(&mut self, o: &BigInt)
        requires
            old(self).wf(),
            o.wf(),
            o@ != 0,
        ensures
            final(self).wf(),
            final(self)@ == trunc_rem(old(self)@, o@),
    {
        *self = self.rem_bi(o);
    }

    pub fn add_i32(&self, n: i32) -> (r: BigInt)
        requires
            self.wf(),
        ensures
            r.wf(),
            r@ == self@ + n,
    {
        self.add_bi(&BigInt::from_i32(n))
    }

    pub fn sub_i32(&self, n: i32) -> (r: BigInt)
        requires
            self.wf(),
        ensures
            r.wf(),
            r@ == self@ - n,
    {
        self.sub_bi(&BigInt::from_i32(n))
    }

    pub fn mul_i32(&self, n: i32) -> (r: BigInt)
        requires
            self.wf(),
        ensures
            r.wf(),
            r@ == self@ * n,
    {
        self.mul_bi(&BigInt::from_i32(n))
    }

    /// `log2_accurate` of the magnitude.
    pub fn log2_accurate(&self) -> (r: BigInt)
        requires
            self.wf(),
        ensures
            r.wf(),
            r@ == crate::ubigint_funcs::log2_accurate_of(iabs(self@)),
    {
        BigInt::from_ubi(self.mag.log2_accurate(), false)
    }

    /// -1, 0 or 1 as `self` is below, equal to or above `o`.
    pub fn comp_bi(&self, o: &BigInt) -> (r: i8)
        requires
            self.wf(),
            o.wf(),
        ensures
            r == -1 <==> self@ < o@,
            r == 0 <==> self@ == o@,
            r == 1 <==> self@ > o@,
            -1 <= r <= 1,
    {
        if self.neg != o.neg {
            if self.neg { -1 } else { 1 }
        } else if self.neg {
            o.mag.comp_ubi(&self.mag)
        } else {
            self.mag.comp_ubi(&o.mag)
        }
    }
}

} // verus!
