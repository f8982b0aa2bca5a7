use crate::gcd::{gcd, lemma_gcd_sym};
use crate::ubigint::{base_pow, lemma_base_pow_pow2, limb_len_of, UBigInt};
use vstd::arithmetic::power::pow;
use vstd::arithmetic::div_mod::{lemma_div_denominator, lemma_fundamental_div_mod};
use vstd::arithmetic::power2::{lemma2_to64, lemma_pow2_adds, lemma_pow2_pos, pow2};
use vstd::prelude::*;

verus! {

/// Greatest common divisor of two unsigned integers; `gcd_ubi(0, b) == b`.
pub fn gcd_ubi(a: &UBigInt, b: &UBigInt) -> (r: UBigInt)
    requires
        a.wf(),
        b.wf(),
    ensures
        r.wf(),
        r@ == gcd(a@, b@),
{
    if a.is_zero() {
        proof {
            lemma_gcd_sym(a@, b@);
        }
        return b.duplicate();
    }
    let mut x = b.rem_ubi(a);
    let mut y = a.duplicate();
    proof {
        lemma_gcd_sym(a@, b@);
    }
    while !x.is_zero()
        invariant
            x.wf(),
            y.wf(),
            y@ > 0,
            gcd(y@, x@) == gcd(a@, b@),
        decreases x@,
    {
        let nx = y.rem_ubi(&x);
        y = x;
        x = nx;
    }
    y
}


/// `r` is the floor of the binary logarithm of `n`, a positive integer.
pub open spec fn is_floor_log2(n: nat, r: nat) -> bool {
    pow2(r) <= n < pow2(r + 1)
}

proof fn lemma_log_step(n0: nat, res: nat, n: nat, k: nat)
    requires
        n == n0 / pow2(res),
        n >= pow2(k),
        n0 < 0x1_0000_0000,
    ensures
        n / pow2(k) == n0 / pow2(res + k),
        n / pow2(k) >= 1,
        pow2(res + k) <= n0,
        res + k < 32,
{
    lemma_pow2_pos(res);
    lemma_pow2_pos(k);
    lemma_div_denominator(n0 as int, pow2(res) as int, pow2(k) as int);
    lemma_pow2_adds(res, k);
    lemma_fundamental_div_mod(n as int, pow2(k) as int);
    lemma_fundamental_div_mod(n0 as int, pow2(res + k) as int);
    let q = n / pow2(k);
    if q == 0 {
        assert(n == n % pow2(k));
    }
    assert(pow2(res + k) * (n0 / pow2(res + k)) >= pow2(res + k)) by (nonlinear_arith)
        requires n0 / pow2(res + k) >= 1, pow2(res + k) > 0;
    if res + k >= 32 {
        lemma2_to64();
        if res + k > 32 {
            vstd::arithmetic::power2::lemma_pow2_strictly_increases(32, res + k);
        }
    }
}

proof fn lemma_log_end(n0: nat, res: nat)
    requires
        n0 / pow2(res) == 1,
    ensures
        is_floor_log2(n0, res),
{
    lemma_pow2_pos(res);
    lemma_fundamental_div_mod(n0 as int, pow2(res) as int);
    vstd::arithmetic::power2::lemma_pow2_unfold(res + 1);
}

/// Floor of the binary logarithm; zero for zero.
pub fn log2_u32(n: u32) -> (r: u32)
    ensures
        n >= 1 ==> is_floor_log2(n as nat, r as nat),
        n == 0 ==> r == 0,
{
    let ghost n0 = n as nat;
    let mut n = n;
    let mut result: u32 = 0;
    proof {
        lemma2_to64();
        assert(n0 / 1 == n0);
    }
    while n > 1024
        invariant
            n0 >= 1 ==> n == n0 / pow2(result as nat) && n >= 1,
            n0 == 0 ==> n == 0 && result == 0,
            n0 < 0x1_0000_0000,
            result < 32,
            pow2(10) == 1024,
        decreases n,
    {
        proof {
            lemma_log_step(n0, result as nat, n as nat, 10);
        }
        n /= 1024;
        result += 10;
    }
    while n > 32
        invariant
            n0 >= 1 ==> n == n0 / pow2(result as nat) && n >= 1,
            n0 == 0 ==> n == 0 && result == 0,
            n0 < 0x1_0000_0000,
            result < 32,
            pow2(5) == 32,
        decreases n,
    {
        proof {
            lemma_log_step(n0, result as nat, n as nat, 5);
        }
        n /= 32;
        result += 5;
    }
    while n > 1
        invariant
            n0 >= 1 ==> n == n0 / pow2(result as nat) && n >= 1,
            n0 == 0 ==> n == 0 && result == 0,
            n0 < 0x1_0000_0000,
            result < 32,
            pow2(1) == 2,
        decreases n,
    {
        proof {
            lemma_log_step(n0, result as nat, n as nat, 1);
        }
        n /= 2;
        result += 1;
    }
    proof {
        if n0 >= 1 {
            lemma_log_end(n0, result as nat);
        }
    }
    result
}


/// Floor of the binary logarithm, zero for zero.
pub open spec fn floor_log2(x: nat) -> nat {
    if x == 0 {
        0
    } else {
        choose|r: nat| is_floor_log2(x, r)
    }
}

proof fn lemma_floor_log2_unique(x: nat, r: nat)
    requires
        x >= 1,
        is_floor_log2(x, r),
    ensures
        floor_log2(x) == r,
{
    let c = floor_log2(x);
    assert(is_floor_log2(x, c));
    if c < r {
        if c + 1 < r {
            vstd::arithmetic::power2::lemma_pow2_strictly_increases(c + 1, r);
        }
    } else if r < c {
        if r + 1 < c {
            vstd::arithmetic::power2::lemma_pow2_strictly_increases(r + 1, c);
        }
    }
}

/// Keeps the three most significant limbs of `y`: how many limbs were
/// dropped, and what is left.
pub open spec fn drop_low_limbs(y: nat) -> (nat, nat) {
    let n = limb_len_of(y);
    if n > 3 {
        ((n - 3) as nat, y / base_pow((n - 3) as nat))
    } else {
        (0, y)
    }
}

/// One round of `log2_accurate`: drop low limbs, counting 32 binary places
/// for each, then raise the rest to the power 256 and the count with it.
pub open spec fn log2_round(r: nat, y: nat) -> (nat, nat) {
    let (s, z) = drop_low_limbs(y);
    (((r + 32 * s) * 256) as nat, pow(z as int, 256) as nat)
}

/// The count and the value after `k + 1` rounds from `x`.
pub open spec fn log2_rounds(x: nat, k: nat) -> (nat, nat)
    decreases k,
{
    if k == 0 {
        log2_round(0, x)
    } else {
        let (r, y) = log2_rounds(x, (k - 1) as nat);
        log2_round(r, y)
    }
}

/// What `log2_accurate` computes: three rounds, then the floor of the binary
/// logarithm of what is left added to the count.
pub open spec fn log2_accurate_of(x: nat) -> nat {
    let (r, y) = log2_rounds(x, 2);
    r + floor_log2(y)
}

/// Raising to a power keeps the order of nonnegative bases.
proof fn lemma_pow_base_mono(a: nat, b: nat, e: nat)
    requires
        a <= b,
    ensures
        0 <= pow(a as int, e) <= pow(b as int, e),
    decreases e,
{
    reveal(pow);
    if e > 0 {
        lemma_pow_base_mono(a, b, (e - 1) as nat);
        let pa = pow(a as int, (e - 1) as nat);
        let pb = pow(b as int, (e - 1) as nat);
        assert(a * pa <= b * pb) by (nonlinear_arith)
            requires a <= b, 0 <= pa <= pb, a >= 0;
        assert(a * pa >= 0) by (nonlinear_arith)
            requires a >= 0, pa >= 0;
    }
}

/// Dropping the `s` lowest limbs of `x` and counting `32 s` binary places
/// keeps the bound on what the result may reach.
proof fn lemma_trunc_step(x: nat, s: nat, r: nat, f: nat, t: int)
    requires
        pow(2, r * f) * pow(x as int, f) <= t,
        x >= base_pow(s),
    ensures
        pow(2, (r + 32 * s) * f) * pow((x / base_pow(s)) as int, f) <= t,
        x / base_pow(s) >= 1,
{
    let w = base_pow(s);
    crate::ubigint::lemma_base_pow_pos(s);
    lemma_base_pow_pow2(s);
    vstd::arithmetic::power2::lemma_pow2(32 * s);
    lemma_fundamental_div_mod(x as int, w as int);
    let q = x / w;
    assert(q * w <= x) by (nonlinear_arith)
        requires x == w * q + x % w, x % w >= 0;
    if q == 0 {
        assert(x < w);
    }
    lemma_pow_base_mono(q * w, x, f);
    vstd::arithmetic::power::lemma_pow_distributes(q as int, w as int, f);
    vstd::arithmetic::power::lemma_pow_multiplies(2, 32 * s, f);
    vstd::arithmetic::power::lemma_pow_adds(2, r * f, 32 * s * f);
    assert((r + 32 * s) * f == r * f + 32 * s * f) by (nonlinear_arith);
    let a = pow(2, r * f);
    vstd::arithmetic::power::lemma_pow_positive(2, r * f);
    assert(a * (pow(q as int, f) * pow(w as int, f)) <= a * pow(x as int, f)) by (nonlinear_arith)
        requires pow(q as int, f) * pow(w as int, f) <= pow(x as int, f), a >= 0;
    assert(a * pow(2, 32 * s * f) * pow(q as int, f) == a * (pow(q as int, f) * pow(w as int, f))) by (nonlinear_arith)
        requires pow(w as int, f) == pow(2, 32 * s * f);
}

/// Raising `x` to the 256th power while multiplying the count by 256 keeps
/// the bound, with a 256 times smaller remaining exponent.
proof fn lemma_square_step(x: nat, r: nat, f: nat, t: int)
    requires
        pow(2, r * (f * 256)) * pow(x as int, f * 256) <= t,
    ensures
        pow(2, (r * 256) * f) * pow(pow(x as int, 256), f) <= t,
        x >= 1 ==> pow(x as int, 256) >= 1,
{
    vstd::arithmetic::power::lemma_pow_multiplies(x as int, 256, f);
    assert(r * (f * 256) == (r * 256) * f) by (nonlinear_arith);
    assert(256 * f == f * 256) by (nonlinear_arith);
    if x >= 1 {
        vstd::arithmetic::power::lemma_pow_positive(x as int, 256);
    }
}

/// `x` raised to the 256th power by eight squarings.
fn square8(x: &UBigInt) -> (r: UBigInt)
    requires
        x.wf(),
    ensures
        r.wf(),
        r@ == pow(x@ as int, 256),
{
    let mut y = x.duplicate();
    let mut i: u32 = 0;
    let ghost mut e: nat = 1;
    proof {
        vstd::arithmetic::power::lemma_pow1(x@ as int);
        vstd::arithmetic::power2::lemma2_to64();
    }
    while i < 8
        invariant
            i <= 8,
            y.wf(),
            e == vstd::arithmetic::power2::pow2(i as nat),
            y@ == pow(x@ as int, e),
        decreases 8 - i,
    {
        proof {
            vstd::arithmetic::power::lemma_pow_adds(x@ as int, e, e);
            vstd::arithmetic::power2::lemma_pow2_unfold((i + 1) as nat);
        }
        y = y.mul_ubi(&y);
        proof {
            e = e + e;
        }
        i += 1;
    }
    proof {
        vstd::arithmetic::power2::lemma2_to64();
    }
    y
}

/// `n!`.
pub open spec fn factorial_of(n: nat) -> nat
    decreases n,
{
    if n == 0 {
        1
    } else {
        n * factorial_of((n - 1) as nat)
    }
}

/// The Fibonacci sequence from 0, 1.
pub open spec fn fibonacci_of(n: nat) -> nat
    decreases n,
{
    if n == 0 {
        0
    } else if n == 1 {
        1
    } else {
        fibonacci_of((n - 1) as nat) + fibonacci_of((n - 2) as nat)
    }
}

impl UBigInt {
    /// Floor of the binary logarithm; zero for zero.
    pub fn log2(&self) -> (r: UBigInt)
        requires
            self.wf(),
        ensures
            r.wf(),
            self@ >= 1 ==> is_floor_log2(self@, r@),
            self@ == 0 ==> r@ == 0,
    {
        let n = self.len();
        let top = self.top_limb();
        let t = log2_u32(top);
        proof {
            self.lemma_limb_count();
        }
        let r = UBigInt::from_u64((n - 1) as u64).mul_u32(32).add_u32(t);
        proof {
            let m = (n - 1) as nat;
            let l = 32 * m;
            lemma_base_pow_pow2(m);
            if self@ == 0 {
                if n > 1 {
                    crate::ubigint::lemma_base_pow_pos(m);
                }
            } else {
                lemma_pow2_pos(l);
                lemma_fundamental_div_mod(self@ as int, pow2(l) as int);
                let w = pow2(l);
                let rm = self@ % w;
                lemma_pow2_adds(t as nat, l);
                lemma_pow2_adds((t + 1) as nat, l);
                assert(r@ == l + t);
                assert(pow2(t as nat) * w <= w * top) by (nonlinear_arith)
                    requires pow2(t as nat) <= top;
                assert(w * top + rm < pow2((t + 1) as nat) * w) by (nonlinear_arith)
                    requires top + 1 <= pow2((t + 1) as nat), rm < w;
                assert((t + 1) as nat + l == r@ + 1);
            }
        }
        r
    }

    /// An approximation of `log2(self) * 2^24` from below: the value is raised
    /// to the power `2^24` by repeated squaring, dropping low limbs on the way
    /// and counting the binary places dropped. Expensive by design.
    pub fn log2_accurate(&self) -> (r: UBigInt)
        requires
            self.wf(),
        ensures
            r.wf(),
            r@ == log2_accurate_of(self@),
            self@ == 0 ==> r@ == 0,
            self@ >= 1 ==> pow(2, r@) <= pow(self@ as int, 16777216),
    {
        let ghost t = pow(self@ as int, 16777216);
        let ghost f: nat = 16777216;
        let mut result = UBigInt::zero();
        proof {
            vstd::arithmetic::power::lemma_pow0(2);
            assert(result@ * f == 0);
        }
        let mut x = self.duplicate();
        proof {
            assert(pow(2, result@ * f) * pow(x@ as int, f) == t);
        }
        proof {
            x.lemma_limb_len();
        }
        if x.len() > 3 {
            let s = x.len() - 3;
            proof {
                x.lemma_limb_count();
                crate::ubigint::lemma_base_pow_mono(s as nat, (x.limb_count() - 1) as nat);
                lemma_trunc_step(x@, s as nat, result@, f, t);
            }
            result.add_ubi_mut(&UBigInt::from_u64(s as u64).mul_u32(32));
            x.shift_right_mut(s);
        }
        proof {
            assert(drop_low_limbs(self@) == (result@ / 32, x@));
            assert(result@ == 32 * (result@ / 32));
        }
        let ghost x0 = x@;
        x = square8(&x);
        result.mul_u32_mut(256);
        proof {
            f = 65536;
            lemma_square_step(x0, (result@ / 256) as nat, f, t);
            assert((result@, x@) == log2_rounds(self@, 0));
            if self@ == 0 {
                vstd::arithmetic::power::lemma0_pow(256);
            }
        }
        let mut round: u32 = 0;
        while round < 2
            invariant
                x.wf(),
                result.wf(),
                round <= 2,
                f == (if round == 0 { 65536nat } else if round == 1 { 256nat } else { 1nat }),
                self@ >= 1 ==> x@ >= 1,
                self@ >= 1 ==> pow(2, result@ * f) * pow(x@ as int, f) <= t,
                round < 2 ==> (result@, x@) == log2_rounds(self@, round as nat),
                round == 2 ==> (result@, x@) == log2_rounds(self@, 2),
                self@ == 0 ==> result@ == 0 && x@ == 0,
            decreases 2 - round,
        {
            let ghost r_in = result@;
            let ghost y_in = x@;
            proof {
                x.lemma_limb_len();
            }
            if x.len() > 3 {
                let s = x.len() - 3;
                proof {
                    x.lemma_limb_count();
                    crate::ubigint::lemma_base_pow_mono(s as nat, (x.limb_count() - 1) as nat);
                    if self@ >= 1 {
                        lemma_trunc_step(x@, s as nat, result@, f, t);
                    }
                }
                result.add_ubi_mut(&UBigInt::from_u64(s as u64).mul_u32(32));
                x.shift_right_mut(s);
            }
            proof {
                assert(result@ >= r_in);
                assert(drop_low_limbs(y_in) == (((result@ - r_in) / 32) as nat, x@));
                assert(result@ == r_in + 32 * (((result@ - r_in) / 32) as nat));
            }
            let ghost xr = x@;
            let ghost rr = result@;
            x = square8(&x);
            result.mul_u32_mut(256);
            proof {
                let nf: nat = f / 256;
                assert(f == nf * 256);
                if self@ >= 1 {
                    lemma_square_step(xr, rr, nf, t);
                }
                f = nf;
                assert((result@, x@) == log2_round(r_in, y_in));
                if self@ == 0 {
                    vstd::arithmetic::power::lemma0_pow(256);
                }
            }
            round += 1;
        }
        let l = x.log2();
        let r = result.add_ubi(&l);
        proof {
            if x@ >= 1 {
                lemma_floor_log2_unique(x@, l@);
            }
            if self@ >= 1 {
                assert(f == 1);
                vstd::arithmetic::power::lemma_pow1(x@ as int);
                vstd::arithmetic::power2::lemma_pow2(l@);
                vstd::arithmetic::power::lemma_pow_adds(2, result@, l@);
                let a = pow(2, result@);
                vstd::arithmetic::power::lemma_pow_positive(2, result@);
                assert(a * pow(2, l@) <= a * x@) by (nonlinear_arith)
                    requires pow(2, l@) <= x@, a >= 0;
            }
        }
        r
    }

    /// Floor of the square root, refined with a shrinking step.
    pub fn sqrt(&self) -> (r: UBigInt)
        requires
            self.wf(),
        ensures
            r.wf(),
            r@ * r@ <= self@ < (r@ + 1) * (r@ + 1),
    {
        let mut div = if self.len() > 2 {
            proof {
                self.lemma_limb_count();
                crate::ubigint::lemma_base_pow_mono(1, (self.limb_count() - 1) as nat);
                reveal_with_fuel(base_pow, 2);
            }
            self.shift_right(1)
        } else {
            UBigInt::from_u32(1073741824)
        };
        proof {
            if self.limb_count() > 2 {
                assert(base_pow(1) == 4294967296) by {
                    reveal_with_fuel(base_pow, 2);
                }
                assert(div@ >= 1) by {
                    vstd::arithmetic::div_mod::lemma_fundamental_div_mod(self@ as int, 4294967296);
                    let q = self@ / 4294967296;
                    assert(q >= 1) by (nonlinear_arith)
                        requires self@ == 4294967296 * q + self@ % 4294967296, self@ % 4294967296 < 4294967296, self@ >= 4294967296, q >= 0;
                }
            }
        }
        let mut result = UBigInt::zero();
        let mut done = false;
        assert(div@ >= 1);
        while !done
            invariant
                self.wf(),
                div.wf(),
                result.wf(),
                !done ==> div@ >= 1,
                done ==> result@ * result@ <= self@ < (result@ + 1) * (result@ + 1),
            decreases div@ + (if done { 0int } else { 1int }),
        {
            let ghost start = div@;
            while result.mul_ubi(&result).lt_ubi(self)
                invariant
                    self.wf(),
                    div.wf(),
                    result.wf(),
                    div@ >= 1,
                decreases self@ + div@ - result@,
            {
                proof {
                    assert(result@ <= result@ * result@ || result@ == 0) by (nonlinear_arith);
                }
                result.add_ubi_mut(&div);
            }
            div.div_u32_mut(4);
            if div.lt_u32(4) {
                div = UBigInt::one();
            }
            proof {
                let x = result@;
                assert(x * x < (x + 1) * (x + 1)) by (nonlinear_arith);
            }
            while result.mul_ubi(&result).gt_ubi(self)
                invariant
                    self.wf(),
                    div.wf(),
                    result.wf(),
                    div@ == 1 || div@ >= 4,
                    div@ == 1 ==> self@ < (result@ + 1) * (result@ + 1),
                decreases result@,
            {
                proof {
                    if result@ == 0 {
                        assert(result@ * result@ == 0);
                    }
                }
                if result.lt_ubi(&div) {
                    result = UBigInt::zero();
                } else {
                    result.sub_ubi_mut(&div);
                }
            }
            div.div_u32_mut(4);
            if div.is_zero() {
                done = true;
            }
        }
        result
    }

    /// `n!`.
    pub fn factorial(n: u32) -> (r: UBigInt)
        ensures
            r.wf(),
            r@ == factorial_of(n as nat),
    {
        let mut result = UBigInt::one();
        let mut buffer: u64 = 1;
        let mut i: u64 = 1;
        proof {
            reveal_with_fuel(factorial_of, 2);
        }
        while i < n as u64
            invariant
                result.wf(),
                1 <= i <= n || (i == 1 && n == 0),
                1 <= buffer <= 0xffff_ffff,
                result@ * buffer == factorial_of(i as nat),
            decreases n - i,
        {
            i += 1;
            assert(buffer * i <= 0xffff_ffff * 0xffff_ffff) by (nonlinear_arith)
                requires buffer <= 0xffff_ffff, i <= 0xffff_ffff;
            let nb = buffer * i;
            proof {
                assert(factorial_of(i as nat) == i * factorial_of((i - 1) as nat));
            }
            if nb > 0xffff_ffff {
                let ghost old_r = result@;
                let ghost old_b = buffer;
                result.mul_u32_mut(buffer as u32);
                buffer = i;
                proof {
                    assert((old_r * old_b) * i == i * (old_r * old_b)) by (nonlinear_arith);
                }
            } else {
                let ghost old_b = buffer;
                buffer = nb;
                proof {
                    let x = result@;
                    assert(x * (old_b * i) == i * (x * old_b)) by (nonlinear_arith);
                    assert(old_b * i >= 1) by (nonlinear_arith)
                        requires old_b >= 1, i >= 1;
                }
            }
        }
        proof {
            if n == 0 {
                reveal_with_fuel(factorial_of, 2);
            }
        }
        result.mul_u32(buffer as u32)
    }

    /// The `n`-th Fibonacci number, from `fibonacci(0) == 0`.
    pub fn fibonacci(n: u32) -> (r: UBigInt)
        ensures
            r.wf(),
            r@ == fibonacci_of(n as nat),
    {
        let mut last = UBigInt::zero();
        let mut next = UBigInt::one();
        let mut i: u32 = 0;
        proof {
            reveal_with_fuel(fibonacci_of, 2);
        }
        while i < n
            invariant
                i <= n,
                last.wf(),
                next.wf(),
                last@ == fibonacci_of(i as nat),
                next@ == fibonacci_of(i as nat + 1),
            decreases n - i,
        {
            let sum = last.add_ubi(&next);
            last = next;
            next = sum;
            i += 1;
        }
        last
    }
}

} // verus!
