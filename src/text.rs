use crate::bigint::{iabs, BigInt};
use crate::ratio::{same_value, Ratio};
use crate::ubigint::{base_pow, UBigInt};
use vstd::arithmetic::power::pow;
use vstd::prelude::*;
use vstd::string::StringSliceAdditionalSpecFns;

verus! {

/// Why a text is not a number.
#[derive(Clone, Copy, Debug, PartialEq, Eq, Structural)]
pub enum ParseError {
    /// No digit at all.
    Empty,
    /// A character that is neither a digit of the radix nor an allowed mark.
    InvalidDigit,
    /// A misplaced radix prefix or decimal point.
    Malformed,
}

/// Value of an ASCII digit in `radix` (10 or 16), or -1.
pub open spec fn digit_of(c: u8, radix: nat) -> int {
    if 48 <= c <= 57 && (c - 48) < radix {
        (c - 48) as int
    } else if radix == 16 && 97 <= c <= 102 {
        (c - 87) as int
    } else if radix == 16 && 65 <= c <= 70 {
        (c - 55) as int
    } else {
        -1
    }
}

/// State after reading a text left to right: whether it is still well formed,
/// the digits read as one integer, whether a point was met, and how many
/// digits stand before and after the point.
pub struct Scan {
    pub ok: bool,
    pub mant: nat,
    pub dot: bool,
    pub int_digits: nat,
    pub frac_digits: nat,
}

/// One character more; `_` separates digit groups and is skipped.
pub open spec fn scan_step(st: Scan, c: u8, radix: nat, allow_dot: bool) -> Scan {
    if !st.ok {
        st
    } else if c == 95 {
        st
    } else if c == 46 {
        if allow_dot && !st.dot && st.int_digits > 0 {
            Scan { dot: true, ..st }
        } else {
            Scan { ok: false, ..st }
        }
    } else if digit_of(c, radix) >= 0 {
        Scan {
            mant: st.mant * radix + digit_of(c, radix) as nat,
            int_digits: if st.dot { st.int_digits } else { st.int_digits + 1 },
            frac_digits: if st.dot { st.frac_digits + 1 } else { st.frac_digits },
            ..st
        }
    } else {
        Scan { ok: false, ..st }
    }
}

pub open spec fn scan(s: Seq<u8>, radix: nat, allow_dot: bool) -> Scan
    decreases s.len(),
{
    if s.len() == 0 {
        Scan { ok: true, mant: 0, dot: false, int_digits: 0, frac_digits: 0 }
    } else {
        scan_step(scan(s.drop_last(), radix, allow_dot), s.last(), radix, allow_dot)
    }
}

/// A complete reading: well formed, a digit before any point, one after it.
pub open spec fn scan_complete(st: Scan) -> bool {
    st.ok && st.int_digits > 0 && (st.dot ==> st.frac_digits > 0)
}

/// The body of an unsigned integer text and its radix: `0x` starts hexadecimal.
pub open spec fn int_body(s: Seq<u8>) -> (Seq<u8>, nat) {
    if s.len() >= 2 && s[0] == 48 && s[1] == 120 {
        (s.skip(2), 16)
    } else {
        (s, 10)
    }
}

/// The error that reading `st` ends in.
pub open spec fn scan_error(st: Scan) -> ParseError {
    if !st.ok {
        ParseError::InvalidDigit
    } else if st.int_digits == 0 {
        ParseError::Empty
    } else {
        ParseError::Malformed
    }
}

/// A failed reading stays failed whatever follows.
proof fn lemma_scan_fail(s: Seq<u8>, k: int, radix: nat, allow_dot: bool)
    requires
        0 <= k <= s.len(),
        !scan(s.take(k), radix, allow_dot).ok,
    ensures
        !scan(s, radix, allow_dot).ok,
    decreases s.len() - k,
{
    if k < s.len() {
        let t = s.take(k + 1);
        assert(t.drop_last() =~= s.take(k));
        lemma_scan_fail(s, k + 1, radix, allow_dot);
    } else {
        assert(s.take(k) =~= s);
    }
}

/// Reads `b` with the rules of `scan`.
fn scan_bytes(b: &[u8], start: usize, radix: u32, allow_dot: bool) -> (r: (bool, UBigInt, bool, u64, u64))
    requires
        start <= b@.len(),
        radix == 10 || radix == 16,
    ensures
        r.1.wf(),
        ({
            let st = scan(b@.skip(start as int), radix as nat, allow_dot);
            &&& r.0 == st.ok
            &&& st.ok ==> r.1@ == st.mant && r.2 == st.dot
            &&& st.ok ==> (r.3 > 0) == (st.int_digits > 0)
            &&& st.ok ==> r.4 == st.frac_digits
        }),
{
    let mut mant = UBigInt::zero();
    let mut dot = false;
    let mut ints: u64 = 0;
    let mut fracs: u64 = 0;
    let mut i: usize = start;
    let ghost body = b@.skip(start as int);
    while i < b.len()
        invariant
            start <= i <= b@.len(),
            radix == 10 || radix == 16,
            mant.wf(),
            body == b@.skip(start as int),
            ({
                let st = scan(body.take(i - start), radix as nat, allow_dot);
                &&& st.ok
                &&& mant@ == st.mant
                &&& dot == st.dot
                &&& (ints > 0) == (st.int_digits > 0)
                &&& fracs == st.frac_digits
                &&& ints <= i
                &&& fracs <= i
            }),
        decreases b@.len() - i,
    {
        let c = b[i];
        proof {
            assert(body.take(i + 1 - start).drop_last() =~= body.take(i - start));
            assert(body.take(i + 1 - start).last() == c);
        }
        if c == 95 {
        } else if c == 46 {
            if allow_dot && !dot && ints > 0 {
                dot = true;
            } else {
                proof {
                    lemma_scan_fail(body, i + 1 - start, radix as nat, allow_dot);
                }
                return (false, mant, dot, ints, fracs);
            }
        } else {
            let d: u32 = if 48 <= c && c <= 57 && ((c - 48) as u32) < radix {
                (c - 48) as u32
            } else if radix == 16 && 97 <= c && c <= 102 {
                (c - 87) as u32
            } else if radix == 16 && 65 <= c && c <= 70 {
                (c - 55) as u32
            } else {
                proof {
                    lemma_scan_fail(body, i + 1 - start, radix as nat, allow_dot);
                }
                return (false, mant, dot, ints, fracs);
            };
            mant = mant.mul_u32(radix).add_u32(d);
            if dot {
                fracs += 1;
            } else {
                ints += 1;
            }
        }
        i += 1;
    }
    proof {
        assert(body.take(b@.len() - start) =~= body);
    }
    (true, mant, dot, ints, fracs)
}

impl UBigInt {
    /// Reads a decimal or `0x` hexadecimal integer; `_` may group digits.
    pub fn from_string(s: &str) -> (r: Result<UBigInt, ParseError>)
        ensures
            ({
                let (body, radix) = int_body(s.spec_bytes());
                let st = scan(body, radix, false);
                &&& r.is_ok() <==> scan_complete(st)
                &&& r.is_ok() ==> r.unwrap().wf() && r.unwrap()@ == st.mant
                &&& r.is_err() ==> r->Err_0 == scan_error(st)
            }),
    {
        let b = s.as_bytes();
        let hex = b.len() >= 2 && b[0] == 48 && b[1] == 120;
        let (ok, mant, dot, ints, _fracs) = if hex {
            scan_bytes(b, 2, 16, false)
        } else {
            proof {
                assert(b@.skip(0) =~= b@);
            }
            scan_bytes(b, 0, 10, false)
        };
        proof {
            let (body, radix) = int_body(s.spec_bytes());
            lemma_scan_no_dot(body, radix);
        }
        if !ok {
            Err(ParseError::InvalidDigit)
        } else if ints == 0 {
            Err(ParseError::Empty)
        } else {
            Ok(mant)
        }
    }
}

proof fn lemma_scan_no_dot(s: Seq<u8>, radix: nat)
    ensures
        !scan(s, radix, false).dot,
    decreases s.len(),
{
    if s.len() > 0 {
        lemma_scan_no_dot(s.drop_last(), radix);
    }
}

/// A decimal text: an optional `-`, then digits with at most one point.
pub open spec fn dec_body(s: Seq<u8>) -> (bool, Seq<u8>) {
    if s.len() >= 1 && s[0] == 45 {
        (true, s.skip(1))
    } else {
        (false, s)
    }
}

impl Ratio {
    /// Reads a decimal text such as `-3.25` exactly.
    pub fn from_string(s: &str) -> (r: Result<Ratio, ParseError>)
        ensures
            ({
                let (neg, body) = dec_body(s.spec_bytes());
                let st = scan(body, 10, true);
                let m = if neg { -(st.mant as int) } else { st.mant as int };
                &&& r.is_ok() <==> scan_complete(st)
                &&& r.is_ok() ==> r.unwrap().wf() && same_value(r.unwrap()@, (m, pow(10, st.frac_digits)))
                &&& r.is_err() ==> r->Err_0 == scan_error(st)
            }),
    {
        let b = s.as_bytes();
        let neg = b.len() >= 1 && b[0] == 45;
        let start: usize = if neg { 1 } else { 0 };
        proof {
            assert(b@.skip(0) =~= b@);
        }
        let (ok, mant, dot, ints, fracs) = scan_bytes(b, start, 10, true);
        if !ok {
            return Err(ParseError::InvalidDigit);
        }
        if ints == 0 {
            return Err(ParseError::Empty);
        }
        if dot && fracs == 0 {
            return Err(ParseError::Malformed);
        }
        let denom = UBigInt::from_u32(10).pow_u32_wide(fracs);
        proof {
            vstd::arithmetic::power::lemma_pow_positive(10, fracs as nat);
        }
        Ok(Ratio::from_denom_and_numer(BigInt::from_ubi(denom, false), BigInt::from_ubi(mant, neg)))
    }
}


/// Decimal digits of `x`, most significant first, without leading zeros.
pub open spec fn dec_digits(x: nat) -> Seq<u8>
    decreases x,
{
    if x < 10 {
        seq![(x + 48) as u8]
    } else {
        dec_digits(x / 10).push((x % 10 + 48) as u8)
    }
}

/// The characters of an ASCII byte sequence.
pub open spec fn ascii_chars(b: Seq<u8>) -> Seq<char> {
    b.map_values(|c: u8| c as char)
}

/// Relies on `String::from_utf8`: ASCII bytes are valid UTF-8, one character each.
#[verifier::external_body]
fn ascii_string(b: Vec<u8>) -> (r: String)
    requires
        forall|i: int| 0 <= i < b@.len() ==> b@[i] < 128,
    ensures
        r@ == ascii_chars(b@),
{
    match String::from_utf8(b) {
        Ok(s) => s,
        Err(_) => String::new(),
    }
}

/// Appends the decimal digits of `x` to `out`.
fn push_decimal(out: &mut Vec<u8>, x: &UBigInt)
    requires
        x.wf(),
        forall|i: int| 0 <= i < old(out)@.len() ==> old(out)@[i] < 128,
    ensures
        final(out)@ == old(out)@ + dec_digits(x@),
        forall|i: int| 0 <= i < final(out)@.len() ==> final(out)@[i] < 128,
{
    let mut digits: Vec<u8> = Vec::new();
    let mut cur = x.duplicate();
    let mut first = true;
    loop
        invariant
            cur.wf(),
            out@ == old(out)@,
            first ==> cur@ == x@ && digits@.len() == 0,
            !first ==> (cur@ > 0 ==> dec_digits(x@) == dec_digits(cur@) + digits@),
            !first ==> (cur@ == 0 ==> dec_digits(x@) == digits@),
            forall|i: int| 0 <= i < digits@.len() ==> 48 <= #[trigger] digits@[i] < 58,
        ensures
            out@ == old(out)@,
            dec_digits(x@) == digits@,
            forall|i: int| 0 <= i < digits@.len() ==> 48 <= #[trigger] digits@[i] < 58,
        decreases cur@ + (if first { 1int } else { 0int }),
    {
        if !first && cur.is_zero() {
            break;
        }
        let (q, r) = cur.div_rem_u32(10);
        let ghost old_d = digits@;
        digits.insert(0, (r + 48) as u8);
        proof {
            let c = cur@;
            if c < 10 {
                assert(q@ == 0);
                assert(dec_digits(c) == seq![(c + 48) as u8]);
                assert(dec_digits(x@) == dec_digits(c) + old_d || first);
                assert(seq![(c + 48) as u8] + old_d =~= digits@);
            } else {
                assert(dec_digits(c) == dec_digits(q@).push((c % 10 + 48) as u8));
                assert(dec_digits(q@).push((c % 10 + 48) as u8) + old_d =~= dec_digits(q@) + digits@);
            }
            if first {
                assert(old_d.len() == 0);
                assert(dec_digits(c) + old_d =~= dec_digits(c));
            }
        }
        first = false;
        cur = q;
    }
    let mut i: usize = 0;
    let ghost start = out@;
    while i < digits.len()
        invariant
            i <= digits@.len(),
            start == old(out)@,
            dec_digits(x@) == digits@,
            out@ == start + digits@.take(i as int),
            forall|j: int| 0 <= j < out@.len() ==> out@[j] < 128,
            forall|j: int| 0 <= j < digits@.len() ==> 48 <= #[trigger] digits@[j] < 58,
        decreases digits@.len() - i,
    {
        out.push(digits[i]);
        proof {
            assert(digits@.take(i + 1) =~= digits@.take(i as int).push(digits@[i as int]));
        }
        i += 1;
    }
    proof {
        assert(digits@.take(digits@.len() as int) =~= digits@);
    }
}

impl UBigInt {
    /// Decimal digits of the value.
    pub fn to_string(&self) -> (r: String)
        requires
            self.wf(),
        ensures
            r@ == ascii_chars(dec_digits(self@)),
    {
        let mut out: Vec<u8> = Vec::new();
        push_decimal(&mut out, self);
        proof {
            assert(Seq::<u8>::empty() + dec_digits(self@) =~= dec_digits(self@));
        }
        ascii_string(out)
    }
}


/// The running remainder of the long division of `r / d` after `m` digits.
pub open spec fn frac_state(r: nat, d: nat, m: nat) -> nat
    decreases m,
{
    if m == 0 {
        r
    } else {
        (10 * frac_state(r, d, (m - 1) as nat)) % d
    }
}

/// The first `m` decimal digits of `r / d`, for `r < d`, by long division.
pub open spec fn frac_digits(r: nat, d: nat, m: nat) -> Seq<u8>
    decreases m,
{
    if m == 0 {
        Seq::empty()
    } else {
        frac_digits(r, d, (m - 1) as nat).push(((10 * frac_state(r, d, (m - 1) as nat)) / d + 48) as u8)
    }
}

/// Drops trailing `0` characters.
pub open spec fn strip_zeros(s: Seq<u8>) -> Seq<u8>
    decreases s.len(),
{
    if s.len() > 0 && s.last() == 48 {
        strip_zeros(s.drop_last())
    } else {
        s
    }
}

/// Drops one trailing point.
pub open spec fn strip_point(s: Seq<u8>) -> Seq<u8> {
    if s.len() > 0 && s.last() == 46 {
        s.drop_last()
    } else {
        s
    }
}

/// The decimal text of `n / d` (with `d > 0`), cut toward zero to `k`
/// characters, without trailing zeros after the point; the integer part is
/// always whole.
pub open spec fn approx_text(n: int, d: int, k: nat) -> Seq<u8> {
    let a = iabs(n);
    let dd = d as nat;
    let prefix = (if n < 0 { seq![45u8] } else { Seq::<u8>::empty() }) + dec_digits(a / dd);
    if k <= prefix.len() {
        prefix
    } else {
        strip_point(strip_zeros(prefix.push(46u8) + frac_digits(a % dd, dd, (k - prefix.len() - 1) as nat)))
    }
}

impl Ratio {
    /// The decimal expansion cut to `k` characters.
    pub fn to_approx_string(&self, k: usize) -> (r: String)
        requires
            self.wf(),
        ensures
            r@ == ascii_chars(approx_text(self@.0, self@.1, k as nat)),
    {
        proof {
            self.lemma_wf_parts();
        }
        let neg = self.is_neg();
        let a = self.numer().magnitude();
        let d = self.denom().magnitude();
        let (ip, rem) = a.div_rem_ubi(&d);
        let mut out: Vec<u8> = Vec::new();
        if neg {
            out.push(45);
        }
        push_decimal(&mut out, &ip);
        let ghost prefix = out@;
        proof {
            if neg {
                assert(seq![45u8] + dec_digits(ip@) =~= out@);
            } else {
                assert(Seq::<u8>::empty() + dec_digits(ip@) =~= out@);
            }
        }
        if k <= out.len() {
            return ascii_string(out);
        }
        out.push(46);
        let plen = out.len();
        let mut r = rem;
        let mut m: usize = 0;
        let ghost dn = d@;
        let ghost r0 = rem@;
        while m < k - plen
            invariant
                plen == prefix.len() + 1,
                plen < k + 1,
                m <= k - plen,
                d.wf(),
                r.wf(),
                d@ == dn,
                dn > 0,
                r@ < dn,
                r@ == frac_state(r0, dn, m as nat),
                out@ == prefix.push(46u8) + frac_digits(r0, dn, m as nat),
                forall|j: int| 0 <= j < out@.len() ==> out@[j] < 128,
            decreases k - plen - m,
        {
            let t = r.mul_u32(10);
            let (q, r2) = t.div_rem_ubi(&d);
            proof {
                assert(q@ < 10) by (nonlinear_arith)
                    requires t@ == r@ * 10, r@ < dn, q@ == t@ / dn, dn > 0;
            }
            let digit = q.to_u32();
            let dg: u32 = match digit {
                Some(v) => v,
                None => 0,
            };
            out.push((dg + 48) as u8);
            proof {
                assert(prefix.push(46u8) + frac_digits(r0, dn, (m + 1) as nat) =~= out@);
            }
            r = r2;
            m += 1;
        }
        let ghost full = out@;
        while out.len() > 0 && out[out.len() - 1] == 48
            invariant
                strip_zeros(out@) == strip_zeros(full),
                forall|j: int| 0 <= j < out@.len() ==> out@[j] < 128,
            decreases out@.len(),
        {
            proof {
                assert(out@.drop_last() =~= out@.subrange(0, out@.len() - 1));
            }
            out.pop();
        }
        proof {
            assert(strip_zeros(out@) == out@);
            assert(a@ == iabs(self@.0));
            assert(dn == self@.1 as nat);
            assert(ip@ == iabs(self@.0) / dn);
            assert(r0 == iabs(self@.0) % dn);
            assert(m == k - prefix.len() - 1);
            assert(full == prefix.push(46u8) + frac_digits(r0, dn, (k - prefix.len() - 1) as nat));
        }
        let ghost stripped = out@;
        if out.len() > 0 && out[out.len() - 1] == 46 {
            out.pop();
            proof {
                assert(out@ =~= stripped.drop_last());
            }
        }
        proof {
            assert(out@ == strip_point(stripped));
        }
        ascii_string(out)
    }
}


/// The exact value of a finite binary floating-point number with `mbits`
/// fraction bits, exponent field `ex`, fraction field `fr`, exponent bias
/// `bias`: a numerator and a positive denominator.
pub open spec fn binary_float_value(neg: bool, ex: nat, fr: nat, mbits: nat, bias: nat) -> (int, int) {
    let m: int = if ex == 0 { fr as int } else { fr + pow(2, mbits) };
    let e: int = (if ex == 0 { 1 } else { ex as int }) - bias - mbits;
    let sm = if neg { -m } else { m };
    if e >= 0 {
        (sm * pow(2, e as nat), 1)
    } else {
        (sm, pow(2, (-e) as nat))
    }
}

/// `m * 2^e` as a rational, for an exponent of either sign.
fn scaled_by_pow2(neg: bool, m: u64, e: i32) -> (r: Ratio)
    ensures
        r.wf(),
        same_value(
            r@,
            (if e >= 0 {
                ((if neg { -(m as int) } else { m as int }) * pow(2, e as nat), 1int)
            } else {
                ((if neg { -(m as int) } else { m as int }), pow(2, (-e) as nat))
            }),
        ),
{
    let num = BigInt::from_ubi(UBigInt::from_u64(m), neg);
    if e >= 0 {
        let p = BigInt::from_ubi(UBigInt::from_u32(2).pow_u32(e as u32), false);
        let v = num.mul_bi(&p);
        let r = Ratio::from_bi(v);
        proof {
            assert(v@ * 1 == v@);
        }
        r
    } else {
        let p = UBigInt::from_u32(2).pow_u32((-(e as i64)) as u32);
        proof {
            vstd::arithmetic::power::lemma_pow_positive(2, (-e) as nat);
        }
        Ratio::from_denom_and_numer(BigInt::from_ubi(p, false), num)
    }
}

impl Ratio {
    /// The exact value of an IEEE-754 double given by its bits; `None` for
    /// infinities and NaN.
    pub fn from_ieee754_f64_bits(bits: u64) -> (r: Option<Ratio>)
        ensures
            r.is_some() <==> (bits / 0x10_0000_0000_0000) % 2048 != 2047,
            r.is_some() ==> r.unwrap().wf() && same_value(
                r.unwrap()@,
                binary_float_value(bits >= 0x8000_0000_0000_0000, ((bits / 0x10_0000_0000_0000) % 2048) as nat,
                    (bits % 0x10_0000_0000_0000) as nat, 52, 1023),
            ),
    {
        let neg = bits >= 0x8000_0000_0000_0000;
        let ex = (bits / 0x10_0000_0000_0000) % 2048;
        let fr = bits % 0x10_0000_0000_0000;
        if ex == 2047 {
            return None;
        }
        proof {
            vstd::arithmetic::power2::lemma2_to64();
            vstd::arithmetic::power2::lemma2_to64_rest();
            vstd::arithmetic::power2::lemma_pow2(52);
            assert(pow(2, 52) == 0x10_0000_0000_0000);
        }
        let m: u64 = if ex == 0 { fr } else { fr + 0x10_0000_0000_0000 };
        let e: i32 = (if ex == 0 { 1 } else { ex as i32 }) - 1075;
        let r = scaled_by_pow2(neg, m, e);
        proof {
            let v = binary_float_value(neg, ex as nat, fr as nat, 52, 1023);
            assert(m == (if ex == 0 { fr as int } else { fr + pow(2, 52) }));
            assert(e == (if ex == 0 { 1 } else { ex as int }) - 1023 - 52);
        }
        Some(r)
    }

    /// The exact value of an IEEE-754 single given by its bits; `None` for
    /// infinities and NaN.
    pub fn from_ieee754_f32_bits(bits: u32) -> (r: Option<Ratio>)
        ensures
            r.is_some() <==> (bits / 0x80_0000) % 256 != 255,
            r.is_some() ==> r.unwrap().wf() && same_value(
                r.unwrap()@,
                binary_float_value(bits >= 0x8000_0000, ((bits / 0x80_0000) % 256) as nat,
                    (bits % 0x80_0000) as nat, 23, 127),
            ),
    {
        let neg = bits >= 0x8000_0000;
        let ex = (bits / 0x80_0000) % 256;
        let fr = bits % 0x80_0000;
        if ex == 255 {
            return None;
        }
        proof {
            vstd::arithmetic::power2::lemma2_to64();
            vstd::arithmetic::power2::lemma_pow2(23);
        }
        let m: u64 = if ex == 0 { fr as u64 } else { fr as u64 + 0x80_0000 };
        let e: i32 = (if ex == 0 { 1 } else { ex as i32 }) - 150;
        Some(scaled_by_pow2(neg, m, e))
    }
}


impl Ratio {
    /// A random value strictly between 0 and 1: four random limbs over `2^128`.
    pub fn random() -> (r: Ratio)
        ensures
            r.wf(),
            0 < r@.0 < r@.1,
            exists|n: nat| base_pow(3) <= n < base_pow(4) && #[trigger] same_value(r@, (n as int, base_pow(4) as int)),
    {
        let numer = UBigInt::random(4);
        let denom = UBigInt::one().shift_left(4);
        proof {
            crate::ubigint::lemma_base_pow_pos(3);
        }
        let r = Ratio::from_denom_and_numer(BigInt::from_ubi(denom, false), BigInt::from_ubi(numer, false));
        proof {
            r.lemma_wf_parts();
            let n = numer@ as int;
            let d = crate::ubigint::base_pow(4) as int;
            assert(r@.0 * d == n * r@.1);
            assert(same_value(r@, (numer@ as int, base_pow(4) as int)));
            assert(r@.0 > 0) by (nonlinear_arith)
                requires r@.0 * d == n * r@.1, n > 0, r@.1 > 0, d > 0;
            assert(n < d);
            if r@.0 >= r@.1 {
                assert(r@.0 * d >= r@.1 * d) by (nonlinear_arith)
                    requires r@.0 >= r@.1, d > 0;
                assert(r@.1 * d > n * r@.1) by (nonlinear_arith)
                    requires n < d, r@.1 > 0;
            }
        }
        r
    }
}

} // verus!
