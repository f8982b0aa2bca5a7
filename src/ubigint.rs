use vstd::arithmetic::div_mod::{lemma_fundamental_div_mod, lemma_fundamental_div_mod_converse};
use vstd::arithmetic::power::pow;
use vstd::arithmetic::power2::{lemma_pow2_unfold, pow2};
use vstd::prelude::*;

verus! {

/// The weight of one limb: 2^32.
pub open spec fn limb_base() -> nat {
    4294967296
}

/// `limb_base()` raised to `n`.
pub open spec fn base_pow(n: nat) -> nat
    decreases n,
{
    if n == 0 {
        1
    } else {
        limb_base() * base_pow((n - 1) as nat)
    }
}

/// The limb at `i`, or zero past the end.
pub open spec fn limb_at(s: Seq<u32>, i: int) -> nat {
    if 0 <= i < s.len() {
        s[i] as nat
    } else {
        0
    }
}

/// Value of the lowest `n` limbs of `s`, least significant first.
pub open spec fn prefix_value(s: Seq<u32>, n: nat) -> nat
    decreases n,
{
    if n == 0 {
        0
    } else {
        prefix_value(s, (n - 1) as nat) + limb_at(s, n - 1) * base_pow((n - 1) as nat)
    }
}

/// Value of a whole limb sequence.
pub open spec fn limbs_value(s: Seq<u32>) -> nat {
    prefix_value(s, s.len())
}

/// No most-significant zero limb, and at least one limb.
pub open spec fn limbs_normal(s: Seq<u32>) -> bool {
    s.len() >= 1 && (s.len() > 1 ==> s[s.len() - 1] != 0)
}

pub proof fn lemma_base_pow_pos(n: nat)
    ensures
        base_pow(n) >= 1,
    decreases n,
{
    if n > 0 {
        lemma_base_pow_pos((n - 1) as nat);
    }
}

proof fn lemma_prefix_bound(s: Seq<u32>, n: nat)
    ensures
        prefix_value(s, n) < base_pow(n),
    decreases n,
{
    if n > 0 {
        let m = (n - 1) as nat;
        lemma_prefix_bound(s, m);
        let p = prefix_value(s, m);
        let l = limb_at(s, m as int);
        let b = base_pow(m);
        assert(l <= limb_base() - 1);
        assert(l * b <= (limb_base() - 1) * b) by (nonlinear_arith)
            requires l <= limb_base() - 1;
        assert((limb_base() - 1) * b + b == limb_base() * b) by (nonlinear_arith);
    }
}

proof fn lemma_prefix_past_end(s: Seq<u32>, n: nat)
    requires
        n >= s.len(),
    ensures
        prefix_value(s, n) == limbs_value(s),
    decreases n,
{
    if n > s.len() {
        lemma_prefix_past_end(s, (n - 1) as nat);
        assert(limb_at(s, n - 1) == 0);
        assert(limb_at(s, n - 1) * base_pow((n - 1) as nat) == 0);
    }
}

proof fn lemma_prefix_agree(s: Seq<u32>, t: Seq<u32>, n: nat)
    requires
        forall|j: int| 0 <= j < n ==> limb_at(s, j) == limb_at(t, j),
    ensures
        prefix_value(s, n) == prefix_value(t, n),
    decreases n,
{
    if n > 0 {
        lemma_prefix_agree(s, t, (n - 1) as nat);
    }
}

proof fn lemma_top_limb(s: Seq<u32>)
    requires
        s.len() >= 1,
        s[s.len() - 1] != 0,
    ensures
        limbs_value(s) >= base_pow((s.len() - 1) as nat),
{
    let m = (s.len() - 1) as nat;
    let l = limb_at(s, m as int);
    let b = base_pow(m);
    assert(l >= 1);
    assert(l * b >= b) by (nonlinear_arith)
        requires l >= 1, b >= 0;
}

/// The value of a normalized sequence bounds its length both ways.
proof fn lemma_normal_bounds(s: Seq<u32>)
    requires
        limbs_normal(s),
    ensures
        limbs_value(s) < base_pow(s.len()),
        s.len() > 1 ==> limbs_value(s) >= base_pow((s.len() - 1) as nat),
{
    lemma_prefix_bound(s, s.len());
    if s.len() > 1 {
        lemma_top_limb(s);
    }
}

pub proof fn lemma_base_pow_mono(a: nat, b: nat)
    requires
        a <= b,
    ensures
        base_pow(a) <= base_pow(b),
    decreases b,
{
    if a < b {
        lemma_base_pow_mono(a, (b - 1) as nat);
        lemma_base_pow_pos((b - 1) as nat);
    }
}

/// Dropping a zero top limb keeps the value.
proof fn lemma_drop_zero_top(s: Seq<u32>)
    requires
        s.len() >= 1,
        s[s.len() - 1] == 0,
    ensures
        limbs_value(s.drop_last()) == limbs_value(s),
{
    let t = s.drop_last();
    lemma_prefix_agree(s, t, t.len());
    assert(limb_at(s, s.len() - 1) == 0);
    assert(limb_at(s, s.len() - 1) * base_pow(t.len()) == 0);
}

/// Writing `v` at `k` changes the value by the limb's weight.
proof fn lemma_prefix_update(s: Seq<u32>, k: int, v: u32, n: nat)
    requires
        0 <= k < s.len(),
    ensures
        k < n ==> prefix_value(s.update(k, v), n) + s[k] * base_pow(k as nat)
            == prefix_value(s, n) + v * base_pow(k as nat),
        k >= n ==> prefix_value(s.update(k, v), n) == prefix_value(s, n),
    decreases n,
{
    if n > 0 {
        lemma_prefix_update(s, k, v, (n - 1) as nat);
    }
}

/// Splitting a sequence at `k`: low limbs plus the weighted high part.
proof fn lemma_split(s: Seq<u32>, k: nat, n: nat)
    requires
        k <= n,
        k <= s.len(),
    ensures
        prefix_value(s, n) == prefix_value(s, k) + base_pow(k) * prefix_value(s.skip(k as int), (n - k) as nat),
    decreases n,
{
    if n > k {
        let m = (n - 1) as nat;
        lemma_split(s, k, m);
        let t = s.skip(k as int);
        assert(limb_at(t, (m - k) as int) == limb_at(s, m as int));
        lemma_base_pow_add(k, (m - k) as nat);
        let a = base_pow(k);
        let b = base_pow((m - k) as nat);
        let l = limb_at(s, m as int);
        let p = prefix_value(t, (m - k) as nat);
        assert(base_pow((n - k) as nat) == limb_base() * base_pow((m - k) as nat));
        assert(prefix_value(t, (n - k) as nat) == p + l * b);
        assert(base_pow(m) == a * b);
        assert(a * (p + l * b) == a * p + l * (a * b)) by (nonlinear_arith);
        assert(prefix_value(s, n) == prefix_value(s, m) + l * base_pow(m));
    } else {
        assert(prefix_value(s.skip(k as int), 0) == 0);
        assert(base_pow(k) * 0 == 0);
    }
}

proof fn lemma_base_pow_add(a: nat, b: nat)
    ensures
        base_pow(a + b) == base_pow(a) * base_pow(b),
    decreases a,
{
    if a > 0 {
        lemma_base_pow_add((a - 1) as nat, b);
        let x = base_pow((a - 1) as nat);
        let y = base_pow(b);
        assert(base_pow(a + b) == limb_base() * base_pow(((a - 1) + b) as nat));
        assert(base_pow(a) == limb_base() * x);
        assert(limb_base() * (x * y) == (limb_base() * x) * y) by (nonlinear_arith);
    } else {
        assert(base_pow(0) == 1);
        assert(a + b == b);
    }
}

/// One limb's weight is 32 binary places.
pub proof fn lemma_base_pow_pow2(n: nat)
    ensures
        base_pow(n) == pow2(32 * n),
    decreases n,
{
    vstd::arithmetic::power2::lemma2_to64();
    if n > 0 {
        lemma_base_pow_pow2((n - 1) as nat);
        vstd::arithmetic::power2::lemma_pow2_adds(32, 32 * (n - 1) as nat);
        assert(32 + 32 * (n - 1) as nat == 32 * n);
    }
}

/// Relies on `rand::random::<u32>`: a draw from the thread-local generator.
/// Nothing is promised of the value.
#[verifier::external_body]
fn random_limb() -> (r: u32) {
    rand::random::<u32>()
}

/// Each zero limb raised to 1.
pub open spec fn raise_zero_limbs(s: Seq<u32>) -> Seq<u32> {
    s.map_values(|x: u32| if x == 0 { 1u32 } else { x })
}

/// Number of limbs in the normalized representation of `x`.
pub open spec fn limb_len_of(x: nat) -> nat
    decreases x,
{
    if x < limb_base() {
        1
    } else {
        1 + limb_len_of(x / limb_base())
    }
}

proof fn lemma_limb_len_range(x: nat, n: nat)
    requires
        n >= 1,
        x < base_pow(n),
        n > 1 ==> x >= base_pow((n - 1) as nat),
    ensures
        limb_len_of(x) == n,
    decreases n,
{
    let b = limb_base();
    if n == 1 {
        assert(base_pow(1) == b) by {
            reveal_with_fuel(base_pow, 2);
        }
    } else {
        let m = (n - 1) as nat;
        let w = base_pow((m - 1) as nat);
        lemma_base_pow_pos((m - 1) as nat);
        assert(base_pow(m) == b * w);
        assert(base_pow(n) == b * (b * w));
        assert(x >= b) by (nonlinear_arith)
            requires x >= b * w, w >= 1, b > 0;
        lemma_fundamental_div_mod(x as int, b as int);
        let q = x / b;
        assert(q >= w) by (nonlinear_arith)
            requires x == b * q + x % b, x % b < b, x >= b * w, b > 0;
        assert(q < b * w) by (nonlinear_arith)
            requires x == b * q + x % b, x % b >= 0, x < b * (b * w), b > 0;
        lemma_limb_len_range(q, m);
    }
}

/// An unsigned integer of any size, held as 32-bit limbs, least significant first.
#[derive(Clone, Debug)]
pub struct UBigInt {
    limbs: Vec<u32>,
}

impl View for UBigInt {
    type V = nat;

    closed spec fn view(&self) -> nat {
        limbs_value(self.limbs@)
    }
}

impl UBigInt {
    /// The representation invariant: normalized limbs.
    pub closed spec fn wf(&self) -> bool {
        limbs_normal(self.limbs@)
    }

    /// Number of limbs in the representation.
    pub closed spec fn limb_count(&self) -> nat {
        self.limbs@.len()
    }

    /// Both hold the same limbs.
    pub closed spec fn same_limbs(&self, o: &UBigInt) -> bool {
        self.limbs@ == o.limbs@
    }

    /// Two normalized values are equal exactly when their limbs are.
    pub proof fn lemma_eq_iff_limbs(&self, o: &UBigInt)
        requires
            self.wf(),
            o.wf(),
        ensures
            self.same_limbs(o) <==> (self@ == o@),
    {
        if self@ == o@ && self.limbs@ != o.limbs@ {
            cmp_limbs(self.limbs@, o.limbs@);
        }
    }

    /// The limb count is determined by the value.
    pub proof fn lemma_limb_len(&self)
        requires
            self.wf(),
        ensures
            self.limb_count() == limb_len_of(self@),
    {
        lemma_normal_bounds(self.limbs@);
        lemma_limb_len_range(self@, self.limb_count());
    }

    pub proof fn lemma_limb_count(&self)
        requires
            self.wf(),
        ensures
            self.limb_count() >= 1,
            self@ < base_pow(self.limb_count()),
            self.limb_count() > 1 ==> self@ >= base_pow((self.limb_count() - 1) as nat),
    {
        lemma_normal_bounds(self.limbs@);
    }
}

/// The highest differing limb decides the order of two prefixes.
proof fn lemma_order_top(a: Seq<u32>, b: Seq<u32>, i: nat, n: nat)
    requires
        i < n,
        limb_at(a, i as int) < limb_at(b, i as int),
        forall|j: int| i < j < n ==> limb_at(a, j) == limb_at(b, j),
    ensures
        prefix_value(a, n) < prefix_value(b, n),
    decreases n,
{
    let m = (n - 1) as nat;
    if m == i {
        lemma_prefix_bound(a, m);
        let la = limb_at(a, i as int);
        let lb = limb_at(b, i as int);
        let w = base_pow(m);
        assert(la * w + w <= lb * w) by (nonlinear_arith)
            requires la + 1 <= lb;
    } else {
        lemma_order_top(a, b, i, m);
    }
}

/// Sequences of one length that differ somewhere have different values.
proof fn lemma_distinct(a: Seq<u32>, b: Seq<u32>, n: nat)
    requires
        a.len() == b.len(),
        n <= a.len(),
        exists|j: int| 0 <= j < n && a[j] != b[j],
    ensures
        prefix_value(a, n) != prefix_value(b, n),
    decreases n,
{
    let m = (n - 1) as nat;
    if a[m as int] == b[m as int] {
        let j = choose|j: int| 0 <= j < n && a[j] != b[j];
        assert(j < m);
        lemma_distinct(a, b, m);
    } else if a[m as int] < b[m as int] {
        lemma_order_top(a, b, m, n);
    } else {
        lemma_order_top(b, a, m, n);
    }
}

/// Normalized sequences of different content have different values.
proof fn cmp_limbs(a: Seq<u32>, b: Seq<u32>)
    requires
        limbs_normal(a),
        limbs_normal(b),
        a != b,
    ensures
        limbs_value(a) != limbs_value(b),
{
    lemma_normal_bounds(a);
    lemma_normal_bounds(b);
    if a.len() < b.len() {
        lemma_base_pow_mono(a.len(), (b.len() - 1) as nat);
    } else if b.len() < a.len() {
        lemma_base_pow_mono(b.len(), (a.len() - 1) as nat);
    } else {
        assert(!(a =~= b));
        lemma_distinct(a, b, a.len());
    }
}

proof fn lemma_short(s: Seq<u32>)
    ensures
        base_pow(0) == 1,
        base_pow(1) == limb_base(),
        s.len() == 1 ==> limbs_value(s) == s[0],
        s.len() == 2 ==> limbs_value(s) == s[0] + s[1] * limb_base(),
{
    reveal_with_fuel(base_pow, 2);
    reveal_with_fuel(prefix_value, 3);
}

/// Appending a limb adds it at the next weight.
proof fn lemma_push(s: Seq<u32>, v: u32)
    ensures
        prefix_value(s.push(v), s.len()) == prefix_value(s, s.len()),
        limbs_value(s.push(v)) == limbs_value(s) + v * base_pow(s.len()),
{
    lemma_prefix_agree(s, s.push(v), s.len());
}

/// A value split into a low limb and a carry, weighted by `w`.
proof fn lemma_carry(t: nat, w: nat)
    ensures
        (t % limb_base()) * w + (t / limb_base()) * (limb_base() * w) == t * w,
        t % limb_base() < limb_base(),
{
    lemma_fundamental_div_mod(t as int, limb_base() as int);
    let q = t / limb_base();
    let r = t % limb_base();
    assert(r * w + q * (limb_base() * w) == (limb_base() * q + r) * w) by (nonlinear_arith);
}

/// Strips most-significant zero limbs, keeping at least one limb.
fn trim(v: &mut Vec<u32>)
    ensures
        limbs_normal(final(v)@),
        limbs_value(final(v)@) == limbs_value(old(v)@),
        final(v)@.len() <= old(v)@.len() || old(v)@.len() == 0,
{
    while v.len() > 1 && v[v.len() - 1] == 0
        invariant
            limbs_value(v@) == limbs_value(old(v)@),
            v@.len() <= old(v)@.len(),
        decreases v.len(),
    {
        proof {
            lemma_drop_zero_top(v@);
        }
        v.pop();
    }
    if v.len() == 0 {
        v.push(0);
        proof {
            assert(limbs_value(v@) == limbs_value(seq![0u32].drop_last())) by {
                lemma_drop_zero_top(v@);
            }
            assert(seq![0u32].drop_last() =~= Seq::<u32>::empty());
        }
    }
}

impl PartialEq for UBigInt {
    fn eq(&self, o: &UBigInt) -> (r: bool) {
        if self.limbs.len() != o.limbs.len() {
            return false;
        }
        let mut i: usize = 0;
        while i < self.limbs.len()
            invariant
                self.limbs@.len() == o.limbs@.len(),
                i <= self.limbs@.len(),
                forall|j: int| 0 <= j < i ==> self.limbs@[j] == o.limbs@[j],
            decreases self.limbs@.len() - i,
        {
            if self.limbs[i] != o.limbs[i] {
                return false;
            }
            i += 1;
        }
        assert(self.limbs@ =~= o.limbs@);
        true
    }
}

impl vstd::std_specs::cmp::PartialEqSpecImpl for UBigInt {
    open spec fn obeys_eq_spec() -> bool {
        true
    }

    open spec fn eq_spec(&self, o: &UBigInt) -> bool {
        self.same_limbs(o)
    }
}

impl UBigInt {
    pub fn zero() -> (r: UBigInt)
        ensures
            r.wf(),
            r@ == 0,
    {
        UBigInt::from_u32(0)
    }

    pub fn one() -> (r: UBigInt)
        ensures
            r.wf(),
            r@ == 1,
    {
        UBigInt::from_u32(1)
    }

    pub fn from_u32(n: u32) -> (r: UBigInt)
        ensures
            r.wf(),
            r@ == n,
    {
        let r = UBigInt { limbs: vec![n] };
        proof {
            lemma_short(r.limbs@);
        }
        r
    }

    pub fn from_u64(n: u64) -> (r: UBigInt)
        ensures
            r.wf(),
            r@ == n,
    {
        let lo = (n % 4294967296) as u32;
        let hi = (n / 4294967296) as u32;
        let mut v: Vec<u32> = vec![lo, hi];
        proof {
            lemma_short(v@);
        }
        trim(&mut v);
        UBigInt { limbs: v }
    }

    /// Builds a value from limbs, least significant first; any number of
    /// most-significant zero limbs is accepted.
    pub fn from_raw(limbs: Vec<u32>) -> (r: UBigInt)
        ensures
            r.wf(),
            r@ == limbs_value(limbs@),
    {
        let mut v = limbs;
        trim(&mut v);
        UBigInt { limbs: v }
    }

    /// The value with the given limbs, least significant first, where each
    /// zero limb is raised to 1; zero for no limbs. This turns drawn limbs
    /// into a value with exactly that many limbs.
    pub fn from_random_limbs(limbs: Vec<u32>) -> (r: UBigInt)
        ensures
            r.wf(),
            limbs@.len() == 0 ==> r@ == 0,
            limbs@.len() > 0 ==> r@ == limbs_value(raise_zero_limbs(limbs@)),
            limbs@.len() > 0 ==> r.limb_count() == limbs@.len(),
            limbs@.len() > 0 ==> base_pow((limbs@.len() - 1) as nat) <= r@ < base_pow(limbs@.len()),
    {
        if limbs.len() == 0 {
            return UBigInt::zero();
        }
        let mut v: Vec<u32> = Vec::new();
        let mut i: usize = 0;
        while i < limbs.len()
            invariant
                i <= limbs@.len(),
                v@ =~= raise_zero_limbs(limbs@).take(i as int),
            decreases limbs@.len() - i,
        {
            let x = limbs[i];
            v.push(if x == 0 { 1 } else { x });
            i += 1;
        }
        proof {
            assert(v@ =~= raise_zero_limbs(limbs@));
        }
        let r = UBigInt { limbs: v };
        proof {
            lemma_normal_bounds(r.limbs@);
            if r.limbs@.len() == 1 {
                lemma_short(r.limbs@);
            }
        }
        r
    }

    /// A random value of `scale` limbs, each limb drawn at random and raised
    /// to at least 1; zero when `scale` is 0. Not for cryptographic use.
    pub fn random(scale: usize) -> (r: UBigInt)
        ensures
            r.wf(),
            scale == 0 ==> r@ == 0,
            scale > 0 ==> base_pow((scale - 1) as nat) <= r@ < base_pow(scale as nat),
    {
        let mut drawn: Vec<u32> = Vec::new();
        while drawn.len() < scale
            invariant
                drawn@.len() <= scale,
            decreases scale - drawn@.len(),
        {
            drawn.push(random_limb());
        }
        UBigInt::from_random_limbs(drawn)
    }

    /// A copy of the value.
    pub fn duplicate(&self) -> (r: UBigInt)
        ensures
            r.same_limbs(self),
            r@ == self@,
            r.wf() == self.wf(),
    {
        let mut v: Vec<u32> = Vec::new();
        let mut i: usize = 0;
        while i < self.limbs.len()
            invariant
                i <= self.limbs@.len(),
                v@ =~= self.limbs@.take(i as int),
            decreases self.limbs@.len() - i,
        {
            v.push(self.limbs[i]);
            i += 1;
        }
        assert(v@ =~= self.limbs@);
        UBigInt { limbs: v }
    }

    pub fn len(&self) -> (r: usize)
        ensures
            r == self.limb_count(),
    {
        self.limbs.len()
    }

    pub fn is_zero(&self) -> (r: bool)
        requires
            self.wf(),
        ensures
            r == (self@ == 0),
    {
        proof {
            self.lemma_limb_count();
            lemma_short(self.limbs@);
            if self.limbs@.len() > 1 {
                lemma_base_pow_mono(1, (self.limbs@.len() - 1) as nat);
            }
        }
        self.limbs.len() == 1 && self.limbs[0] == 0
    }

    pub fn is_one(&self) -> (r: bool)
        requires
            self.wf(),
        ensures
            r == (self@ == 1),
    {
        proof {
            self.lemma_limb_count();
            lemma_short(self.limbs@);
            if self.limbs@.len() > 1 {
                lemma_base_pow_mono(1, (self.limbs@.len() - 1) as nat);
            }
        }
        self.limbs.len() == 1 && self.limbs[0] == 1
    }

    /// -1, 0 or 1 as `self` is below, equal to or above `o`.
    pub fn comp_ubi(&self, o: &UBigInt) -> (r: i8)
        requires
            self.wf(),
            o.wf(),
        ensures
            r == -1 <==> self@ < o@,
            r == 0 <==> self@ == o@,
            r == 1 <==> self@ > o@,
            -1 <= r <= 1,
    {
        let a = &self.limbs;
        let b = &o.limbs;
        proof {
            lemma_normal_bounds(a@);
            lemma_normal_bounds(b@);
        }
        if a.len() < b.len() {
            proof {
                lemma_base_pow_mono(a@.len(), (b@.len() - 1) as nat);
            }
            return -1;
        }
        if a.len() > b.len() {
            proof {
                lemma_base_pow_mono(b@.len(), (a@.len() - 1) as nat);
            }
            return 1;
        }
        let mut i: usize = a.len();
        while i > 0
            invariant
                a@ == self.limbs@,
                b@ == o.limbs@,
                a@.len() == b@.len(),
                i <= a@.len(),
                forall|j: int| i <= j < a@.len() ==> a@[j] == b@[j],
            decreases i,
        {
            i -= 1;
            if a[i] < b[i] {
                proof {
                    lemma_order_top(a@, b@, i as nat, a@.len());
                    assert(self@ < o@);
                }
                return -1;
            }
            if a[i] > b[i] {
                proof {
                    lemma_order_top(b@, a@, i as nat, a@.len());
                }
                return 1;
            }
        }
        assert(a@ =~= b@);
        0
    }

    pub fn add_ubi(&self, o: &UBigInt) -> (r: UBigInt)
        requires
            self.wf(),
            o.wf(),
        ensures
            r.wf(),
            r@ == self@ + o@,
    {
        let a = &self.limbs;
        let b = &o.limbs;
        let n = if a.len() > b.len() { a.len() } else { b.len() };
        let mut res: Vec<u32> = Vec::new();
        let mut carry: u64 = 0;
        let mut i: usize = 0;
        while i < n
            invariant
                n == a@.len() || n == b@.len(),
                a@.len() <= n,
                b@.len() <= n,
                i <= n,
                res@.len() == i,
                carry <= 1,
                prefix_value(res@, i as nat) + carry * base_pow(i as nat) == prefix_value(a@, i as nat)
                    + prefix_value(b@, i as nat),
            decreases n - i,
        {
            let x: u64 = if i < a.len() { a[i] as u64 } else { 0 };
            let y: u64 = if i < b.len() { b[i] as u64 } else { 0 };
            let t: u64 = x + y + carry;
            let ghost old_res = res@;
            res.push((t % 4294967296) as u32);
            proof {
                lemma_push(old_res, (t % 4294967296) as u32);
                lemma_carry(t as nat, base_pow(i as nat));
                assert(limb_at(a@, i as int) == x);
                assert(limb_at(b@, i as int) == y);
                let w = base_pow(i as nat);
                assert((x + y + carry) * w == x * w + y * w + carry * w) by (nonlinear_arith);
            }
            carry = t / 4294967296;
            i += 1;
        }
        proof {
            lemma_prefix_past_end(a@, n as nat);
            lemma_prefix_past_end(b@, n as nat);
        }
        let ghost before = res@;
        res.push(carry as u32);
        proof {
            lemma_push(before, carry as u32);
        }
        trim(&mut res);
        UBigInt { limbs: res }
    }

    pub fn add_ubi_mut(&mut self, o: &UBigInt)
        requires
            old(self).wf(),
            o.wf(),
        ensures
            final(self).wf(),
            final(self)@ == old(self)@ + o@,
    {
        *self = self.add_ubi(o);
    }

    /// Requires `o` not above `self`.
    pub fn sub_ubi(&self, o: &UBigInt) -> (r: UBigInt)
        requires
            self.wf(),
            o.wf(),
            o@ <= self@,
        ensures
            r.wf(),
            r@ == self@ - o@,
    {
        let a = &self.limbs;
        let b = &o.limbs;
        proof {
            lemma_normal_bounds(a@);
            lemma_normal_bounds(b@);
            if b@.len() > a@.len() {
                lemma_base_pow_mono(a@.len(), (b@.len() - 1) as nat);
            }
        }
        let n = a.len();
        let mut res: Vec<u32> = Vec::new();
        let mut borrow: u64 = 0;
        let mut i: usize = 0;
        while i < n
            invariant
                a@ == self.limbs@,
                b@.len() <= n == a@.len(),
                i <= n,
                res@.len() == i,
                borrow <= 1,
                prefix_value(res@, i as nat) + prefix_value(b@, i as nat) == prefix_value(a@, i as nat)
                    + borrow * base_pow(i as nat),
            decreases n - i,
        {
            let x: u64 = a[i] as u64;
            let y: u64 = if i < b.len() { b[i] as u64 } else { 0 };
            let d: u64;
            let nb: u64;
            if x >= y + borrow {
                d = x - y - borrow;
                nb = 0;
            } else {
                d = x + 4294967296 - y - borrow;
                nb = 1;
            }
            let ghost old_res = res@;
            res.push(d as u32);
            proof {
                lemma_push(old_res, d as u32);
                assert(limb_at(a@, i as int) == x);
                assert(limb_at(b@, i as int) == y);
                let w = base_pow(i as nat);
                assert(base_pow((i + 1) as nat) == limb_base() * w);
                assert(d + y + borrow == x + nb * limb_base());
                assert((d + y + borrow) * w == d * w + y * w + borrow * w) by (nonlinear_arith);
                assert((x + nb * limb_base()) * w == x * w + nb * (limb_base() * w)) by (nonlinear_arith);
            }
            borrow = nb;
            i += 1;
        }
        proof {
            lemma_prefix_past_end(b@, n as nat);
            lemma_prefix_bound(res@, n as nat);
            if borrow == 1 {
                assert(false);
            }
        }
        trim(&mut res);
        UBigInt { limbs: res }
    }

    /// Requires `o` not above `self`.
    pub fn sub_ubi_mut(&mut self, o: &UBigInt)
        requires
            old(self).wf(),
            o.wf(),
            o@ <= old(self)@,
        ensures
            final(self).wf(),
            final(self)@ == old(self)@ - o@,
    {
        *self = self.sub_ubi(o);
    }

    pub fn mul_u32(&self, m: u32) -> (r: UBigInt)
        requires
            self.wf(),
        ensures
            r.wf(),
            r@ == self@ * m,
    {
        let a = &self.limbs;
        let n = a.len();
        let mut res: Vec<u32> = Vec::new();
        let mut carry: u64 = 0;
        let mut i: usize = 0;
        assert(prefix_value(a@, 0) == 0);
        assert(0 * (m as nat) == 0) by (nonlinear_arith);
        while i < n
            invariant
                n == a@.len(),
                i <= n,
                res@.len() == i,
                carry < 4294967296,
                prefix_value(res@, i as nat) + carry * base_pow(i as nat) == prefix_value(a@, i as nat) * m,
            decreases n - i,
        {
            let x: u64 = a[i] as u64;
            assert(x * (m as u64) <= 4294967295 * 4294967295) by (nonlinear_arith)
                requires x <= 4294967295, m <= 4294967295;
            let t: u64 = x * (m as u64) + carry;
            let ghost old_res = res@;
            res.push((t % 4294967296) as u32);
            proof {
                lemma_push(old_res, (t % 4294967296) as u32);
                let w = base_pow(i as nat);
                lemma_carry(t as nat, w);
                assert(limb_at(a@, i as int) == x);
                let p = prefix_value(a@, i as nat);
                assert((x * m + carry) * w == carry * w + (x * w) * m) by (nonlinear_arith);
                assert((p + x * w) * m == p * m + (x * w) * m) by (nonlinear_arith);
            }
            carry = t / 4294967296;
            i += 1;
        }
        let ghost before = res@;
        res.push(carry as u32);
        proof {
            lemma_push(before, carry as u32);
        }
        trim(&mut res);
        UBigInt { limbs: res }
    }

    pub fn mul_u32_mut(&mut self, m: u32)
        requires
            old(self).wf(),
        ensures
            final(self).wf(),
            final(self)@ == old(self)@ * m,
    {
        *self = self.mul_u32(m);
    }

    /// Quotient and remainder by a nonzero limb.
    pub fn div_rem_u32(&self, d: u32) -> (r: (UBigInt, u32))
        requires
            self.wf(),
            d > 0,
        ensures
            r.0.wf(),
            r.0@ == self@ / (d as nat),
            r.1 == self@ % (d as nat),
    {
        let a = &self.limbs;
        let n = a.len();
        let mut q: Vec<u32> = Vec::new();
        while q.len() < n
            invariant
                q@.len() <= n,
                forall|j: int| 0 <= j < q@.len() ==> q@[j] == 0,
            decreases n - q@.len(),
        {
            q.push(0);
        }
        proof {
            assert forall|j: int| 0 <= j < n implies limb_at(q@, j) == limb_at(Seq::<u32>::empty(), j) by {}
            lemma_prefix_agree(q@, Seq::<u32>::empty(), n as nat);
            lemma_prefix_past_end(Seq::<u32>::empty(), n as nat);
            assert(limbs_value(q@) == 0);
            assert(0 * (d as nat) == 0) by (nonlinear_arith);
            assert(0 * base_pow(n as nat) == 0) by (nonlinear_arith);
        }
        let mut rem: u64 = 0;
        let mut i: usize = n;
        while i > 0
            invariant
                n == a@.len(),
                a@ == self.limbs@,
                q@.len() == n,
                i <= n,
                d > 0,
                rem < d,
                forall|j: int| 0 <= j < i ==> q@[j] == 0,
                limbs_value(a@) == limbs_value(q@) * d + rem * base_pow(i as nat) + prefix_value(a@, i as nat),
            decreases i,
        {
            i -= 1;
            assert(rem * 4294967296 + 4294967295 < (d as u64) * 4294967296) by (nonlinear_arith)
                requires rem < d;
            let cur: u64 = rem * 4294967296 + a[i] as u64;
            let qd: u64 = cur / d as u64;
            proof {
                lemma_fundamental_div_mod(cur as int, d as int);
                let ci = cur as int;
                let di = d as int;
                let qi = qd as int;
                assert(ci >= di * qi);
                if qi >= 4294967296 {
                    assert(di * qi >= di * 4294967296) by (nonlinear_arith)
                        requires qi >= 4294967296, di > 0;
                }
            }
            let ghost old_q = q@;
            q.set(i, qd as u32);
            proof {
                lemma_prefix_update(old_q, i as int, qd as u32, n as nat);
                let w = base_pow(i as nat);
                assert(base_pow((i + 1) as nat) == limb_base() * w);
                assert(limb_at(a@, i as int) == a@[i as int]);
                let vq = limbs_value(old_q);
                let nr = (cur as int) % (d as int);
                assert((vq + qd * w) * d + nr * w == vq * d + (d * qd + nr) * w) by (nonlinear_arith);
                assert(rem * (limb_base() * w) + a@[i as int] * w == (rem * limb_base() + a@[i as int]) * w) by (nonlinear_arith);
            }
            rem = cur % d as u64;
        }
        proof {
            lemma_short(seq![0u32]);
            assert(prefix_value(a@, 0) == 0);
            assert(rem * base_pow(0) == rem);
            lemma_fundamental_div_mod_converse(limbs_value(a@) as int, d as int, limbs_value(q@) as int, rem as int);
        }
        trim(&mut q);
        (UBigInt { limbs: q }, rem as u32)
    }

    /// Multiplies by `limb_base()` raised to `k`.
    pub fn shift_left(&self, k: usize) -> (r: UBigInt)
        requires
            self.wf(),
        ensures
            r.wf(),
            r@ == self@ * base_pow(k as nat),
    {
        if self.is_zero() {
            assert(self@ * base_pow(k as nat) == 0) by (nonlinear_arith)
                requires self@ == 0;
            return UBigInt::zero();
        }
        let mut v: Vec<u32> = Vec::new();
        while v.len() < k
            invariant
                v@.len() <= k,
                forall|j: int| 0 <= j < v@.len() ==> v@[j] == 0,
            decreases k - v@.len(),
        {
            v.push(0);
        }
        let mut i: usize = 0;
        while i < self.limbs.len()
            invariant
                i <= self.limbs@.len(),
                v@.len() == k + i,
                forall|j: int| 0 <= j < k ==> v@[j] == 0,
                forall|j: int| 0 <= j < i ==> v@[k + j] == self.limbs@[j],
            decreases self.limbs@.len() - i,
        {
            v.push(self.limbs[i]);
            i += 1;
        }
        proof {
            let t = v@;
            assert(t.skip(k as int) =~= self.limbs@);
            lemma_split(t, k as nat, t.len());
            assert forall|j: int| 0 <= j < k implies limb_at(t, j) == limb_at(Seq::<u32>::empty(), j) by {}
            lemma_prefix_agree(t, Seq::<u32>::empty(), k as nat);
            lemma_prefix_past_end(Seq::<u32>::empty(), k as nat);
            assert(t[t.len() - 1] == self.limbs@[self.limbs@.len() - 1]);
            lemma_short(self.limbs@);
            assert(base_pow(k as nat) * self@ == self@ * base_pow(k as nat)) by (nonlinear_arith);
        }
        UBigInt { limbs: v }
    }

    /// Divides by `limb_base()` raised to `k`, rounding down.
    pub fn shift_right(&self, k: usize) -> (r: UBigInt)
        requires
            self.wf(),
        ensures
            r.wf(),
            r@ == self@ / base_pow(k as nat),
    {
        proof {
            lemma_base_pow_pos(k as nat);
        }
        if k >= self.limbs.len() {
            proof {
                lemma_normal_bounds(self.limbs@);
                lemma_base_pow_mono(self.limbs@.len(), k as nat);
                lemma_fundamental_div_mod_converse(self@ as int, base_pow(k as nat) as int, 0, self@ as int);
            }
            return UBigInt::zero();
        }
        let mut v: Vec<u32> = Vec::new();
        let mut i: usize = k;
        while i < self.limbs.len()
            invariant
                k <= i <= self.limbs@.len(),
                v@ =~= self.limbs@.subrange(k as int, i as int),
            decreases self.limbs@.len() - i,
        {
            v.push(self.limbs[i]);
            i += 1;
        }
        proof {
            let s = self.limbs@;
            assert(v@ =~= s.skip(k as int));
            lemma_split(s, k as nat, s.len());
            lemma_prefix_bound(s, k as nat);
            assert(base_pow(k as nat) * limbs_value(v@) == limbs_value(v@) * base_pow(k as nat)) by (nonlinear_arith);
            lemma_fundamental_div_mod_converse(self@ as int, base_pow(k as nat) as int, limbs_value(v@) as int, prefix_value(s, k as nat) as int);
        }
        UBigInt { limbs: v }
    }

    pub fn shift_right_mut(&mut self, k: usize)
        requires
            old(self).wf(),
        ensures
            final(self).wf(),
            final(self)@ == old(self)@ / base_pow(k as nat),
    {
        *self = self.shift_right(k);
    }

    pub fn mul_ubi(&self, o: &UBigInt) -> (r: UBigInt)
        requires
            self.wf(),
            o.wf(),
        ensures
            r.wf(),
            r@ == self@ * o@,
    {
        let mut acc = UBigInt::zero();
        let mut i: usize = 0;
        proof {
            assert(prefix_value(o.limbs@, 0) == 0);
            assert(self@ * 0 == 0);
        }
        while i < o.limbs.len()
            invariant
                self.wf(),
                acc.wf(),
                i <= o.limbs@.len(),
                acc@ == self@ * prefix_value(o.limbs@, i as nat),
            decreases o.limbs@.len() - i,
        {
            let row = self.mul_u32(o.limbs[i]);
            let shifted = row.shift_left(i);
            acc = acc.add_ubi(&shifted);
            proof {
                let w = base_pow(i as nat);
                let x = o.limbs@[i as int] as nat;
                let p = prefix_value(o.limbs@, i as nat);
                assert(limb_at(o.limbs@, i as int) == x);
                assert(self@ * p + (self@ * x) * w == self@ * (p + x * w)) by (nonlinear_arith);
            }
            i += 1;
        }
        acc
    }

    pub fn mul_ubi_mut(&mut self, o: &UBigInt)
        requires
            old(self).wf(),
            o.wf(),
        ensures
            final(self).wf(),
            final(self)@ == old(self)@ * o@,
    {
        *self = self.mul_ubi(o);
    }

    pub fn add_u32(&self, n: u32) -> (r: UBigInt)
        requires
            self.wf(),
        ensures
            r.wf(),
            r@ == self@ + n,
    {
        self.add_ubi(&UBigInt::from_u32(n))
    }

    pub fn add_u32_mut(&mut self, n: u32)
        requires
            old(self).wf(),
        ensures
            final(self).wf(),
            final(self)@ == old(self)@ + n,
    {
        *self = self.add_u32(n);
    }

    /// Requires `n` not above `self`.
    pub fn sub_u32(&self, n: u32) -> (r: UBigInt)
        requires
            self.wf(),
            n <= self@,
        ensures
            r.wf(),
            r@ == self@ - n,
    {
        self.sub_ubi(&UBigInt::from_u32(n))
    }

    /// Requires `n` not above `self`.
    pub fn sub_u32_mut(&mut self, n: u32)
        requires
            old(self).wf(),
            n <= old(self)@,
        ensures
            final(self).wf(),
            final(self)@ == old(self)@ - n,
    {
        *self = self.sub_u32(n);
    }

    pub fn div_u32(&self, d: u32) -> (r: UBigInt)
        requires
            self.wf(),
            d > 0,
        ensures
            r.wf(),
            r@ == self@ / (d as nat),
    {
        self.div_rem_u32(d).0
    }

    pub fn div_u32_mut(&mut self, d: u32)
        requires
            old(self).wf(),
            d > 0,
        ensures
            final(self).wf(),
            final(self)@ == old(self)@ / (d as nat),
    {
        *self = self.div_u32(d);
    }

    pub fn rem_u32(&self, d: u32) -> (r: u32)
        requires
            self.wf(),
            d > 0,
        ensures
            r == self@ % (d as nat),
    {
        self.div_rem_u32(d).1
    }

    /// Quotient and remainder by a nonzero value.
    pub fn div_rem_ubi(&self, o: &UBigInt) -> (r: (UBigInt, UBigInt))
        requires
            self.wf(),
            o.wf(),
            o@ > 0,
        ensures
            r.0.wf(),
            r.1.wf(),
            r.0@ == self@ / o@,
            r.1@ == self@ % o@,
    {
        let mut d = o.duplicate();
        let ghost mut k: nat = 0;
        proof {
            vstd::arithmetic::power2::lemma2_to64();
        }
        while d.leq_ubi(self)
            invariant
                self.wf(),
                d.wf(),
                o.wf(),
                o@ > 0,
                d@ == o@ * pow2(k),
            decreases 2 * self@ + 1 - d@,
        {
            proof {
                vstd::arithmetic::power2::lemma_pow2_pos(k);
                lemma_pow2_unfold((k + 1) as nat);
                assert(o@ * pow2((k + 1) as nat) == (o@ * pow2(k as nat)) * 2) by (nonlinear_arith)
                    requires pow2((k + 1) as nat) == 2 * pow2(k as nat);
                assert(d@ >= 1) by (nonlinear_arith)
                    requires d@ == o@ * pow2(k as nat), o@ >= 1, pow2(k as nat) >= 1;
            }
            d = d.mul_u32(2);
            proof {
                k = k + 1;
            }
        }
        let mut q = UBigInt::zero();
        let mut rem = self.duplicate();
        assert(self@ == q@ * d@ + rem@);
        while d.gt_ubi(o)
            invariant
                d.wf(),
                o.wf(),
                o@ > 0,
                self.wf(),
                q.wf(),
                rem.wf(),
                d@ == o@ * pow2(k),
                self@ == q@ * d@ + rem@,
                rem@ < d@,
            decreases d@,
        {
            proof {
                if k == 0 {
                    vstd::arithmetic::power2::lemma2_to64();
                    assert(false);
                }
                lemma_pow2_unfold(k as nat);
                let h = o@ * pow2((k - 1) as nat);
                assert(d@ == h * 2) by (nonlinear_arith)
                    requires d@ == o@ * pow2(k as nat), pow2(k as nat) == 2 * pow2((k - 1) as nat), h == o@ * pow2((k - 1) as nat);
                lemma_fundamental_div_mod_converse(d@ as int, 2, h as int, 0);
            }
            d = d.div_u32(2);
            proof {
                k = (k - 1) as nat;
            }
            let ghost q0 = q@;
            let ghost r0 = rem@;
            q = q.mul_u32(2);
            if rem.geq_ubi(&d) {
                rem = rem.sub_ubi(&d);
                q = q.add_u32(1);
            }
            proof {
                assert(q0 * (d@ * 2) == (q0 * 2) * d@) by (nonlinear_arith);
                assert((q0 * 2 + 1) * d@ == (q0 * 2) * d@ + d@) by (nonlinear_arith);
            }
        }
        proof {
            vstd::arithmetic::power2::lemma_pow2_pos(k);
            assert(d@ >= o@) by (nonlinear_arith)
                requires d@ == o@ * pow2(k), pow2(k) >= 1;
            lemma_fundamental_div_mod_converse(self@ as int, o@ as int, q@ as int, rem@ as int);
        }
        (q, rem)
    }

    pub fn div_ubi(&self, o: &UBigInt) -> (r: UBigInt)
        requires
            self.wf(),
            o.wf(),
            o@ > 0,
        ensures
            r.wf(),
            r@ == self@ / o@,
    {
        self.div_rem_ubi(o).0
    }

    pub fn div_ubi_mut(&mut self, o: &UBigInt)
        requires
            old(self).wf(),
            o.wf(),
            o@ > 0,
        ensures
            final(self).wf(),
            final(self)@ == old(self)@ / o@,
    {
        *self = self.div_ubi(o);
    }

    pub fn rem_ubi(&self, o: &UBigInt) -> (r: UBigInt)
        requires
            self.wf(),
            o.wf(),
            o@ > 0,
        ensures
            r.wf(),
            r@ == self@ % o@,
    {
        self.div_rem_ubi(o).1
    }

    /// `self` raised to `e`.
    pub fn pow_u32(&self, e: u32) -> (r: UBigInt)
        requires
            self.wf(),
        ensures
            r.wf(),
            r@ == pow(self@ as int, e as nat),
    {
        let mut acc = UBigInt::one();
        let mut i: u32 = 0;
        proof {
            vstd::arithmetic::power::lemma_pow0(self@ as int);
        }
        while i < e
            invariant
                self.wf(),
                acc.wf(),
                i <= e,
                acc@ == pow(self@ as int, i as nat),
            decreases e - i,
        {
            acc = acc.mul_ubi(self);
            proof {
                vstd::arithmetic::power::lemma_pow_adds(self@ as int, i as nat, 1);
                vstd::arithmetic::power::lemma_pow1(self@ as int);
            }
            i += 1;
        }
        acc
    }

    /// `self` raised to a 64-bit exponent.
    pub fn pow_u32_wide(&self, e: u64) -> (r: UBigInt)
        requires
            self.wf(),
        ensures
            r.wf(),
            r@ == pow(self@ as int, e as nat),
    {
        let mut acc = UBigInt::one();
        let mut i: u64 = 0;
        proof {
            vstd::arithmetic::power::lemma_pow0(self@ as int);
        }
        while i < e
            invariant
                self.wf(),
                acc.wf(),
                i <= e,
                acc@ == pow(self@ as int, i as nat),
            decreases e - i,
        {
            acc = acc.mul_ubi(self);
            proof {
                vstd::arithmetic::power::lemma_pow_adds(self@ as int, i as nat, 1);
                vstd::arithmetic::power::lemma_pow1(self@ as int);
            }
            i += 1;
        }
        acc
    }

    /// The value as a `u32`, where it fits.
    pub fn to_u32(&self) -> (r: Option<u32>)
        requires
            self.wf(),
        ensures
            r.is_some() <==> self@ <= u32::MAX,
            r.is_some() ==> r.unwrap() == self@,
    {
        proof {
            lemma_normal_bounds(self.limbs@);
            lemma_short(self.limbs@);
            if self.limbs@.len() > 1 {
                lemma_base_pow_mono(1, (self.limbs@.len() - 1) as nat);
            }
        }
        if self.limbs.len() == 1 {
            Some(self.limbs[0])
        } else {
            None
        }
    }

    /// The value as a `u64`, where it fits.
    pub fn to_u64(&self) -> (r: Option<u64>)
        requires
            self.wf(),
        ensures
            r.is_some() <==> self@ <= u64::MAX,
            r.is_some() ==> r.unwrap() == self@,
    {
        proof {
            lemma_normal_bounds(self.limbs@);
            lemma_short(self.limbs@);
            if self.limbs@.len() > 2 {
                lemma_base_pow_mono(2, (self.limbs@.len() - 1) as nat);
                reveal_with_fuel(base_pow, 3);
            }
        }
        if self.limbs.len() == 1 {
            Some(self.limbs[0] as u64)
        } else if self.limbs.len() == 2 {
            Some(self.limbs[0] as u64 + self.limbs[1] as u64 * 4294967296)
        } else {
            None
        }
    }

    /// The most significant limb: the value divided by the weight of the top limb.
    pub fn top_limb(&self) -> (r: u32)
        requires
            self.wf(),
        ensures
            self.limb_count() >= 1,
            r == self@ / base_pow((self.limb_count() - 1) as nat),
            self@ == 0 ==> r == 0,
            self@ > 0 ==> r > 0,
    {
        let n = self.limbs.len();
        proof {
            let s = self.limbs@;
            let m = (n - 1) as nat;
            lemma_prefix_bound(s, m);
            lemma_short(s);
            assert(self@ == prefix_value(s, m) + s[m as int] * base_pow(m));
            assert(s[m as int] * base_pow(m) == base_pow(m) * s[m as int]) by (nonlinear_arith);
            lemma_fundamental_div_mod_converse(self@ as int, base_pow(m) as int, s[m as int] as int, prefix_value(s, m) as int);
            if n > 1 {
                lemma_top_limb(s);
                lemma_base_pow_pos(m);
            }
        }
        self.limbs[n - 1]
    }

    pub fn lt_u32(&self, n: u32) -> (r: bool)
        requires
            self.wf(),
        ensures
            r == (self@ < n),
    {
        self.lt_ubi(&UBigInt::from_u32(n))
    }

    pub fn gt_u32(&self, n: u32) -> (r: bool)
        requires
            self.wf(),
        ensures
            r == (self@ > n),
    {
        self.gt_ubi(&UBigInt::from_u32(n))
    }

    pub fn lt_ubi(&self, o: &UBigInt) -> (r: bool)
        requires
            self.wf(),
            o.wf(),
        ensures
            r == (self@ < o@),
    {
        self.comp_ubi(o) == -1
    }

    pub fn leq_ubi(&self, o: &UBigInt) -> (r: bool)
        requires
            self.wf(),
            o.wf(),
        ensures
            r == (self@ <= o@),
    {
        self.comp_ubi(o) != 1
    }

    pub fn gt_ubi(&self, o: &UBigInt) -> (r: bool)
        requires
            self.wf(),
            o.wf(),
        ensures
            r == (self@ > o@),
    {
        self.comp_ubi(o) == 1
    }

    pub fn geq_ubi(&self, o: &UBigInt) -> (r: bool)
        requires
            self.wf(),
            o.wf(),
        ensures
            r == (self@ >= o@),
    {
        self.comp_ubi(o) != -1
    }
}

} // verus!
