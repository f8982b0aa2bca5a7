use crate::ratio::{same_value, Ratio};
use crate::series::{lemma_add_congr, lemma_mul_congr, lemma_same_value_trans, radd, rmul};
use vstd::prelude::*;

verus! {

/// Difference of two fractions, unreduced.
pub open spec fn rsub(a: (int, int), b: (int, int)) -> (int, int) {
    (a.0 * b.1 - b.0 * a.1, a.1 * b.1)
}

/// Quotient of two fractions, unreduced.
pub open spec fn rdiv(a: (int, int), b: (int, int)) -> (int, int) {
    (a.0 * b.1, a.1 * b.0)
}

/// Value at `x` of the polynomial with coefficients `c`, highest degree first.
pub open spec fn poly_eval(c: Seq<(int, int)>, x: (int, int)) -> (int, int)
    decreases c.len(),
{
    if c.len() == 0 {
        (0, 1)
    } else {
        radd(rmul(poly_eval(c.drop_last(), x), x), c.last())
    }
}

proof fn lemma_sub_congr(a: (int, int), b: (int, int), c: (int, int), d: (int, int))
    requires
        same_value(a, c),
        same_value(b, d),
    ensures
        same_value(rsub(a, b), rsub(c, d)),
{
    assert(same_value((-b.0, b.1), (-d.0, d.1))) by (nonlinear_arith)
        requires b.0 * d.1 == d.0 * b.1;
    lemma_add_congr(a, (-b.0, b.1), c, (-d.0, d.1));
    assert(rsub(a, b) == radd(a, (-b.0, b.1))) by (nonlinear_arith);
    assert(rsub(c, d) == radd(c, (-d.0, d.1))) by (nonlinear_arith);
}

proof fn lemma_div_congr(a: (int, int), b: (int, int), c: (int, int), d: (int, int))
    requires
        same_value(a, c),
        same_value(b, d),
    ensures
        same_value(rdiv(a, b), rdiv(c, d)),
{
    lemma_mul_congr(a, (b.1, b.0), c, (d.1, d.0));
}

/// A step `t = x op y` carried over to fractions equal to `x` and `y`.
proof fn lemma_step(t: (int, int), r: (int, int), f: (int, int))
    requires
        same_value(t, r),
        same_value(r, f),
        r.1 != 0,
    ensures
        same_value(t, f),
{
    lemma_same_value_trans(t, r, f);
}

/// A polynomial with rational coefficients, highest degree first.
#[derive(Clone, Debug)]
pub struct Polynomial {
    coeffs: Vec<Ratio>,
}

impl PartialEq for Polynomial {
    fn eq(&self, o: &Polynomial) -> (r: bool) {
        if self.coeffs.len() != o.coeffs.len() {
            return false;
        }
        let mut i: usize = 0;
        while i < self.coeffs.len()
            invariant
                i <= self.coeffs@.len(),
                self.coeffs@.len() == o.coeffs@.len(),
                forall|j: int| 0 <= j < i ==> self.coeffs@[j].same_repr(&o.coeffs@[j]),
            decreases self.coeffs@.len() - i,
        {
            if self.coeffs[i] != o.coeffs[i] {
                return false;
            }
            i += 1;
        }
        true
    }
}

impl vstd::std_specs::cmp::PartialEqSpecImpl for Polynomial {
    open spec fn obeys_eq_spec() -> bool {
        true
    }

    open spec fn eq_spec(&self, o: &Polynomial) -> bool {
        self.same_coeffs(o)
    }
}

impl Polynomial {
    pub closed spec fn same_coeffs(&self, o: &Polynomial) -> bool {
        self.coeffs@.len() == o.coeffs@.len() && forall|j: int| 0 <= j < self.coeffs@.len() ==> self.coeffs@[j].same_repr(&o.coeffs@[j])
    }

    /// Every coefficient is well formed.
    pub closed spec fn wf(&self) -> bool {
        forall|j: int| 0 <= j < self.coeffs@.len() ==> (#[trigger] self.coeffs@[j]).wf()
    }

    /// The coefficients' values, highest degree first.
    pub closed spec fn coeff_values(&self) -> Seq<(int, int)> {
        self.coeffs@.map_values(|c: Ratio| c@)
    }

    pub fn from_vec(coeffs: Vec<Ratio>) -> (r: Polynomial)
        requires
            forall|j: int| 0 <= j < coeffs@.len() ==> (#[trigger] coeffs@[j]).wf(),
        ensures
            r.wf(),
            r.coeff_values() == coeffs@.map_values(|c: Ratio| c@),
    {
        Polynomial { coeffs }
    }

    /// The value at `x`, by Horner's rule.
    pub fn calc(&self, x: &Ratio) -> (r: Ratio)
        requires
            self.wf(),
            x.wf(),
        ensures
            r.wf(),
            same_value(r@, poly_eval(self.coeff_values(), x@)),
    {
        let mut acc = Ratio::zero();
        let mut i: usize = 0;
        proof {
            assert(self.coeff_values().take(0) =~= Seq::<(int, int)>::empty());
        }
        while i < self.coeffs.len()
            invariant
                self.wf(),
                x.wf(),
                i <= self.coeffs@.len(),
                acc.wf(),
                same_value(acc@, poly_eval(self.coeff_values().take(i as int), x@)),
                poly_eval(self.coeff_values().take(i as int), x@).1 > 0,
            decreases self.coeffs@.len() - i,
        {
            let ghost a0 = acc@;
            proof {
                acc.lemma_wf_parts();
                x.lemma_wf_parts();
                self.coeffs@[i as int].lemma_wf_parts();
            }
            let ax = acc.mul_rat(x);
            acc = ax.add_rat(&self.coeffs[i]);
            proof {
                let cv = self.coeff_values();
                let pe = poly_eval(cv.take(i as int), x@);
                let c = self.coeffs@[i as int]@;
                assert(cv.take(i + 1).drop_last() =~= cv.take(i as int));
                assert(cv.take(i + 1).last() == c);
                ax.lemma_wf_parts();
                lemma_mul_congr(a0, x@, pe, x@);
                assert(a0.1 * x@.1 != 0) by (nonlinear_arith)
                    requires a0.1 > 0, x@.1 > 0;
                lemma_step(ax@, rmul(a0, x@), rmul(pe, x@));
                lemma_add_congr(ax@, c, rmul(pe, x@), c);
                assert(ax@.1 * c.1 != 0) by (nonlinear_arith)
                    requires ax@.1 > 0, c.1 > 0;
                lemma_step(acc@, radd(ax@, c), radd(rmul(pe, x@), c));
                assert(pe.1 * x@.1 * c.1 > 0) by (nonlinear_arith)
                    requires pe.1 > 0, x@.1 > 0, c.1 > 0;
            }
            i += 1;
        }
        proof {
            assert(self.coeff_values().take(self.coeffs@.len() as int) =~= self.coeff_values());
        }
        acc
    }
}

/// The line through `(a, v1)` and `(b, v2)`, highest degree first: slope
/// `(v2 - v1) / (b - a)` and intercept `v1 - a * slope`; the constant `v1`
/// when `a == b`.
pub open spec fn linear_coeffs(a: (int, int), b: (int, int), v1: (int, int), v2: (int, int)) -> Seq<(int, int)> {
    let tan = if same_value(a, b) { (0int, 1int) } else { rdiv(rsub(v2, v1), rsub(b, a)) };
    seq![tan, rsub(v1, rmul(a, tan))]
}

/// f(a) = v1, f(b) = v2; a constant function when `a == b`.
pub fn linear_2_points(a: &Ratio, b: &Ratio, v1: &Ratio, v2: &Ratio) -> (r: Polynomial)
    requires
        a.wf(),
        b.wf(),
        v1.wf(),
        v2.wf(),
    ensures
        r.wf(),
        r.coeff_values().len() == 2,
        same_value(r.coeff_values()[0], linear_coeffs(a@, b@, v1@, v2@)[0]),
        same_value(r.coeff_values()[1], linear_coeffs(a@, b@, v1@, v2@)[1]),
{
    proof {
        a.lemma_wf_parts();
        b.lemma_wf_parts();
        v1.lemma_wf_parts();
        v2.lemma_wf_parts();
    }
    let ghost tv = linear_coeffs(a@, b@, v1@, v2@)[0];
    let num = v2.sub_rat(v1);
    let den = b.sub_rat(a);
    proof {
        num.lemma_wf_parts();
        den.lemma_wf_parts();
        let rb = rsub(b@, a@);
        assert(rb.1 > 0) by (nonlinear_arith)
            requires rb.1 == b@.1 * a@.1, b@.1 > 0, a@.1 > 0;
        assert((den@.0 == 0) <==> same_value(a@, b@)) by (nonlinear_arith)
            requires den@.0 * rb.1 == rb.0 * den@.1, den@.1 > 0, rb.1 > 0, rb.0 == b@.0 * a@.1 - a@.0 * b@.1;
    }
    let tan = if den.is_zero() {
        Ratio::zero()
    } else {
        let t = num.div_rat(&den);
        proof {
            t.lemma_wf_parts();
            let rn = rsub(v2@, v1@);
            let rb = rsub(b@, a@);
            lemma_div_congr(num@, den@, rn, rb);
            assert(num@.1 * den@.0 != 0) by (nonlinear_arith)
                requires num@.1 > 0, den@.0 != 0;
            lemma_step(t@, rdiv(num@, den@), rdiv(rn, rb));
        }
        t
    };
    proof {
        tan.lemma_wf_parts();
        assert(same_value(tan@, tv));
    }
    let at = a.mul_rat(&tan);
    let c = v1.sub_rat(&at);
    proof {
        at.lemma_wf_parts();
        lemma_mul_congr(a@, tan@, a@, tv);
        assert(a@.1 * tan@.1 != 0) by (nonlinear_arith)
            requires a@.1 > 0, tan@.1 > 0;
        lemma_step(at@, rmul(a@, tan@), rmul(a@, tv));
        lemma_sub_congr(v1@, at@, v1@, rmul(a@, tv));
        assert(v1@.1 * at@.1 != 0) by (nonlinear_arith)
            requires v1@.1 > 0, at@.1 > 0;
        lemma_step(c@, rsub(v1@, at@), rsub(v1@, rmul(a@, tv)));
    }
    let mut v: Vec<Ratio> = Vec::new();
    v.push(tan);
    v.push(c);
    let r = Polynomial::from_vec(v);
    proof {
        assert(r.coeff_values()[0] == tan@);
        assert(r.coeff_values()[1] == c@);
    }
    r
}


/// Carries `t = x - y` over to fractions equal to `x` and `y`.
proof fn lemma_track_sub(t: (int, int), x: (int, int), y: (int, int), xs: (int, int), ys: (int, int))
    requires
        same_value(t, rsub(x, y)),
        same_value(x, xs),
        same_value(y, ys),
        x.1 > 0,
        y.1 > 0,
    ensures
        same_value(t, rsub(xs, ys)),
{
    lemma_sub_congr(x, y, xs, ys);
    assert(x.1 * y.1 != 0) by (nonlinear_arith)
        requires x.1 > 0, y.1 > 0;
    lemma_step(t, rsub(x, y), rsub(xs, ys));
}

proof fn lemma_track_add(t: (int, int), x: (int, int), y: (int, int), xs: (int, int), ys: (int, int))
    requires
        same_value(t, radd(x, y)),
        same_value(x, xs),
        same_value(y, ys),
        x.1 > 0,
        y.1 > 0,
    ensures
        same_value(t, radd(xs, ys)),
{
    lemma_add_congr(x, y, xs, ys);
    assert(x.1 * y.1 != 0) by (nonlinear_arith)
        requires x.1 > 0, y.1 > 0;
    lemma_step(t, radd(x, y), radd(xs, ys));
}

proof fn lemma_track_mul(t: (int, int), x: (int, int), y: (int, int), xs: (int, int), ys: (int, int))
    requires
        same_value(t, rmul(x, y)),
        same_value(x, xs),
        same_value(y, ys),
        x.1 > 0,
        y.1 > 0,
    ensures
        same_value(t, rmul(xs, ys)),
{
    lemma_mul_congr(x, y, xs, ys);
    assert(x.1 * y.1 != 0) by (nonlinear_arith)
        requires x.1 > 0, y.1 > 0;
    lemma_step(t, rmul(x, y), rmul(xs, ys));
}

proof fn lemma_track_div(t: (int, int), x: (int, int), y: (int, int), xs: (int, int), ys: (int, int))
    requires
        same_value(t, rdiv(x, y)),
        same_value(x, xs),
        same_value(y, ys),
        x.1 > 0,
        y.0 != 0,
    ensures
        same_value(t, rdiv(xs, ys)),
{
    lemma_div_congr(x, y, xs, ys);
    assert(x.1 * y.0 != 0) by (nonlinear_arith)
        requires x.1 > 0, y.0 != 0;
    lemma_step(t, rdiv(x, y), rdiv(xs, ys));
}

/// `(v2 - v1) / (b - a)`, for `a != b`.
fn divided_difference(a: &Ratio, b: &Ratio, v1: &Ratio, v2: &Ratio) -> (r: Ratio)
    requires
        a.wf(),
        b.wf(),
        v1.wf(),
        v2.wf(),
        !same_value(a@, b@),
    ensures
        r.wf(),
        same_value(r@, rdiv(rsub(v2@, v1@), rsub(b@, a@))),
{
    let num = v2.sub_rat(v1);
    let den = b.sub_rat(a);
    proof {
        a.lemma_wf_parts();
        b.lemma_wf_parts();
        num.lemma_wf_parts();
        den.lemma_wf_parts();
        let rb = rsub(b@, a@);
        assert(rb.1 > 0) by (nonlinear_arith)
            requires rb.1 == b@.1 * a@.1, b@.1 > 0, a@.1 > 0;
        assert(den@.0 != 0) by (nonlinear_arith)
            requires den@.0 * rb.1 == rb.0 * den@.1, den@.1 > 0, rb.1 > 0, rb.0 == b@.0 * a@.1 - a@.0 * b@.1,
                b@.0 * a@.1 != a@.0 * b@.1;
        assert(same_value(num@, rsub(v2@, v1@)));
    }
    let r = num.div_rat(&den);
    proof {
        lemma_track_div(r@, num@, den@, rsub(v2@, v1@), rsub(b@, a@));
    }
    r
}

/// `b - a` is zero exactly when `a` and `b` are equal fractions.
fn same_point(a: &Ratio, b: &Ratio) -> (r: bool)
    requires
        a.wf(),
        b.wf(),
    ensures
        r == same_value(a@, b@),
{
    a.comp_rat(b) == 0
}

/// Coefficients, highest degree first, of the quadratic through
/// `(a, v1)`, `(b, v2)`, `(c, v3)` in Newton's form; a line through two of
/// the points when two abscissae agree.
pub open spec fn quadratic_coeffs(
    a: (int, int),
    b: (int, int),
    c: (int, int),
    v1: (int, int),
    v2: (int, int),
    v3: (int, int),
) -> Seq<(int, int)> {
    if same_value(a, b) {
        linear_coeffs(a, c, v1, v3)
    } else if same_value(b, c) || same_value(a, c) {
        linear_coeffs(a, b, v1, v2)
    } else {
        let fab = rdiv(rsub(v2, v1), rsub(b, a));
        let fbc = rdiv(rsub(v3, v2), rsub(c, b));
        let fabc = rdiv(rsub(fbc, fab), rsub(c, a));
        seq![fabc, rsub(fab, rmul(fabc, radd(a, b))), radd(rsub(v1, rmul(fab, a)), rmul(fabc, rmul(a, b)))]
    }
}

/// f(a) = v1, f(b) = v2, f(c) = v3.
pub fn quadratic_3_points(a: &Ratio, b: &Ratio, c: &Ratio, v1: &Ratio, v2: &Ratio, v3: &Ratio) -> (r: Polynomial)
    requires
        a.wf(),
        b.wf(),
        c.wf(),
        v1.wf(),
        v2.wf(),
        v3.wf(),
    ensures
        r.wf(),
        r.coeff_values().len() == quadratic_coeffs(a@, b@, c@, v1@, v2@, v3@).len(),
        forall|i: int| 0 <= i < r.coeff_values().len() ==> same_value(#[trigger] r.coeff_values()[i], quadratic_coeffs(a@, b@, c@, v1@, v2@, v3@)[i]),
{
    if same_point(a, b) {
        let r = linear_2_points(a, c, v1, v3);
        proof {
            assert forall|i: int| 0 <= i < r.coeff_values().len() implies same_value(#[trigger] r.coeff_values()[i], quadratic_coeffs(a@, b@, c@, v1@, v2@, v3@)[i]) by {
                if i == 0 {} else {}
            }
        }
        return r;
    }
    if same_point(b, c) || same_point(a, c) {
        let r = linear_2_points(a, b, v1, v2);
        proof {
            assert forall|i: int| 0 <= i < r.coeff_values().len() implies same_value(#[trigger] r.coeff_values()[i], quadratic_coeffs(a@, b@, c@, v1@, v2@, v3@)[i]) by {
                if i == 0 {} else {}
            }
        }
        return r;
    }
    let ghost (av, bv, cv) = (a@, b@, c@);
    let fab = divided_difference(a, b, v1, v2);
    let fbc = divided_difference(b, c, v2, v3);
    let fabc = divided_difference(a, c, &fab, &fbc);
    let apb = a.add_rat(b);
    let t1 = fabc.mul_rat(&apb);
    let r2 = fab.sub_rat(&t1);
    let fa = fab.mul_rat(a);
    let s1 = v1.sub_rat(&fa);
    let ab = a.mul_rat(b);
    let t2 = fabc.mul_rat(&ab);
    let r3 = s1.add_rat(&t2);
    proof {
        a.lemma_wf_parts();
        b.lemma_wf_parts();
        c.lemma_wf_parts();
        v1.lemma_wf_parts();
        fab.lemma_wf_parts();
        fbc.lemma_wf_parts();
        fabc.lemma_wf_parts();
        apb.lemma_wf_parts();
        t1.lemma_wf_parts();
        fa.lemma_wf_parts();
        s1.lemma_wf_parts();
        ab.lemma_wf_parts();
        t2.lemma_wf_parts();
        let sab = rdiv(rsub(v2@, v1@), rsub(bv, av));
        let sbc = rdiv(rsub(v3@, v2@), rsub(cv, bv));
        let sabc = rdiv(rsub(sbc, sab), rsub(cv, av));
        let ca = rsub(cv, av);
        assert(ca.0 != 0);
        lemma_sub_congr(fbc@, fab@, sbc, sab);
        lemma_div_congr(rsub(fbc@, fab@), ca, rsub(sbc, sab), ca);
        assert(rsub(fbc@, fab@).1 * ca.0 != 0) by (nonlinear_arith)
            requires fbc@.1 > 0, fab@.1 > 0, ca.0 != 0, rsub(fbc@, fab@).1 == fbc@.1 * fab@.1;
        lemma_step(fabc@, rdiv(rsub(fbc@, fab@), ca), sabc);
        lemma_track_mul(t1@, fabc@, apb@, sabc, radd(av, bv));
        lemma_track_sub(r2@, fab@, t1@, sab, rmul(sabc, radd(av, bv)));
        lemma_track_mul(fa@, fab@, av, sab, av);
        lemma_track_sub(s1@, v1@, fa@, v1@, rmul(sab, av));
        lemma_track_mul(t2@, fabc@, ab@, sabc, rmul(av, bv));
        lemma_track_add(r3@, s1@, t2@, rsub(v1@, rmul(sab, av)), rmul(sabc, rmul(av, bv)));
    }
    let mut v: Vec<Ratio> = Vec::new();
    v.push(fabc);
    v.push(r2);
    v.push(r3);
    let r = Polynomial::from_vec(v);
    proof {
        let q = quadratic_coeffs(a@, b@, c@, v1@, v2@, v3@);
        assert(r.coeff_values()[0] == fabc@);
        assert(r.coeff_values()[1] == r2@);
        assert(r.coeff_values()[2] == r3@);
        assert forall|i: int| 0 <= i < r.coeff_values().len() implies same_value(#[trigger] r.coeff_values()[i], q[i]) by {
            if i == 0 {} else if i == 1 {} else {}
        }
    }
    r
}


/// Coefficients, highest degree first, of the cubic with `f(a) = v1`,
/// `f(b) = v2`, `f'(a) = v3`, `f'(b) = v4` in Hermite's divided differences;
/// the line `v3 (x - a) + v1` when `a == b`.
pub open spec fn cubic_coeffs(
    a: (int, int),
    b: (int, int),
    v1: (int, int),
    v2: (int, int),
    v3: (int, int),
    v4: (int, int),
) -> Seq<(int, int)> {
    if same_value(a, b) {
        seq![v3, rsub(v1, rmul(a, v3))]
    } else {
        let h = rsub(b, a);
        let fab = rdiv(rsub(v2, v1), h);
        let da = rdiv(rsub(fab, v3), h);
        let db = rdiv(rsub(v4, fab), h);
        let d = rdiv(rsub(db, da), h);
        let aa = rmul(a, a);
        let ab = rmul(a, b);
        seq![
            d,
            rsub(da, rmul(d, radd(radd(a, a), b))),
            radd(rsub(rsub(v3, rmul(a, da)), rmul(a, da)), rmul(d, radd(radd(aa, ab), ab))),
            rsub(radd(rsub(v1, rmul(v3, a)), rmul(da, aa)), rmul(d, rmul(aa, b))),
        ]
    }
}

/// f(a) = v1, f(b) = v2, f'(a) = v3, f'(b) = v4; `v2` and `v4` are ignored
/// when `a == b`.
pub fn cubic_2_points(a: &Ratio, b: &Ratio, v1: &Ratio, v2: &Ratio, v3: &Ratio, v4: &Ratio) -> (r: Polynomial)
    requires
        a.wf(),
        b.wf(),
        v1.wf(),
        v2.wf(),
        v3.wf(),
        v4.wf(),
    ensures
        r.wf(),
        r.coeff_values().len() == cubic_coeffs(a@, b@, v1@, v2@, v3@, v4@).len(),
        forall|i: int| 0 <= i < r.coeff_values().len() ==> same_value(#[trigger] r.coeff_values()[i], cubic_coeffs(a@, b@, v1@, v2@, v3@, v4@)[i]),
{
    proof {
        a.lemma_wf_parts();
        b.lemma_wf_parts();
        v1.lemma_wf_parts();
        v2.lemma_wf_parts();
        v3.lemma_wf_parts();
        v4.lemma_wf_parts();
    }
    if same_point(a, b) {
        let av3 = a.mul_rat(v3);
        let c = v1.sub_rat(&av3);
        let mut v: Vec<Ratio> = Vec::new();
        v.push(v3.duplicate());
        v.push(c);
        let r = Polynomial::from_vec(v);
        proof {
            av3.lemma_wf_parts();
            lemma_track_sub(c@, v1@, av3@, v1@, rmul(a@, v3@));
            let q = cubic_coeffs(a@, b@, v1@, v2@, v3@, v4@);
            assert(r.coeff_values()[0] == v3@);
            assert(r.coeff_values()[1] == c@);
            assert forall|i: int| 0 <= i < r.coeff_values().len() implies same_value(#[trigger] r.coeff_values()[i], q[i]) by {
                if i == 0 {} else {}
            }
        }
        return r;
    }
    let ghost (av, bv) = (a@, b@);
    let fab = divided_difference(a, b, v1, v2);
    let da = divided_difference(a, b, v3, &fab);
    let db = divided_difference(a, b, &fab, v4);
    let d = divided_difference(a, b, &da, &db);
    // x^2
    let apa = a.add_rat(a);
    let s = apa.add_rat(b);
    let ds = d.mul_rat(&s);
    let r2 = da.sub_rat(&ds);
    // x^1
    let ada = a.mul_rat(&da);
    let u = v3.sub_rat(&ada);
    let u2 = u.sub_rat(&ada);
    let aa = a.mul_rat(a);
    let ab = a.mul_rat(b);
    let q1 = aa.add_rat(&ab);
    let q2 = q1.add_rat(&ab);
    let dq = d.mul_rat(&q2);
    let r3 = u2.add_rat(&dq);
    // x^0
    let v3a = v3.mul_rat(a);
    let w1 = v1.sub_rat(&v3a);
    let daa = da.mul_rat(&aa);
    let w2 = w1.add_rat(&daa);
    let aab = aa.mul_rat(b);
    let daab = d.mul_rat(&aab);
    let r4 = w2.sub_rat(&daab);
    proof {
        fab.lemma_wf_parts();
        da.lemma_wf_parts();
        db.lemma_wf_parts();
        d.lemma_wf_parts();
        apa.lemma_wf_parts();
        s.lemma_wf_parts();
        ds.lemma_wf_parts();
        ada.lemma_wf_parts();
        u.lemma_wf_parts();
        u2.lemma_wf_parts();
        aa.lemma_wf_parts();
        ab.lemma_wf_parts();
        q1.lemma_wf_parts();
        q2.lemma_wf_parts();
        dq.lemma_wf_parts();
        v3a.lemma_wf_parts();
        w1.lemma_wf_parts();
        daa.lemma_wf_parts();
        w2.lemma_wf_parts();
        aab.lemma_wf_parts();
        daab.lemma_wf_parts();
        let h = rsub(av, bv);
        let hh = rsub(bv, av);
        assert(hh.0 != 0);
        let sfab = rdiv(rsub(v2@, v1@), hh);
        let sda = rdiv(rsub(sfab, v3@), hh);
        let sdb = rdiv(rsub(v4@, sfab), hh);
        let sd = rdiv(rsub(sdb, sda), hh);
        // da, db, d from their arguments
        lemma_sub_congr(fab@, v3@, sfab, v3@);
        lemma_div_congr(rsub(fab@, v3@), hh, rsub(sfab, v3@), hh);
        assert(rsub(fab@, v3@).1 * hh.0 != 0) by (nonlinear_arith)
            requires fab@.1 > 0, v3@.1 > 0, hh.0 != 0, rsub(fab@, v3@).1 == fab@.1 * v3@.1;
        lemma_step(da@, rdiv(rsub(fab@, v3@), hh), sda);
        lemma_sub_congr(v4@, fab@, v4@, sfab);
        lemma_div_congr(rsub(v4@, fab@), hh, rsub(v4@, sfab), hh);
        assert(rsub(v4@, fab@).1 * hh.0 != 0) by (nonlinear_arith)
            requires fab@.1 > 0, v4@.1 > 0, hh.0 != 0, rsub(v4@, fab@).1 == v4@.1 * fab@.1;
        lemma_step(db@, rdiv(rsub(v4@, fab@), hh), sdb);
        lemma_sub_congr(db@, da@, sdb, sda);
        lemma_div_congr(rsub(db@, da@), hh, rsub(sdb, sda), hh);
        assert(rsub(db@, da@).1 * hh.0 != 0) by (nonlinear_arith)
            requires db@.1 > 0, da@.1 > 0, hh.0 != 0, rsub(db@, da@).1 == db@.1 * da@.1;
        lemma_step(d@, rdiv(rsub(db@, da@), hh), sd);
        // x^2
        lemma_track_add(s@, apa@, bv, radd(av, av), bv);
        lemma_track_mul(ds@, d@, s@, sd, radd(radd(av, av), bv));
        lemma_track_sub(r2@, da@, ds@, sda, rmul(sd, radd(radd(av, av), bv)));
        // x^1
        lemma_track_mul(ada@, av, da@, av, sda);
        lemma_track_sub(u@, v3@, ada@, v3@, rmul(av, sda));
        lemma_track_sub(u2@, u@, ada@, rsub(v3@, rmul(av, sda)), rmul(av, sda));
        lemma_track_add(q1@, aa@, ab@, rmul(av, av), rmul(av, bv));
        lemma_track_add(q2@, q1@, ab@, radd(rmul(av, av), rmul(av, bv)), rmul(av, bv));
        lemma_track_mul(dq@, d@, q2@, sd, radd(radd(rmul(av, av), rmul(av, bv)), rmul(av, bv)));
        lemma_track_add(r3@, u2@, dq@, rsub(rsub(v3@, rmul(av, sda)), rmul(av, sda)),
            rmul(sd, radd(radd(rmul(av, av), rmul(av, bv)), rmul(av, bv))));
        // x^0
        lemma_track_sub(w1@, v1@, v3a@, v1@, rmul(v3@, av));
        lemma_track_mul(daa@, da@, aa@, sda, rmul(av, av));
        lemma_track_add(w2@, w1@, daa@, rsub(v1@, rmul(v3@, av)), rmul(sda, rmul(av, av)));
        lemma_track_mul(aab@, aa@, bv, rmul(av, av), bv);
        lemma_track_mul(daab@, d@, aab@, sd, rmul(rmul(av, av), bv));
        lemma_track_sub(r4@, w2@, daab@, radd(rsub(v1@, rmul(v3@, av)), rmul(sda, rmul(av, av))),
            rmul(sd, rmul(rmul(av, av), bv)));
    }
    let mut v: Vec<Ratio> = Vec::new();
    v.push(d);
    v.push(r2);
    v.push(r3);
    v.push(r4);
    let r = Polynomial::from_vec(v);
    proof {
        let q = cubic_coeffs(a@, b@, v1@, v2@, v3@, v4@);
        assert forall|i: int| 0 <= i < r.coeff_values().len() implies same_value(#[trigger] r.coeff_values()[i], q[i]) by {
            if i == 0 {} else if i == 1 {} else if i == 2 {} else {}
        }
    }
    r
}


/// `p + (v - q)` has the value of `v` when `p` and `q` have one value.
proof fn lemma_add_back(p: (int, int), v: (int, int), q: (int, int))
    requires
        same_value(p, q),
    ensures
        same_value(radd(p, rsub(v, q)), v),
{
    let (p0, p1, v0, v1, q0, q1) = (p.0, p.1, v.0, v.1, q.0, q.1);
    let w = v1 * q1;
    let z = v0 * q1 - q0 * v1;
    assert(p0 * w == v1 * (q0 * p1)) by (nonlinear_arith)
        requires p0 * q1 == q0 * p1, w == v1 * q1;
    assert(z * p1 == v0 * q1 * p1 - v1 * (q0 * p1)) by (nonlinear_arith)
        requires z == v0 * q1 - q0 * v1;
    assert(p0 * w + z * p1 == v0 * q1 * p1);
    assert((v0 * q1 * p1) * v1 == v0 * (p1 * w)) by (nonlinear_arith)
        requires w == v1 * q1;
}

/// The value of a line `t x + c` at `x`.
proof fn lemma_eval_line(t: (int, int), c: (int, int), x: (int, int))
    ensures
        same_value(poly_eval(seq![t, c], x), radd(rmul(t, x), c)),
{
    reveal_with_fuel(poly_eval, 3);
    let s = seq![t, c];
    assert(s.drop_last() =~= seq![t]);
    assert(seq![t].drop_last() =~= Seq::<(int, int)>::empty());
    let z = rmul((0int, 1int), x);
    let u = radd(z, t);
    assert(u == (0 * x.0 * t.1 + t.0 * (1 * x.1), 1 * x.1 * t.1));
    assert(u.0 == t.0 * x.1 && u.1 == x.1 * t.1) by (nonlinear_arith)
        requires u == (0 * x.0 * t.1 + t.0 * (1 * x.1), 1 * x.1 * t.1);
    assert(same_value(u, t)) by (nonlinear_arith)
        requires u.0 == t.0 * x.1, u.1 == x.1 * t.1;
    lemma_mul_congr(u, x, t, x);
    lemma_add_congr(rmul(u, x), c, rmul(t, x), c);
    assert(poly_eval(s, x) == radd(rmul(u, x), c));
}

/// The line of `linear_2_points` passes through `(a, v1)`.
pub proof fn law_line_through_first_point(a: (int, int), b: (int, int), v1: (int, int), v2: (int, int))
    requires
        a.1 > 0,
        b.1 > 0,
        v1.1 > 0,
        v2.1 > 0,
    ensures
        same_value(poly_eval(linear_coeffs(a, b, v1, v2), a), v1),
{
    let cs = linear_coeffs(a, b, v1, v2);
    let t = cs[0];
    let c = cs[1];
    assert(cs =~= seq![t, c]);
    let h = rsub(b, a);
    let dv = rsub(v2, v1);
    assert(h.1 > 0 && dv.1 > 0) by (nonlinear_arith)
        requires h.1 == b.1 * a.1, dv.1 == v2.1 * v1.1, a.1 > 0, b.1 > 0, v1.1 > 0, v2.1 > 0;
    if !same_value(a, b) {
        assert(h.0 != 0);
        assert(t.1 != 0) by (nonlinear_arith)
            requires t.1 == dv.1 * h.0, dv.1 > 0, h.0 != 0;
    } else {
        assert(t == (0int, 1int));
    }
    let at = rmul(a, t);
    let ta = rmul(t, a);
    assert(at.1 != 0 && ta.1 != 0) by (nonlinear_arith)
        requires at.1 == a.1 * t.1, ta.1 == t.1 * a.1, a.1 > 0, t.1 != 0;
    assert(same_value(ta, at)) by (nonlinear_arith)
        requires ta == (t.0 * a.0, t.1 * a.1), at == (a.0 * t.0, a.1 * t.1);
    lemma_eval_line(t, c, a);
    lemma_add_back(ta, v1, at);
    assert(c.1 != 0) by (nonlinear_arith)
        requires c.1 == v1.1 * at.1, v1.1 > 0, at.1 != 0;
    assert(radd(ta, c).1 != 0) by (nonlinear_arith)
        requires radd(ta, c).1 == ta.1 * c.1, ta.1 != 0, c.1 != 0;
    lemma_same_value_trans(poly_eval(cs, a), radd(ta, c), v1);
}


/// `t b + (v - a t)` equals `v + t (b - a)`.
proof fn lemma_rearrange(t: (int, int), b: (int, int), a: (int, int), v: (int, int))
    ensures
        radd(rmul(t, b), rsub(v, rmul(a, t))).0 == t.1 * radd(v, rmul(t, rsub(b, a))).0,
        radd(rmul(t, b), rsub(v, rmul(a, t))).1 == t.1 * radd(v, rmul(t, rsub(b, a))).1,
{
    let (t0, t1, b0, b1, a0, a1, v0, v1) = (t.0, t.1, b.0, b.1, a.0, a.1, v.0, v.1);
    let s1 = v1 * (a1 * t1);
    let s0 = v0 * (a1 * t1) - (a0 * t0) * v1;
    let k = b0 * a1 - a0 * b1;
    let r0 = t0 * k;
    let r1 = t1 * (b1 * a1);
    assert((t0 * b0) * s1 == t1 * (v1 * t0 * (b0 * a1))) by (nonlinear_arith)
        requires s1 == v1 * (a1 * t1);
    assert((v0 * (a1 * t1)) * (t1 * b1) == t1 * (v0 * r1)) by (nonlinear_arith)
        requires r1 == t1 * (b1 * a1);
    assert(((a0 * t0) * v1) * (t1 * b1) == t1 * (v1 * t0 * (a0 * b1))) by (nonlinear_arith);
    assert(s0 * (t1 * b1) == (v0 * (a1 * t1)) * (t1 * b1) - ((a0 * t0) * v1) * (t1 * b1)) by (nonlinear_arith)
        requires s0 == v0 * (a1 * t1) - (a0 * t0) * v1;
    assert(v1 * t0 * (b0 * a1) - v1 * t0 * (a0 * b1) == r0 * v1) by (nonlinear_arith)
        requires r0 == t0 * k, k == b0 * a1 - a0 * b1;
    let x1 = v1 * t0 * (b0 * a1);
    let x2 = v0 * r1;
    let x3 = v1 * t0 * (a0 * b1);
    assert(t1 * x1 + t1 * x2 - t1 * x3 == t1 * (x2 + (x1 - x3))) by (nonlinear_arith);
    assert((t1 * b1) * s1 == t1 * (v1 * r1)) by (nonlinear_arith)
        requires s1 == v1 * (a1 * t1), r1 == t1 * (b1 * a1);
}

/// The line of `linear_2_points` passes through `(b, v2)` when `a != b`.
pub proof fn law_line_through_second_point(a: (int, int), b: (int, int), v1: (int, int), v2: (int, int))
    requires
        a.1 > 0,
        b.1 > 0,
        v1.1 > 0,
        v2.1 > 0,
        !same_value(a, b),
    ensures
        same_value(poly_eval(linear_coeffs(a, b, v1, v2), b), v2),
{
    let cs = linear_coeffs(a, b, v1, v2);
    let t = cs[0];
    let c = cs[1];
    assert(cs =~= seq![t, c]);
    let h = rsub(b, a);
    let dv = rsub(v2, v1);
    assert(h.1 > 0 && dv.1 > 0) by (nonlinear_arith)
        requires h.1 == b.1 * a.1, dv.1 == v2.1 * v1.1, a.1 > 0, b.1 > 0, v1.1 > 0, v2.1 > 0;
    assert(h.0 != 0);
    assert(t == rdiv(dv, h));
    assert(t.1 != 0) by (nonlinear_arith)
        requires t.1 == dv.1 * h.0, dv.1 > 0, h.0 != 0;
    lemma_eval_line(t, c, b);
    let e = radd(rmul(t, b), c);
    lemma_rearrange(t, b, a, v1);
    let f = radd(v1, rmul(t, h));
    assert(same_value(e, f)) by (nonlinear_arith)
        requires e.0 == t.1 * f.0, e.1 == t.1 * f.1;
    // t (b - a) ~ v2 - v1
    let th = rmul(t, h);
    assert(same_value(th, dv)) by (nonlinear_arith)
        requires th == (dv.0 * h.1 * h.0, dv.1 * h.0 * h.1);
    lemma_add_congr(v1, th, v1, dv);
    lemma_add_back(v1, v2, v1);
    assert(dv == rsub(v2, v1));
    // chain
    assert(th.1 != 0) by (nonlinear_arith)
        requires th.1 == t.1 * h.1, t.1 != 0, h.1 > 0;
    assert(f.1 != 0) by (nonlinear_arith)
        requires f.1 == v1.1 * th.1, v1.1 > 0, th.1 != 0;
    assert(radd(v1, dv).1 != 0) by (nonlinear_arith)
        requires radd(v1, dv).1 == v1.1 * dv.1, v1.1 > 0, dv.1 > 0;
    let at = rmul(a, t);
    assert(c.1 != 0) by (nonlinear_arith)
        requires c.1 == v1.1 * (a.1 * t.1), v1.1 > 0, a.1 > 0, t.1 != 0;
    assert(e.1 != 0) by (nonlinear_arith)
        requires e.1 == (t.1 * b.1) * c.1, t.1 != 0, b.1 > 0, c.1 != 0;
    lemma_same_value_trans(poly_eval(cs, b), e, f);
    lemma_same_value_trans(poly_eval(cs, b), f, radd(v1, dv));
    lemma_same_value_trans(poly_eval(cs, b), radd(v1, dv), v2);
}

} // verus!
