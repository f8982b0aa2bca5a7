use hmath::{exp_iter, ln2_iter, ln_iter, pow_iter, BigInt, Ratio, UBigInt};

fn rat(s: &str) -> Ratio {
    Ratio::from_string(s).unwrap()
}

fn from_f64(x: f64) -> Ratio {
    Ratio::from_ieee754_f64_bits(x.to_bits()).unwrap()
}

#[test]
fn round_test() {
    let mut curr = -8.0f64;

    while curr < 8.0 {
        let rounded = curr.round();
        let rounded_rat = from_f64(curr).round();
        assert_eq!(from_f64(rounded), rounded_rat);
        curr += 0.125;
    }
}

#[test]
fn frac_trunc_floor_test() {
    let samples = vec![
        ("3.7", "3.0", "3.0"),
        ("-3.7", "-3.0", "-4.0"),
        ("4.0", "4.0", "4.0"),
        ("-4.0", "-4.0", "-4.0"),
        ("0.0", "0.0", "0.0"),
        ("-0.0", "-0.0", "-0.0"),
    ];

    for (before, trun, floor) in samples.into_iter() {
        assert_eq!(rat(before).truncate(), rat(trun));
        assert_eq!(rat(before).floor(), rat(floor));

        let x = rat(before);
        assert_eq!(x.frac().add_rat(&x.truncate()), x);
        let mut y = x.clone();
        y.frac_mut();
        assert_eq!(y, x.frac());
        let _ = rat(trun).frac();
    }
}

#[test]
fn ln_test() {
    assert_eq!("3.141592", exp_iter(&ln_iter(&rat("3.14159265"), 11), 11).to_approx_string(8));
    assert_eq!("9.999999", exp_iter(&ln_iter(&rat("10"), 6), 6).to_approx_string(8));
    assert_eq!("1", ln_iter(&rat("2.718281828459045"), 6).to_approx_string(8));
    assert_eq!("0.6931471", ln_iter(&rat("2"), 6).to_approx_string(9));
    assert_eq!("-1.386294", ln_iter(&rat("0.25"), 6).to_approx_string(9));
}

#[test]
fn pow_iter_test() {
    assert_eq!(Ratio::zero(), pow_iter(&Ratio::zero(), &Ratio::zero(), 1));
    assert_eq!(Ratio::one(), pow_iter(&Ratio::one(), &Ratio::zero(), 1));
    assert_eq!(Ratio::zero(), pow_iter(&Ratio::zero(), &Ratio::one(), 1));
    assert_eq!(Ratio::one(), pow_iter(&Ratio::one(), &Ratio::one(), 1));
    assert_eq!(
        "4617933561212708776.4",
        pow_iter(&Ratio::from_i32(2), &Ratio::from_denom_and_numer_i32(512, 62 * 512 + 1), 12).to_approx_string(21)
    );
    let half = Ratio::from_ieee754_f32_bits(0.5f32.to_bits()).unwrap();
    assert_eq!("3.162277660168", pow_iter(&Ratio::from_i32(10), &half, 12).to_approx_string(14));
    assert_eq!("16777215.99999", pow_iter(&Ratio::from_i32(8), &Ratio::from_i32(8), 12).to_approx_string(14));
}

#[test]
fn truncate_floor_round_scenarios() {
    let x = rat("-3.7");
    assert_eq!(x.truncate(), Ratio::from_i32(-3));
    assert_eq!(x.floor(), Ratio::from_i32(-4));
    assert_eq!(x.round(), Ratio::from_i32(-4));
    let y = rat("3.7");
    assert_eq!(y.truncate(), Ratio::from_i32(3));
    assert_eq!(y.floor(), Ratio::from_i32(3));
    assert_eq!(y.round(), Ratio::from_i32(4));
    assert_eq!(rat("2.5").round(), Ratio::from_i32(3));
    assert_eq!(rat("-2.5").round(), Ratio::from_i32(-3));
    assert_eq!(rat("-2.5").round_bi(), BigInt::from_i32(-3));
    assert_eq!(rat("-2.5").floor_bi(), BigInt::from_i32(-3));
    assert_eq!(rat("-2.5").truncate_bi(), BigInt::from_i32(-2));
}

#[test]
fn reciprocal_twice_and_invariants() {
    for s in ["3.7", "-0.25", "12", "-7"] {
        let x = rat(s);
        assert_eq!(x.reci().reci(), x);
        let mut y = x.clone();
        y.reci_mut();
        assert_eq!(y, x.reci());
    }
    let r = Ratio::from_denom_and_numer_i32(-6, 4);
    assert_eq!(r, Ratio::from_denom_and_numer_i32(3, -2));
    assert_eq!(r.denom(), BigInt::from_i32(3));
    assert_eq!(r.numer(), BigInt::from_i32(-2));
    assert_eq!(r.neg().neg(), r);
    assert_eq!(r.abs(), Ratio::from_denom_and_numer_i32(3, 2));
    assert_eq!(BigInt::from_i32(5).neg().neg(), BigInt::from_i32(5));
    assert!(!BigInt::from_i32(0).neg().is_neg());
}

#[test]
fn truncate_and_frac_agree() {
    let x = rat("-7.25");
    let (t, f) = x.truncate_and_frac();
    assert_eq!(t, x.truncate_bi());
    assert_eq!(f, x.frac());
    assert_eq!(f, rat("-0.25"));
    let mut z = x.clone();
    z.truncate_mut();
    assert_eq!(z, Ratio::from_i32(-7));
}

#[test]
fn series_constants() {
    assert_eq!(ln2_iter(6).to_approx_string(9), "0.6931471");
    assert_eq!(hmath::e_iter(6).to_approx_string(7), "2.71828");
    assert_eq!(exp_iter(&Ratio::zero(), 3), Ratio::one());
    assert!(Ratio::from_string("1.2.3").is_err());
    assert!(Ratio::from_string("-").is_err());
    assert!(Ratio::from_string("3.").is_err());
}

#[test]
fn random_values_in_range() {
    let u = UBigInt::random(3);
    assert_eq!(u.len(), 3);
    assert!(UBigInt::from_raw(vec![0, 0, 1]).leq_ubi(&u));
    assert_eq!(UBigInt::random(0), UBigInt::zero());
    for _ in 0..20 {
        let r = Ratio::random();
        assert_eq!(r.comp_rat(&Ratio::zero()), 1);
        assert_eq!(r.comp_rat(&Ratio::one()), -1);
    }
}

#[test]
fn line_through_two_points() {
    let p = hmath::linear_2_points(
        &Ratio::from_i32(99856),
        &Ratio::from_i32(100489),
        &Ratio::from_i32(316),
        &Ratio::from_i32(317),
    );
    assert_eq!("3.16227", p.calc(&Ratio::from_i32(100000)).div_i32(100).to_approx_string(7));
    let flat = hmath::linear_2_points(&Ratio::from_i32(2), &Ratio::from_i32(2), &Ratio::from_i32(5), &Ratio::from_i32(9));
    assert_eq!(flat.calc(&Ratio::from_i32(100)), Ratio::from_i32(5));
}

#[test]
fn sqrt_10_test() {
    let sqrt_approx1 = hmath::cubic_2_points(
        &Ratio::from_i32(961),
        &Ratio::from_i32(1024),
        &Ratio::from_i32(31),
        &Ratio::from_i32(32),
        &Ratio::from_denom_and_numer_i32(62, 1),
        &Ratio::from_denom_and_numer_i32(64, 1),
    );

    let sqrt_approx2 = hmath::quadratic_3_points(
        &Ratio::from_i32(961),
        &Ratio::from_i32(1024),
        &Ratio::from_i32(1089),
        &Ratio::from_i32(31),
        &Ratio::from_i32(32),
        &Ratio::from_i32(33),
    );

    let sqrt_approx3 = hmath::linear_2_points(
        &Ratio::from_i32(99856),
        &Ratio::from_i32(100489),
        &Ratio::from_i32(316),
        &Ratio::from_i32(317),
    );

    assert_eq!("3.162277", sqrt_approx1.calc(&Ratio::from_i32(1000)).div_i32(10).to_approx_string(8));
    assert_eq!("3.1622", sqrt_approx2.calc(&Ratio::from_i32(1000)).div_i32(10).to_approx_string(6));
    assert_eq!("3.16227", sqrt_approx3.calc(&Ratio::from_i32(100000)).div_i32(100).to_approx_string(7));
}

#[test]
fn interpolation_degenerate_cases() {
    // equal abscissae: the tangent line through (a, v1) with slope v3
    let c = hmath::cubic_2_points(
        &Ratio::from_i32(2),
        &Ratio::from_i32(2),
        &Ratio::from_i32(5),
        &Ratio::from_i32(100),
        &Ratio::from_i32(3),
        &Ratio::from_i32(100),
    );
    assert_eq!(c.calc(&Ratio::from_i32(4)), Ratio::from_i32(11));
    // two equal abscissae among three: a line through the first two distinct points
    let q = hmath::quadratic_3_points(
        &Ratio::from_i32(1),
        &Ratio::from_i32(1),
        &Ratio::from_i32(3),
        &Ratio::from_i32(2),
        &Ratio::from_i32(7),
        &Ratio::from_i32(6),
    );
    assert_eq!(q.calc(&Ratio::from_i32(2)), Ratio::from_i32(4));
    // a genuine parabola: x^2 through 1, 2, 3
    let p = hmath::quadratic_3_points(
        &Ratio::from_i32(1),
        &Ratio::from_i32(2),
        &Ratio::from_i32(3),
        &Ratio::from_i32(1),
        &Ratio::from_i32(4),
        &Ratio::from_i32(9),
    );
    assert_eq!(p.calc(&Ratio::from_i32(-5)), Ratio::from_i32(25));
}

#[test]
fn zero_base_any_budget() {
    assert_eq!(pow_iter(&Ratio::zero(), &Ratio::zero(), 0), Ratio::zero());
    assert_eq!(pow_iter(&Ratio::zero(), &Ratio::from_i32(-3), 0), Ratio::zero());
}

#[test]
fn drawn_limbs_raise_zeros() {
    assert_eq!(UBigInt::from_random_limbs(vec![0, 5, 0]), UBigInt::from_raw(vec![1, 5, 1]));
    assert_eq!(UBigInt::from_random_limbs(vec![]), UBigInt::zero());
    assert_eq!(UBigInt::from_random_limbs(vec![0]), UBigInt::one());
}

#[test]
fn log2_accurate_signed_matches_unsigned() {
    assert_eq!(BigInt::from_i32(-9900).log2_accurate(), BigInt::from_ubi(UBigInt::from_u32(9900).log2_accurate(), false));
}
