use hmath::{BigInt, Ratio, UBigInt};

fn ubi(s: &str) -> UBigInt {
    UBigInt::from_string(s).unwrap()
}

#[test]
fn sub_carry_test() {
    assert_eq!(
        UBigInt::from_raw(vec![0, 0, 0, 1]).sub_ubi(&UBigInt::from_u32(1)),
        UBigInt::from_raw(vec![u32::MAX, u32::MAX, u32::MAX])
    );

    let mut pow2 = UBigInt::from_u32(256);

    for i in 1..=16 {
        pow2.mul_u32_mut(256);
        pow2.sub_u32_mut(1);
        pow2.add_u32_mut(1);
        pow2.add_u32_mut(1);
        pow2.sub_u32_mut(1);
        pow2.sub_u32_mut(1);
        pow2.add_u32_mut(1);
        assert_eq!(pow2, UBigInt::from_u32(256).pow_u32(i + 1));
    }
}

#[test]
fn factorial_test() {
    let mut acc = UBigInt::one();

    for n in 2..256 {
        acc.mul_u32_mut(n);
        assert_eq!(UBigInt::factorial(n), acc);
    }
}

#[test]
fn fibonacci_test() {
    let mut fibos = vec![UBigInt::zero(), UBigInt::one(), UBigInt::one()];

    for i in 3..256 {
        let next = fibos[i - 1].add_ubi(&fibos[i - 2]);
        fibos.push(next);
    }

    for i in 0..256 {
        assert_eq!(fibos[i], UBigInt::fibonacci(i as u32));
    }
}

#[test]
fn sqrt_test() {
    assert_eq!(ubi("1000").sqrt(), ubi("31"));
    assert_eq!(ubi("1000_0000").sqrt(), ubi("3162"));
    assert_eq!(ubi("1000_0000_0000").sqrt(), ubi("316227"));
    assert_eq!(ubi("1000_0000_0000_0000").sqrt(), ubi("31622776"));
    assert_eq!(ubi("1000_0000_0000_0000_0000").sqrt(), ubi("3162277660"));
    assert_eq!(ubi("1000_0000_0000_0000_0000_0000").sqrt(), ubi("316227766016"));
    assert_eq!(ubi("1000_0000_0000_0000_0000_0000_0000").sqrt(), ubi("31622776601683"));
    assert_eq!(ubi("1000_0000_0000_0000_0000_0000_0000_0000").sqrt(), ubi("3162277660168379"));
    assert_eq!(ubi("1000_0000_0000_0000_0000_0000_0000_0000_0000").sqrt(), ubi("316227766016837933"));
    assert_eq!(ubi("1000_0000_0000_0000_0000_0000_0000_0000_0000_0000").sqrt(), ubi("31622776601683793319"));
    assert_eq!(
        ubi("1000_0000_0000_0000_0000_0000_0000_0000_0000_0000_0000").sqrt(),
        ubi("3162277660168379331998")
    );
    assert_eq!(ubi("400_0000_0000_0000_0000_0000_0000_0000_0000").sqrt(), ubi("20_0000_0000_0000_0000"));
    assert_eq!(UBigInt::from_raw(vec![0, 0x10_000_000]).sqrt(), UBigInt::from_u32(2).pow_u32(30));
    assert_eq!(UBigInt::from_raw(vec![0, 0x4_000_000]).sqrt(), UBigInt::from_u32(2).pow_u32(29));
    assert_eq!(ubi("0x100").sqrt(), ubi("0x10"));
    assert_eq!(ubi("0x101").sqrt(), ubi("0x10"));
    assert_eq!(ubi("0xff").sqrt(), ubi("0xf"));
    assert_eq!(ubi("0").sqrt(), ubi("0"));
    assert_eq!(ubi("1").sqrt(), ubi("1"));
}

#[test]
fn log_test() {
    let mut n = UBigInt::from_u32(2);
    let mut i = 1;

    for _ in 0..256 {
        assert_eq!(UBigInt::from_u32(i), n.log2());
        assert_eq!(UBigInt::from_u32(i), n.add_u32(1).log2());
        assert_eq!(UBigInt::from_u32(i - 1), n.sub_u32(1).log2());
        n.mul_u32_mut(2);
        i += 1;
    }

    let denom = BigInt::from_i32(16777216);

    assert_eq!(
        Ratio::from_denom_and_numer(denom.clone(), BigInt::from_i32(3).log2_accurate()).to_approx_string(6),
        "1.5849"
    );
    assert_eq!(
        Ratio::from_denom_and_numer(denom.clone(), BigInt::from_i32(9900).log2_accurate()).to_approx_string(6),
        "13.273"
    );
}

#[test]
fn decimal_round_trip() {
    for s in ["0", "7", "10", "4294967296", "340282366920938463463374607431768211457"] {
        let x = ubi(s);
        assert_eq!(x.to_string(), s);
        assert_eq!(ubi(&x.to_string()), x);
    }
}

#[test]
fn add_then_sub_gives_back() {
    let x = ubi("123456789012345678901234567890");
    let y = UBigInt::from_raw(vec![u32::MAX, u32::MAX, 7]);
    assert_eq!(x.add_ubi(&y).sub_ubi(&y), x);
    assert_eq!(y.add_ubi(&x).sub_ubi(&x), y);
}

#[test]
fn parse_errors() {
    assert!(UBigInt::from_string("").is_err());
    assert!(UBigInt::from_string("12a").is_err());
    assert!(UBigInt::from_string("0x").is_err());
    assert_eq!(ubi("0x1_0"), UBigInt::from_u32(16));
}

#[test]
fn division_and_gcd() {
    let a = ubi("1000000000000000000000");
    let b = ubi("12345678901");
    let q = a.div_ubi(&b);
    let r = a.rem_ubi(&b);
    assert_eq!(q.mul_ubi(&b).add_ubi(&r), a);
    assert!(r.lt_ubi(&b));
    assert_eq!(hmath::gcd_ubi(&UBigInt::from_u32(84), &UBigInt::from_u32(36)), UBigInt::from_u32(12));
    assert_eq!(hmath::gcd_ubi(&UBigInt::zero(), &UBigInt::from_u32(5)), UBigInt::from_u32(5));
    assert_eq!(hmath::log2_u32(1), 0);
    assert_eq!(hmath::log2_u32(1025), 10);
    assert_eq!(hmath::log2_u32(u32::MAX), 31);
}

fn prime_factorial_test_unit(number: &UBigInt) {
    let result = number.prime_factorial();
    let mut answer = UBigInt::one();

    for pf in result.iter() {
        answer.mul_ubi_mut(pf);

        if !pf.is_prime() && !(pf.is_one() && number.is_one()) {
            panic!("{:?}, {:?}, {:?}", pf, number, result);
        }
    }

    assert_eq!(&answer, number);

    if ((result.len() == 1) != number.is_prime()) && !number.is_one() {
        panic!("{:?}, {:?}", number, result);
    }
}

#[test]
fn prime_factorial_test() {
    for i in 1..100000 {
        prime_factorial_test_unit(&UBigInt::from_u32(i));
    }

    let pns = vec![
        2, 3, 5, 7, 11, 13, 17, 19, 23, 29, 31, 37, 41, 43, 47, 53, 59, 61, 67, 71, 73, 79, 83, 89, 97, 101, 103, 107,
        109,
    ];

    for pn in pns.into_iter() {
        assert!(UBigInt::from_u32(pn).is_prime());
    }
}

#[test]
fn primes_beyond_one_limb() {
    assert!(UBigInt::from_u32(1_000_003).is_prime());
    assert!(!UBigInt::from_u64(1_000_003 * 1_000_033).is_prime());
    let f = UBigInt::from_raw(vec![0, 0, 3]);
    let mut expected = vec![UBigInt::from_u32(2); 64];
    expected.push(UBigInt::from_u32(3));
    assert_eq!(f.prime_factorial(), expected);
    assert_eq!(UBigInt::zero().prime_factorial(), vec![UBigInt::zero()]);
    assert_eq!(UBigInt::one().prime_factorial(), vec![UBigInt::one()]);
    assert!(!UBigInt::zero().is_prime());
    assert!(!UBigInt::one().is_prime());
    assert_eq!(
        UBigInt::from_u32(360).prime_factorial(),
        vec![2u32, 2, 2, 3, 3, 5].into_iter().map(UBigInt::from_u32).collect::<Vec<_>>()
    );
}

#[test]
fn sqrt_bounds_hold() {
    for s in ["0", "1", "2", "3", "4", "99", "100", "101", "18446744073709551615", "0x1_0000_0000_0000_0000_0000"] {
        let n = ubi(s);
        let r = n.sqrt();
        assert!(r.mul_ubi(&r).leq_ubi(&n));
        let r1 = r.add_u32(1);
        assert!(r1.mul_ubi(&r1).gt_ubi(&n));
    }
}

#[test]
fn log2_edges() {
    assert_eq!(UBigInt::zero().log2(), UBigInt::zero());
    assert_eq!(UBigInt::one().log2(), UBigInt::zero());
    assert_eq!(UBigInt::from_raw(vec![0, 0, 1]).log2(), UBigInt::from_u32(64));
    assert_eq!(UBigInt::zero().log2_accurate(), UBigInt::zero());
    assert_eq!(UBigInt::from_u32(2).log2_accurate(), UBigInt::from_u32(16777216));
    assert_eq!(UBigInt::from_u32(10).to_string(), "10");
    assert_eq!(UBigInt::from_u64(u64::MAX).to_u64(), Some(u64::MAX));
    assert_eq!(UBigInt::from_raw(vec![0, 0, 1]).to_u64(), None);
}
