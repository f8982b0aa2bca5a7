//! Arbitrary-precision unsigned and signed integers, exact rationals in
//! lowest terms, and series approximations built on them.
//!
//! Layers, each built on the one before: `UBigInt` (32-bit limbs, least
//! significant first), `BigInt` (a magnitude and a sign), `Ratio` (a reduced
//! fraction with a positive denominator), then the series evaluators
//! `ln_iter`, `exp_iter`, `pow_iter` and interpolation helpers.

mod bigint;
mod gcd;
mod laws;
mod poly;
mod primes;
mod ratio;
mod series;
mod text;
mod ubigint;
mod ubigint_funcs;

pub use bigint::{iabs, trunc_div, trunc_rem, BigInt};
pub use gcd::{divides, gcd};
pub use laws::{
    law_add_sub_round_trip, law_decimal_round_trip, law_neg_neg, law_rational_invariant, law_reci_involution,
    law_single_factor_iff_prime, law_zero_canonical,
};
pub use poly::{
    cubic_2_points, cubic_coeffs, law_line_through_first_point, law_line_through_second_point, linear_2_points, linear_coeffs, poly_eval, quadratic_3_points, quadratic_coeffs,
    rdiv, rsub, Polynomial,
};
pub use primes::{factor_values, is_prime_nat, no_divisor_below, product};
pub use ratio::{reci_view, round_half_away, same_value, Ratio};
pub use series::{
    e_iter, e_value, exp_iter, exp_partial, exp_term, exp_value, lemma_ln_spec_denom, ln_arg, ln_exponent, ln_spec, ln1p_partial, ln2_iter,
    ln2_partial, ln2_value, ln_iter, ln_value, pow_iter, radd, rmul, rpow_int,
};
pub use text::{
    approx_text, ascii_chars, binary_float_value, dec_body, dec_digits, digit_of, frac_digits, frac_state, int_body,
    scan, scan_complete, scan_error, scan_step, strip_point, strip_zeros, ParseError, Scan,
};
pub use ubigint::{base_pow, limb_len_of, raise_zero_limbs, limb_at, limb_base, limbs_normal, limbs_value, prefix_value, UBigInt};
pub use ubigint_funcs::{
    drop_low_limbs, factorial_of, fibonacci_of, floor_log2, gcd_ubi, is_floor_log2, log2_accurate_of, log2_round, log2_rounds,
    log2_u32,
};
