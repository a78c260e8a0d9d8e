use pseudodouble::bits::{
    divs64hi, leading_bits, mults64hi, multu64hi, shift_left_signed, shift_left_unsigned,
};
use pseudodouble::kernels::{
    atan_rev_64_fixed, exp2_64_fixed, inv_sqrt64_fixed, log2_64_fixed, sin_rev_64_fixed,
};
use pseudodouble::pseudo_double::{
    PseudoDouble, PD_EPSILON_BITS, PD_INV_LOG_2_10_BITS, PD_INV_LOG_2_E_BITS, PD_INV_TAU_BITS,
    PD_LOG_2_10_BITS, PD_LOG_2_E_BITS, PD_NEG_ONE_BITS, PD_ONE_BITS, PD_PI_BITS, PD_TAU_BITS,
    PD_THREE_BITS, PD_ZERO_BITS,
};

#[test]
fn named_constants_come_from_the_decimal_builder() {
    assert_eq!(PD_ZERO_BITS, 0);
    assert_eq!(PseudoDouble::pdc10(1, 0).0, PD_ONE_BITS);
    assert_eq!(PseudoDouble::pdc10(-1, 0).0, PD_NEG_ONE_BITS);
    assert_eq!(PseudoDouble::pdc10(3, 0).0, PD_THREE_BITS);
    assert_eq!(PseudoDouble::pdc10(1442695040888963407, -18).0, PD_LOG_2_E_BITS);
    assert_eq!(PseudoDouble::pdc10(3321928094887362347, -18).0, PD_LOG_2_10_BITS);
    assert_eq!(PseudoDouble::pdc10(6931471805599453094, -19).0, PD_INV_LOG_2_E_BITS);
    assert_eq!(PseudoDouble::pdc10(3010299956639811952, -19).0, PD_INV_LOG_2_10_BITS);
    assert_eq!(PseudoDouble::pdc10(6283185307179586477, -18).0, PD_TAU_BITS);
    assert_eq!(PseudoDouble::pdc10(1591549430918953358, -19).0, PD_INV_TAU_BITS);
    assert_eq!(PseudoDouble(PD_TAU_BITS).ldexp(-1).0, PD_PI_BITS);
    assert_eq!(PD_EPSILON_BITS, (1i64 << 62) + (1i64 << 15) + (16 - 64 + 4));
}

#[test]
fn high_words_of_products() {
    assert_eq!(multu64hi(0, u64::MAX), 0);
    assert_eq!(multu64hi(u64::MAX, u64::MAX), u64::MAX - 1);
    assert_eq!(multu64hi(1 << 63, 6), 3);
    assert_eq!(mults64hi(i64::MIN, i64::MIN), 1 << 62);
    assert_eq!(mults64hi(-1, 1), -1);
    assert_eq!(mults64hi(1 << 62, -8), -2);
    assert_eq!(mults64hi(i64::MAX, i64::MAX), (1 << 62) - 1);
}

#[test]
fn quotients_of_words() {
    assert_eq!(divs64hi(1, 4), 1 << 62);
    assert_eq!(divs64hi(-1, 4), -(1 << 62));
    assert_eq!(divs64hi(1, -4), -(1 << 62));
    assert_eq!(divs64hi(-1, -4), 1 << 62);
    assert_eq!(divs64hi(1, 3), 6148914691236517205);
    assert_eq!(divs64hi(-1, 3), -6148914691236517205);
    assert_eq!(divs64hi(0, 7), 0);
    assert_eq!(divs64hi(5, 1), 0);
}

#[test]
fn shifts_by_signed_amounts() {
    assert_eq!(shift_left_signed(3, 4), 48);
    assert_eq!(shift_left_signed(-48, -4), -3);
    assert_eq!(shift_left_signed(-49, -4), -4);
    assert_eq!(shift_left_signed(7, 0), 7);
    assert_eq!(shift_left_signed(1, 63), i64::MIN);
    assert_eq!(shift_left_signed(3, 63), i64::MIN);
    assert_eq!(shift_left_unsigned(3, 4), 48);
    assert_eq!(shift_left_unsigned(49, -4), 3);
    assert_eq!(shift_left_unsigned(u64::MAX, -63), 1);
    assert_eq!(shift_left_unsigned(3, 63), 1 << 63);
}

#[test]
fn leading_bits_of_words() {
    assert_eq!(leading_bits(0), 64);
    assert_eq!(leading_bits(-1), 64);
    assert_eq!(leading_bits(1), 63);
    assert_eq!(leading_bits(-2), 63);
    assert_eq!(leading_bits(i64::MAX), 1);
    assert_eq!(leading_bits(i64::MIN), 1);
    assert_eq!(leading_bits(1 << 62), 1);
    assert_eq!(leading_bits((1 << 62) - 1), 2);
}

#[test]
fn kernels_at_the_ends_of_their_ranges() {
    assert_eq!(exp2_64_fixed(0), 1 << 62);
    assert!(exp2_64_fixed(u64::MAX) < 1 << 63);
    assert!(exp2_64_fixed(u64::MAX) > (1 << 63) - (1 << 20));
    assert!(exp2_64_fixed(1 << 63).abs_diff(6521908912666391106) < 1 << 10);
    assert_eq!(log2_64_fixed(0), 0);
    assert!(log2_64_fixed((1 << 63) - 1) > (1 << 63) - (1 << 20));
    assert_eq!(sin_rev_64_fixed(0), 0);
    assert_eq!(sin_rev_64_fixed(1 << 62), 1 << 62);
    assert_eq!(atan_rev_64_fixed(0), 0);
    assert_eq!(atan_rev_64_fixed(1 << 62), 1 << 62);
    let r = inv_sqrt64_fixed(1 << 63);
    let expected = ((1u128 << 63) as f64 / 2f64.sqrt()) as u64;
    assert!(r.abs_diff(expected) < 1 << 12);
}
